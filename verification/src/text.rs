//! Character-level building blocks: whitespace trimming, prefixes,
//! splitting on a separator, splitting a document into lines, decimal
//! numerals and the escaping of `<`.
use vstd::prelude::*;

verus! {

// ---------------------------------------------------------------------------
// Conversions between `str`/`String` and sequences of characters
// ---------------------------------------------------------------------------

/// The characters of `s`, in order.
pub fn chars_of(s: &str) -> (res: Vec<char>)
    ensures
        res@ == s@,
{
    let mut res: Vec<char> = Vec::new();
    for c in it: s.chars()
        invariant
            res@ == it.seq().take(it.index() as int),
    {
        res.push(c);
    }
    res
}

/// Builds a `String` out of characters, with `String::from_iter` of std.
/// Trusted: the string it returns holds exactly the given characters, in
/// their order.
#[verifier::external_body]
pub(crate) fn string_from_chars(chars: Vec<char>) -> (res: String)
    ensures
        res@ == chars@,
{
    String::from_iter(chars)
}

/// The string made of the characters `s[from..to]`.
pub fn string_of_range(s: &Vec<char>, from: usize, to: usize) -> (res: String)
    requires
        from <= to <= s@.len(),
    ensures
        res@ == s@.subrange(from as int, to as int),
{
    let mut v: Vec<char> = Vec::new();
    let mut i = from;
    while i < to
        invariant
            from <= i <= to <= s@.len(),
            v@ == s@.subrange(from as int, i as int),
        decreases to - i,
    {
        v.push(s[i]);
        i = i + 1;
    }
    string_from_chars(v)
}

// ---------------------------------------------------------------------------
// Whitespace and trimming
// ---------------------------------------------------------------------------

/// A character with the Unicode `White_Space` property, the set of
/// characters that `char::is_whitespace` accepts.
pub open spec fn is_white(c: char) -> bool {
    ||| ('\u{9}' <= c && c <= '\u{d}')
    ||| c == ' '
    ||| c == '\u{85}'
    ||| c == '\u{a0}'
    ||| c == '\u{1680}'
    ||| ('\u{2000}' <= c && c <= '\u{200a}')
    ||| c == '\u{2028}'
    ||| c == '\u{2029}'
    ||| c == '\u{202f}'
    ||| c == '\u{205f}'
    ||| c == '\u{3000}'
}

/// Whether `c` is a Unicode whitespace character.
pub fn is_whitespace(c: char) -> (res: bool)
    ensures
        res == is_white(c),
{
    ('\u{9}' <= c && c <= '\u{d}') || c == ' ' || c == '\u{85}' || c == '\u{a0}' || c
        == '\u{1680}' || ('\u{2000}' <= c && c <= '\u{200a}') || c == '\u{2028}' || c
        == '\u{2029}' || c == '\u{202f}' || c == '\u{205f}' || c == '\u{3000}'
}

/// `s` without its leading whitespace.
pub open spec fn trim_start(s: Seq<char>) -> Seq<char>
    decreases s.len(),
{
    if s.len() > 0 && is_white(s[0]) {
        trim_start(s.drop_first())
    } else {
        s
    }
}

/// `s` without its trailing whitespace.
pub open spec fn trim_end(s: Seq<char>) -> Seq<char>
    decreases s.len(),
{
    if s.len() > 0 && is_white(s.last()) {
        trim_end(s.drop_last())
    } else {
        s
    }
}

/// `s` without leading and trailing whitespace, as `str::trim` gives it.
pub open spec fn trim(s: Seq<char>) -> Seq<char> {
    trim_end(trim_start(s))
}

proof fn lemma_trim_start_at(s: Seq<char>, i: int)
    requires
        0 <= i <= s.len(),
        forall|j: int| 0 <= j < i ==> is_white(#[trigger] s[j]),
        i == s.len() || !is_white(s[i]),
    ensures
        trim_start(s) == s.skip(i),
    decreases i,
{
    if i > 0 {
        assert(is_white(s[0]));
        lemma_trim_start_at(s.drop_first(), i - 1);
        assert(s.drop_first().skip(i - 1) =~= s.skip(i));
    } else {
        assert(s.skip(0) =~= s);
    }
}

proof fn lemma_trim_end_at(s: Seq<char>, e: int)
    requires
        0 <= e <= s.len(),
        forall|j: int| e <= j < s.len() ==> is_white(#[trigger] s[j]),
        e == 0 || !is_white(s[e - 1]),
    ensures
        trim_end(s) == s.take(e),
    decreases s.len() - e,
{
    if e < s.len() {
        assert(is_white(s.last()));
        lemma_trim_end_at(s.drop_last(), e);
        assert(s.drop_last().take(e) =~= s.take(e));
    } else {
        assert(s.take(e) =~= s);
    }
}

/// The bounds `(start, end)` of `s` with its leading and trailing whitespace
/// cut off.
pub fn trim_bounds(s: &Vec<char>) -> (res: (usize, usize))
    ensures
        res.0 <= res.1 <= s@.len(),
        s@.subrange(res.0 as int, res.1 as int) == trim(s@),
{
    let n = s.len();
    let mut start: usize = 0;
    while start < n && is_whitespace(s[start])
        invariant
            start <= n == s@.len(),
            forall|j: int| 0 <= j < start ==> is_white(#[trigger] s@[j]),
        decreases n - start,
    {
        start = start + 1;
    }
    proof {
        lemma_trim_start_at(s@, start as int);
    }
    let ghost t = s@.skip(start as int);
    let mut end: usize = n;
    while end > start && is_whitespace(s[end - 1])
        invariant
            start <= end <= n == s@.len(),
            t == s@.skip(start as int),
            forall|j: int| end <= j < n ==> is_white(#[trigger] s@[j]),
        decreases end - start,
    {
        end = end - 1;
    }
    proof {
        assert forall|j: int| end - start <= j < t.len() implies is_white(#[trigger] t[j]) by {
            assert(t[j] == s@[j + start]);
        }
        if end > start {
            assert(t[end - start - 1] == s@[end - 1]);
        }
        lemma_trim_end_at(t, end - start);
        assert(t.take(end - start) =~= s@.subrange(start as int, end as int));
    }
    (start, end)
}

proof fn lemma_trim_start_shape(s: Seq<char>)
    ensures
        trim_start(s).len() == 0 || !is_white(trim_start(s)[0]),
    decreases s.len(),
{
    if s.len() > 0 && is_white(s[0]) {
        lemma_trim_start_shape(s.drop_first());
    }
}

proof fn lemma_trim_end_shape(s: Seq<char>)
    ensures
        trim_end(s).len() <= s.len(),
        trim_end(s) == s.take(trim_end(s).len() as int),
        trim_end(s).len() == 0 || !is_white(trim_end(s).last()),
    decreases s.len(),
{
    if s.len() > 0 && is_white(s.last()) {
        lemma_trim_end_shape(s.drop_last());
        let t = trim_end(s.drop_last());
        assert(s.drop_last().take(t.len() as int) =~= s.take(t.len() as int));
    } else {
        assert(s.take(s.len() as int) =~= s);
    }
}

proof fn lemma_trim_end_keeps_first(s: Seq<char>)
    requires
        s.len() > 0,
        !is_white(s[0]),
    ensures
        trim_end(s).len() > 0,
    decreases s.len(),
{
    if is_white(s.last()) {
        if s.len() == 1 {
            assert(s.last() == s[0]);
        } else {
            assert(s.drop_last()[0] == s[0]);
            lemma_trim_end_keeps_first(s.drop_last());
        }
    }
}

/// A text that starts with a character other than whitespace keeps that
/// character first when trimmed.
pub proof fn lemma_trim_first(s: Seq<char>)
    requires
        s.len() > 0,
        !is_white(s[0]),
    ensures
        trim(s).len() > 0,
        trim(s)[0] == s[0],
{
    assert(trim_start(s) == s);
    lemma_trim_end_keeps_first(s);
    lemma_trim_end_shape(s);
    assert(trim(s)[0] == s.take(trim(s).len() as int)[0]);
}

/// Trimming a trimmed text changes nothing.
pub proof fn lemma_trim_idempotent(s: Seq<char>)
    ensures
        trim(trim(s)) == trim(s),
{
    let u = trim_start(s);
    let v = trim_end(u);
    lemma_trim_start_shape(s);
    lemma_trim_end_shape(u);
    if v.len() > 0 {
        assert(u.len() > 0);
        assert(v[0] == u.take(v.len() as int)[0]);
        assert(!is_white(v[0]));
    }
    assert(trim_start(v) == v);
    assert(trim_end(v) == v);
}

// ---------------------------------------------------------------------------
// Prefixes and suffixes
// ---------------------------------------------------------------------------

/// `s` begins with `p`.
pub open spec fn starts_with(s: Seq<char>, p: Seq<char>) -> bool {
    p.len() <= s.len() && s.take(p.len() as int) == p
}

/// `s` ends with `p`.
pub open spec fn ends_with(s: Seq<char>, p: Seq<char>) -> bool {
    p.len() <= s.len() && s.skip(s.len() - p.len()) == p
}

/// Whether `s[from..to]` begins with `p`.
pub fn range_starts_with(s: &Vec<char>, from: usize, to: usize, p: &Vec<char>) -> (res: bool)
    requires
        from <= to <= s@.len(),
    ensures
        res == starts_with(s@.subrange(from as int, to as int), p@),
{
    let ghost r = s@.subrange(from as int, to as int);
    if p.len() > to - from {
        return false;
    }
    let mut i: usize = 0;
    while i < p.len()
        invariant
            i <= p@.len() <= to - from,
            from <= to <= s@.len(),
            r == s@.subrange(from as int, to as int),
            forall|j: int| 0 <= j < i ==> r[j] == p@[j],
        decreases p@.len() - i,
    {
        if s[from + i] != p[i] {
            assert(r.take(p@.len() as int)[i as int] != p@[i as int]);
            return false;
        }
        i = i + 1;
    }
    assert(r.take(p@.len() as int) =~= p@);
    true
}

/// Whether `s[from..to]` ends with `p`.
pub fn range_ends_with(s: &Vec<char>, from: usize, to: usize, p: &Vec<char>) -> (res: bool)
    requires
        from <= to <= s@.len(),
    ensures
        res == ends_with(s@.subrange(from as int, to as int), p@),
{
    let ghost r = s@.subrange(from as int, to as int);
    if p.len() > to - from {
        return false;
    }
    let start = to - p.len();
    let mut i: usize = 0;
    while i < p.len()
        invariant
            i <= p@.len() <= to - from,
            start == to - p@.len(),
            from <= to <= s@.len(),
            r == s@.subrange(from as int, to as int),
            forall|j: int| 0 <= j < i ==> r[r.len() - p@.len() + j] == p@[j],
        decreases p@.len() - i,
    {
        if s[start + i] != p[i] {
            assert(r.skip(r.len() - p@.len())[i as int] != p@[i as int]);
            return false;
        }
        i = i + 1;
    }
    assert(r.skip(r.len() - p@.len()) =~= p@);
    true
}

// ---------------------------------------------------------------------------
// Splitting on a separator
// ---------------------------------------------------------------------------

/// The pieces of `s` between occurrences of `sep`, as `str::split` with a
/// character yields them: `k` separators give `k + 1` pieces, empty ones
/// included.
pub open spec fn split_on(s: Seq<char>, sep: char) -> Seq<Seq<char>>
    decreases s.len(),
{
    if s.len() == 0 {
        seq![Seq::empty()]
    } else {
        let pieces = split_on(s.drop_last(), sep);
        if s.last() == sep {
            pieces.push(Seq::empty())
        } else {
            pieces.update(pieces.len() - 1, pieces.last().push(s.last()))
        }
    }
}

/// The characters of the pieces, joined by `sep`.
pub open spec fn join_with(pieces: Seq<Seq<char>>, sep: char) -> Seq<char>
    decreases pieces.len(),
{
    if pieces.len() == 0 {
        Seq::empty()
    } else if pieces.len() == 1 {
        pieces[0]
    } else {
        join_with(pieces.drop_last(), sep).push(sep) + pieces.last()
    }
}

/// Splitting never yields an empty list of pieces, and no piece holds the
/// separator.
pub proof fn lemma_split_on_pieces(s: Seq<char>, sep: char)
    ensures
        split_on(s, sep).len() >= 1,
        forall|i: int|
            0 <= i < split_on(s, sep).len() ==> !(#[trigger] split_on(s, sep)[i]).contains(sep),
    decreases s.len(),
{
    if s.len() > 0 {
        lemma_split_on_pieces(s.drop_last(), sep);
        let pieces = split_on(s.drop_last(), sep);
        if s.last() != sep {
            assert forall|i: int|
                0 <= i < split_on(s, sep).len() implies !(#[trigger] split_on(s, sep)[i]).contains(
                sep,
            ) by {
                if i == pieces.len() - 1 {
                    let p = pieces.last().push(s.last());
                    if p.contains(sep) {
                        let k = choose|k: int| 0 <= k < p.len() && p[k] == sep;
                        assert(pieces.last()[k] == sep);
                    }
                }
            }
        } else {
            assert forall|i: int|
                0 <= i < split_on(s, sep).len() implies !(#[trigger] split_on(s, sep)[i]).contains(
                sep,
            ) by {
                if i < pieces.len() {
                    assert(split_on(s, sep)[i] == pieces[i]);
                }
            }
        }
    } else {
        assert forall|i: int|
            0 <= i < split_on(s, sep).len() implies !(#[trigger] split_on(s, sep)[i]).contains(
            sep,
        ) by {
            assert(split_on(s, sep)[i] =~= Seq::<char>::empty());
        }
    }
}

/// A split has no more pieces than the text has characters and one, and no
/// piece is longer than the text: the pieces before the last are each ended
/// by a separator of their own.
pub proof fn lemma_split_on_sizes(s: Seq<char>, sep: char)
    ensures
        split_on(s, sep).len() >= 1,
        split_on(s, sep).len() - 1 + split_on(s, sep).last().len() <= s.len(),
        forall|i: int|
            0 <= i < split_on(s, sep).len() ==> (#[trigger] split_on(s, sep)[i]).len() <= s.len(),
    decreases s.len(),
{
    if s.len() > 0 {
        lemma_split_on_sizes(s.drop_last(), sep);
        let pieces = split_on(s.drop_last(), sep);
        let new_pieces = split_on(s, sep);
        assert forall|i: int| 0 <= i < new_pieces.len() implies (#[trigger] new_pieces[i]).len()
            <= s.len() by {
            if i < pieces.len() - 1 {
                assert(new_pieces[i] == pieces[i]);
            }
        }
    }
}

/// How many times `c` occurs in `s`.
pub open spec fn count_char(s: Seq<char>, c: char) -> nat
    decreases s.len(),
{
    if s.len() == 0 {
        0
    } else {
        count_char(s.drop_last(), c) + if s.last() == c {
            1nat
        } else {
            0nat
        }
    }
}

/// Occurrences in a concatenation are those of each part.
pub proof fn lemma_count_char_concat(a: Seq<char>, b: Seq<char>, c: char)
    ensures
        count_char(a + b, c) == count_char(a, c) + count_char(b, c),
    decreases b.len(),
{
    if b.len() == 0 {
        assert(a + b =~= a);
    } else {
        lemma_count_char_concat(a, b.drop_last(), c);
        assert((a + b).drop_last() =~= a + b.drop_last());
        assert((a + b).last() == b.last());
    }
}

/// A split has one piece more than the text has separators.
pub proof fn lemma_split_on_count(s: Seq<char>, sep: char)
    ensures
        split_on(s, sep).len() == count_char(s, sep) + 1,
    decreases s.len(),
{
    if s.len() > 0 {
        lemma_split_on_count(s.drop_last(), sep);
    }
}

/// Joining the pieces of a split with the separator gives back the text
/// that was split.
pub proof fn lemma_split_join(s: Seq<char>, sep: char)
    ensures
        join_with(split_on(s, sep), sep) == s,
    decreases s.len(),
{
    if s.len() > 0 {
        lemma_split_join(s.drop_last(), sep);
        lemma_split_on_pieces(s.drop_last(), sep);
        let pieces = split_on(s.drop_last(), sep);
        let new_pieces = split_on(s, sep);
        if s.last() == sep {
            assert(new_pieces.drop_last() =~= pieces);
            assert(s =~= s.drop_last().push(sep) + Seq::<char>::empty());
        } else {
            let last = pieces.last().push(s.last());
            assert(new_pieces.last() == last);
            if pieces.len() == 1 {
                assert(s =~= s.drop_last().push(s.last()));
            } else {
                assert(new_pieces.drop_last() =~= pieces.drop_last());
                assert(join_with(pieces, sep) == join_with(pieces.drop_last(), sep).push(sep)
                    + pieces.last());
                let j = join_with(pieces.drop_last(), sep).push(sep);
                assert(s.drop_last() == j + pieces.last());
                assert(s =~= s.drop_last().push(s.last()));
                assert((j + pieces.last()).push(s.last()) =~= j + last);
                assert(join_with(new_pieces, sep) == join_with(new_pieces.drop_last(), sep).push(
                    sep,
                ) + new_pieces.last());
            }
        }
    }
}

/// The pieces of `s[from..to]` between occurrences of `sep`.
pub fn split_range(s: &Vec<char>, from: usize, to: usize, sep: char) -> (res: Vec<Vec<char>>)
    requires
        from <= to <= s@.len(),
    ensures
        res@.len() == split_on(s@.subrange(from as int, to as int), sep).len(),
        forall|i: int|
            0 <= i < res@.len() ==> #[trigger] res@[i]@ == split_on(
                s@.subrange(from as int, to as int),
                sep,
            )[i],
{
    let ghost r = s@.subrange(from as int, to as int);
    let mut done: Vec<Vec<char>> = Vec::new();
    let mut cur: Vec<char> = Vec::new();
    let mut i = from;
    while i < to
        invariant
            from <= i <= to <= s@.len(),
            r == s@.subrange(from as int, to as int),
            done@.len() + 1 == split_on(r.take(i - from), sep).len(),
            forall|k: int|
                0 <= k < done@.len() ==> #[trigger] done@[k]@ == split_on(r.take(i - from), sep)[k],
            cur@ == split_on(r.take(i - from), sep).last(),
        decreases to - i,
    {
        let c = s[i];
        proof {
            assert(r.take(i + 1 - from).drop_last() =~= r.take(i - from));
            assert(r.take(i + 1 - from).last() == c);
        }
        if c == sep {
            done.push(cur);
            cur = Vec::new();
        } else {
            cur.push(c);
        }
        i = i + 1;
    }
    proof {
        assert(r.take(to - from) =~= r);
    }
    done.push(cur);
    done
}

// ---------------------------------------------------------------------------
// Lines
// ---------------------------------------------------------------------------

/// `s` without one trailing carriage return, if it has one.
pub open spec fn strip_cr(s: Seq<char>) -> Seq<char> {
    if s.len() > 0 && s.last() == '\r' {
        s.drop_last()
    } else {
        s
    }
}

/// The lines of a text, as `str::lines` yields them: the text is split at
/// each `\n`; a piece that a `\n` ends loses one `\r` before it; a last,
/// unterminated piece is kept as it is, and dropped when it is empty.
pub open spec fn lines_of(s: Seq<char>) -> Seq<Seq<char>> {
    let pieces = split_on(s, '\n');
    let ended = pieces.drop_last().map_values(|p: Seq<char>| strip_cr(p));
    if pieces.last().len() == 0 {
        ended
    } else {
        ended.push(pieces.last())
    }
}

/// No line holds a `\n`.
pub proof fn lemma_lines_have_no_newline(s: Seq<char>)
    ensures
        forall|i: int| 0 <= i < lines_of(s).len() ==> !(#[trigger] lines_of(s)[i]).contains('\n'),
{
    let pieces = split_on(s, '\n');
    lemma_split_on_pieces(s, '\n');
    assert forall|i: int| 0 <= i < lines_of(s).len() implies !(#[trigger] lines_of(
        s,
    )[i]).contains('\n') by {
        let l = lines_of(s)[i];
        let p = if i < pieces.len() - 1 {
            pieces[i]
        } else {
            pieces.last()
        };
        assert(!p.contains('\n'));
        if i < pieces.len() - 1 {
            assert(l == strip_cr(pieces[i]));
        } else {
            assert(l == pieces.last());
        }
        if l.contains('\n') {
            let k = choose|k: int| 0 <= k < l.len() && l[k] == '\n';
            assert(p[k] == '\n');
        }
    }
}

/// A text has no more lines than characters, and no line is longer than
/// the text.
pub proof fn lemma_lines_sizes(s: Seq<char>)
    ensures
        lines_of(s).len() <= s.len(),
        forall|i: int| 0 <= i < lines_of(s).len() ==> (#[trigger] lines_of(s)[i]).len() <= s.len(),
{
    let pieces = split_on(s, '\n');
    lemma_split_on_sizes(s, '\n');
    assert forall|i: int| 0 <= i < lines_of(s).len() implies (#[trigger] lines_of(s)[i]).len()
        <= s.len() by {
        if i < pieces.len() - 1 {
            assert(lines_of(s)[i] == strip_cr(pieces[i]));
        } else {
            assert(lines_of(s)[i] == pieces.last());
        }
    }
}

/// No piece of a split holds a character the text does not hold.
proof fn lemma_split_on_keeps_out(s: Seq<char>, sep: char, x: char)
    requires
        !s.contains(x),
    ensures
        forall|i: int|
            0 <= i < split_on(s, sep).len() ==> !(#[trigger] split_on(s, sep)[i]).contains(x),
    decreases s.len(),
{
    if s.len() > 0 {
        assert(!s.drop_last().contains(x)) by {
            if s.drop_last().contains(x) {
                let k = choose|k: int| 0 <= k < s.drop_last().len() && s.drop_last()[k] == x;
                assert(s[k] == x);
            }
        }
        assert(s.last() != x) by {
            assert(s[s.len() - 1] == s.last());
        }
        lemma_split_on_keeps_out(s.drop_last(), sep, x);
        lemma_split_on_pieces(s.drop_last(), sep);
        let pieces = split_on(s.drop_last(), sep);
        assert forall|i: int| 0 <= i < split_on(s, sep).len() implies !(#[trigger] split_on(
            s,
            sep,
        )[i]).contains(x) by {
            if s.last() != sep && i == pieces.len() - 1 {
                let p = pieces.last().push(s.last());
                if p.contains(x) {
                    let k = choose|k: int| 0 <= k < p.len() && p[k] == x;
                    assert(pieces.last()[k] == x);
                }
            } else if i < pieces.len() {
                assert(split_on(s, sep)[i] == pieces[i]);
            }
        }
    } else {
        assert forall|i: int| 0 <= i < split_on(s, sep).len() implies !(#[trigger] split_on(
            s,
            sep,
        )[i]).contains(x) by {
            assert(split_on(s, sep)[i] =~= Seq::<char>::empty());
        }
    }
}

/// A text without the separator is a single piece.
proof fn lemma_split_on_single(s: Seq<char>, sep: char)
    requires
        !s.contains(sep),
    ensures
        split_on(s, sep) == seq![s],
    decreases s.len(),
{
    if s.len() > 0 {
        assert(!s.drop_last().contains(sep)) by {
            if s.drop_last().contains(sep) {
                let k = choose|k: int| 0 <= k < s.drop_last().len() && s.drop_last()[k] == sep;
                assert(s[k] == sep);
            }
        }
        assert(s.last() != sep) by {
            assert(s[s.len() - 1] == s.last());
        }
        lemma_split_on_single(s.drop_last(), sep);
        assert(s.drop_last().push(s.last()) =~= s);
        assert(split_on(s, sep) =~= seq![s]);
    } else {
        assert(s =~= Seq::<char>::empty());
    }
}

/// Splitting at a separator between two texts splits each of them.
proof fn lemma_split_on_concat(a: Seq<char>, b: Seq<char>, sep: char)
    ensures
        split_on(a.push(sep) + b, sep) == split_on(a, sep) + split_on(b, sep),
    decreases b.len(),
{
    let t = a.push(sep) + b;
    if b.len() == 0 {
        assert(t =~= a.push(sep));
        assert(t.drop_last() =~= a);
        assert(split_on(a, sep).push(Seq::empty()) =~= split_on(a, sep) + split_on(b, sep));
    } else {
        lemma_split_on_concat(a, b.drop_last(), sep);
        lemma_split_on_pieces(b.drop_last(), sep);
        assert(t.drop_last() =~= a.push(sep) + b.drop_last());
        assert(t.last() == b.last());
        let pa = split_on(a, sep);
        let pb = split_on(b.drop_last(), sep);
        if b.last() == sep {
            assert((pa + pb).push(Seq::empty()) =~= pa + pb.push(Seq::empty()));
        } else {
            let whole = pa + pb;
            assert(whole.update(whole.len() - 1, whole.last().push(b.last())) =~= pa + pb.update(
                pb.len() - 1,
                pb.last().push(b.last()),
            ));
        }
    }
}

/// The first line of a text, ended by `\n` and holding neither `\n` nor
/// `\r`, is the first of its lines, and the lines of the rest follow.
pub proof fn lemma_lines_first(h: Seq<char>, b: Seq<char>)
    requires
        !h.contains('\n'),
        !h.contains('\r'),
    ensures
        lines_of(h.push('\n') + b) == seq![h] + lines_of(b),
{
    lemma_split_on_single(h, '\n');
    lemma_split_on_concat(h, b, '\n');
    lemma_split_on_pieces(b, '\n');
    let pb = split_on(b, '\n');
    let pieces = split_on(h.push('\n') + b, '\n');
    assert(pieces == seq![h] + pb);
    assert(strip_cr(h) == h) by {
        if h.len() > 0 {
            assert(h[h.len() - 1] == h.last());
        }
    }
    assert(pieces.last() == pb.last());
    assert(pieces.drop_last().map_values(|p: Seq<char>| strip_cr(p)) =~= seq![h] + pb.drop_last(
    ).map_values(|p: Seq<char>| strip_cr(p)));
    if pb.last().len() == 0 {
        assert(lines_of(h.push('\n') + b) =~= seq![h] + lines_of(b));
    } else {
        assert(lines_of(h.push('\n') + b) =~= seq![h] + lines_of(b));
    }
}

/// A last line that a `\n` ends has the same lines as without that `\n`,
/// when it does not end with `\r`.
pub proof fn lemma_lines_final_newline(x: Seq<char>)
    requires
        x.len() > 0,
        x.last() != '\n',
        x.last() != '\r',
    ensures
        lines_of(x.push('\n')) == lines_of(x),
{
    let p0 = split_on(x.drop_last(), '\n');
    lemma_split_on_pieces(x.drop_last(), '\n');
    assert(x.drop_last().push(x.last()) =~= x);
    let pieces = split_on(x, '\n');
    assert(x.push('\n').drop_last() =~= x);
    assert(split_on(x.push('\n'), '\n') == pieces.push(Seq::empty()));
    let last = pieces.last();
    assert(last == p0.last().push(x.last()));
    assert(strip_cr(last) == last);
    assert(lines_of(x.push('\n')) =~= lines_of(x));
}

/// `s` with every `\n` replaced by `\r\n`, as `s.replace("\n", "\r\n")`
/// gives it.
pub open spec fn crlf(s: Seq<char>) -> Seq<char>
    decreases s.len(),
{
    if s.len() == 0 {
        Seq::empty()
    } else if s.last() == '\n' {
        crlf(s.drop_last()) + seq!['\r', '\n']
    } else {
        crlf(s.drop_last()).push(s.last())
    }
}

proof fn lemma_split_on_crlf(s: Seq<char>)
    requires
        !s.contains('\r'),
    ensures
        split_on(crlf(s), '\n').len() == split_on(s, '\n').len(),
        split_on(crlf(s), '\n').last() == split_on(s, '\n').last(),
        forall|i: int|
            0 <= i < split_on(s, '\n').len() - 1 ==> #[trigger] split_on(crlf(s), '\n')[i]
                == split_on(s, '\n')[i].push('\r'),
    decreases s.len(),
{
    if s.len() > 0 {
        let s0 = s.drop_last();
        assert(!s0.contains('\r')) by {
            if s0.contains('\r') {
                let k = choose|k: int| 0 <= k < s0.len() && s0[k] == '\r';
                assert(s[k] == '\r');
            }
        }
        assert(s.last() != '\r') by {
            assert(s[s.len() - 1] == s.last());
        }
        lemma_split_on_crlf(s0);
        lemma_split_on_pieces(s0, '\n');
        lemma_split_on_pieces(crlf(s0), '\n');
        let p0 = split_on(s0, '\n');
        let q0 = split_on(crlf(s0), '\n');
        if s.last() == '\n' {
            let t = crlf(s0).push('\r');
            assert(crlf(s) =~= t.push('\n'));
            assert(t.push('\n').drop_last() =~= t);
            assert(t.drop_last() =~= crlf(s0));
            assert(split_on(t, '\n') == q0.update(q0.len() - 1, q0.last().push('\r')));
            assert(split_on(crlf(s), '\n') == split_on(t, '\n').push(Seq::empty()));
        } else {
            assert(crlf(s).drop_last() =~= crlf(s0));
            assert(crlf(s).last() == s.last());
        }
    }
}

/// Ending the lines of a text without `\r` with `\r\n` in place of `\n`
/// gives the same lines.
pub proof fn lemma_lines_crlf(s: Seq<char>)
    requires
        !s.contains('\r'),
    ensures
        lines_of(crlf(s)) == lines_of(s),
{
    lemma_split_on_crlf(s);
    lemma_split_on_keeps_out(s, '\n', '\r');
    lemma_split_on_pieces(s, '\n');
    let p = split_on(s, '\n');
    let q = split_on(crlf(s), '\n');
    assert forall|i: int| 0 <= i < p.len() - 1 implies strip_cr(#[trigger] q[i]) == strip_cr(
        p[i],
    ) by {
        assert(q[i].drop_last() =~= p[i]);
        if p[i].len() > 0 {
            assert(p[i][p[i].len() - 1] == p[i].last());
        }
    }
    assert(q.drop_last().map_values(|x: Seq<char>| strip_cr(x)) =~= p.drop_last().map_values(
        |x: Seq<char>| strip_cr(x),
    ));
}

/// Splits a text into its lines, each as a `String`.
pub fn split_lines(text: &str) -> (res: Vec<String>)
    ensures
        res@.len() == lines_of(text@).len(),
        forall|i: int| 0 <= i < res@.len() ==> #[trigger] res@[i]@ == lines_of(text@)[i],
{
    let s = chars_of(text);
    let pieces = split_range(&s, 0, s.len(), '\n');
    proof {
        assert(s@.subrange(0, s@.len() as int) =~= text@);
        lemma_split_on_pieces(text@, '\n');
    }
    let ghost sp = split_on(text@, '\n');
    let ghost ended = sp.drop_last().map_values(|p: Seq<char>| strip_cr(p));
    let mut res: Vec<String> = Vec::new();
    let n = pieces.len();
    let mut i: usize = 0;
    while i + 1 < n
        invariant
            n == pieces@.len() == sp.len() >= 1,
            forall|k: int| 0 <= k < n ==> #[trigger] pieces@[k]@ == sp[k],
            ended == sp.drop_last().map_values(|p: Seq<char>| strip_cr(p)),
            i + 1 <= n,
            res@.len() == i,
            forall|k: int| 0 <= k < i ==> #[trigger] res@[k]@ == ended[k],
        decreases n - i,
    {
        let p = &pieces[i];
        let len = p.len();
        let end = if len > 0 && p[len - 1] == '\r' {
            len - 1
        } else {
            len
        };
        let line = string_of_range(p, 0, end);
        proof {
            assert(ended[i as int] == strip_cr(sp[i as int]));
            assert(p@.subrange(0, end as int) =~= strip_cr(p@));
        }
        res.push(line);
        i = i + 1;
    }
    let last = &pieces[n - 1];
    if last.len() > 0 {
        let line = string_of_range(last, 0, last.len());
        proof {
            assert(last@.subrange(0, last@.len() as int) =~= last@);
        }
        res.push(line);
    }
    res
}

// ---------------------------------------------------------------------------
// Decimal numerals
// ---------------------------------------------------------------------------

/// The decimal digit for `d`, which is below 10.
pub open spec fn digit_char(d: nat) -> char {
    if d == 0 {
        '0'
    } else if d == 1 {
        '1'
    } else if d == 2 {
        '2'
    } else if d == 3 {
        '3'
    } else if d == 4 {
        '4'
    } else if d == 5 {
        '5'
    } else if d == 6 {
        '6'
    } else if d == 7 {
        '7'
    } else if d == 8 {
        '8'
    } else {
        '9'
    }
}

/// `n` written in decimal, without leading zeros, as `format!("{}", n)`
/// writes it.
pub open spec fn decimal(n: nat) -> Seq<char>
    decreases n,
{
    if n < 10 {
        seq![digit_char(n)]
    } else {
        decimal(n / 10).push(digit_char(n % 10))
    }
}

/// The decimal digit for `d`.
fn digit(d: u32) -> (res: char)
    requires
        d < 10,
    ensures
        res == digit_char(d as nat),
{
    if d == 0 {
        '0'
    } else if d == 1 {
        '1'
    } else if d == 2 {
        '2'
    } else if d == 3 {
        '3'
    } else if d == 4 {
        '4'
    } else if d == 5 {
        '5'
    } else if d == 6 {
        '6'
    } else if d == 7 {
        '7'
    } else if d == 8 {
        '8'
    } else {
        '9'
    }
}

/// `n` written in decimal.
pub fn decimal_chars(n: u32) -> (res: Vec<char>)
    ensures
        res@ == decimal(n as nat),
    decreases n,
{
    if n < 10 {
        let mut v: Vec<char> = Vec::new();
        v.push(digit(n));
        v
    } else {
        let mut v = decimal_chars(n / 10);
        v.push(digit(n % 10));
        v
    }
}

// ---------------------------------------------------------------------------
// Escaping `<`
// ---------------------------------------------------------------------------

/// What a `<` becomes: the TeX command `\lt` and a space.
pub open spec fn lt_escape() -> Seq<char> {
    seq!['\\', 'l', 't', ' ']
}

/// `s` with every `<` replaced by `\lt `, as `s.replace("<", "\\lt ")` gives it.
pub open spec fn escape_lt(s: Seq<char>) -> Seq<char>
    decreases s.len(),
{
    if s.len() == 0 {
        Seq::empty()
    } else if s.last() == '<' {
        escape_lt(s.drop_last()) + lt_escape()
    } else {
        escape_lt(s.drop_last()).push(s.last())
    }
}

/// Replaces every `<` of `s` by `\lt `.
pub fn escape_lt_chars(s: &Vec<char>) -> (res: Vec<char>)
    ensures
        res@ == escape_lt(s@),
{
    let mut res: Vec<char> = Vec::new();
    let mut i: usize = 0;
    while i < s.len()
        invariant
            i <= s@.len(),
            res@ == escape_lt(s@.take(i as int)),
        decreases s@.len() - i,
    {
        proof {
            assert(s@.take(i + 1).drop_last() =~= s@.take(i as int));
        }
        if s[i] == '<' {
            res.push('\\');
            res.push('l');
            res.push('t');
            res.push(' ');
            proof {
                assert(res@ =~= escape_lt(s@.take(i as int)) + lt_escape());
            }
        } else {
            res.push(s[i]);
        }
        i = i + 1;
    }
    proof {
        assert(s@.take(s@.len() as int) =~= s@);
    }
    res
}

/// Escaping leaves no `<` behind.
pub proof fn lemma_escape_lt_has_no_lt(s: Seq<char>)
    ensures
        !escape_lt(s).contains('<'),
    decreases s.len(),
{
    if s.len() > 0 {
        lemma_escape_lt_has_no_lt(s.drop_last());
        let e = escape_lt(s);
        let prev = escape_lt(s.drop_last());
        if e.contains('<') {
            let k = choose|k: int| 0 <= k < e.len() && e[k] == '<';
            if k < prev.len() {
                assert(prev[k] == '<');
            }
        }
    }
}

/// Escaping a concatenation escapes each part.
pub proof fn lemma_escape_lt_concat(a: Seq<char>, b: Seq<char>)
    ensures
        escape_lt(a + b) == escape_lt(a) + escape_lt(b),
    decreases b.len(),
{
    if b.len() == 0 {
        assert(a + b =~= a);
        assert(escape_lt(a) + escape_lt(b) =~= escape_lt(a));
    } else {
        lemma_escape_lt_concat(a, b.drop_last());
        assert((a + b).drop_last() =~= a + b.drop_last());
        assert((a + b).last() == b.last());
        if b.last() == '<' {
            assert(escape_lt(a) + escape_lt(b) =~= escape_lt(a) + escape_lt(b.drop_last())
                + lt_escape());
        } else {
            assert(escape_lt(a) + escape_lt(b) =~= (escape_lt(a) + escape_lt(b.drop_last())).push(
                b.last(),
            ));
        }
    }
}

/// A text without `<` is left as it is by escaping.
pub proof fn lemma_escape_lt_identity(s: Seq<char>)
    requires
        !s.contains('<'),
    ensures
        escape_lt(s) == s,
    decreases s.len(),
{
    if s.len() > 0 {
        assert(!s.drop_last().contains('<')) by {
            if s.drop_last().contains('<') {
                let k = choose|k: int| 0 <= k < s.drop_last().len() && s.drop_last()[k] == '<';
                assert(s[k] == '<');
            }
        }
        lemma_escape_lt_identity(s.drop_last());
        assert(s.last() != '<') by {
            assert(s[s.len() - 1] == s.last());
        }
        assert(s.drop_last().push(s.last()) =~= s);
    }
}

} // verus!
