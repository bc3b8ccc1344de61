//! The converter: a state machine over the lines of a Markdown document.
//! Each line is handled by the function of the current mode, which appends
//! the HTML for the line and returns the next mode, or `None` when the
//! document is malformed (a table whose rows do not fit its header).
use crate::inline::{
    all_patterns_compile, has_match, parse_text, regex_captures_some, text_html, Patterns, RULE,
};
use crate::text::{
    chars_of, count_char, decimal, decimal_chars, ends_with, escape_lt, escape_lt_chars, is_white,
    join_with, lemma_count_char_concat, lemma_escape_lt_has_no_lt, lemma_lines_first,
    lemma_lines_sizes, lemma_split_join, lemma_split_on_count, lemma_split_on_pieces,
    lemma_split_on_sizes, lemma_trim_first, lines_of, range_ends_with, range_starts_with,
    split_lines, split_on, split_range, starts_with, string_from_chars, string_of_range, trim,
    trim_bounds,
};
use vstd::prelude::*;

verus! {

/// The mode the converter is in between two lines.
#[derive(Debug, Clone, Copy, PartialEq, Eq, Structural)]
pub enum MdMode {
    /// Between blocks.
    Normal,
    /// Inside an unordered list whose items start with the given character.
    Ul(char),
    /// Inside an ordered list; the number is that of the next item.
    Ol(u32),
    /// Inside a fenced code block.
    Code,
    /// Inside a `$$` display formula.
    Math,
    /// Inside a block quote.
    Quote,
    /// Inside a table of the given number of columns; the second number is
    /// the row the next line is (the separator line is row 1).
    Table(u32, u32),
}

impl Default for MdMode {
    fn default() -> (res: MdMode)
        ensures
            res == MdMode::Normal,
    {
        MdMode::Normal
    }
}

/// The page up to its title.
pub const PAGE_HEAD: &'static str = "<html><head>\n<title>";

/// The page between its title and its body: the rest of the head, with
/// MathJax and the style sheet, and the start of the body.
pub const PAGE_MIDDLE: &'static str = "</title>\n\
    <script type=\"text/x-mathjax-config\">\n  MathJax.Hub.Config({tex2jax: {\n      inlineMath: [['$','$']],\n      displayMath: [['$$', '$$']]\n  }});\n\
    \n\
    </script>\n\
    <script type=\"text/javascript\" src=\"https://cdnjs.cloudflare.com/ajax/libs/mathjax/2.7.1/MathJax.js?config=TeX-AMS-MML_HTMLorMML\">\n\
    </script>\n\
    <style>\n\
    * {\n    box-sizing: border-box;\n\
    }\n\
    body {\n    background-color: #222;\n    margin: 0 auto 0;\n    font-family: cmu serif;\n    font-size: 12pt;\n\
    }\n\
    #page {\n    background-color: #FFF;\n    width: 8.3in;\n    height: auto;\n    padding: 0.6in;\n\
    }\n\
    table {\n    border-spacing: 0;\n    border-collapse: separate;\n    border-radius: 4px;\n    border: 2px solid #BBB;\n    font-size: 12pt;\n\
    }\n\
    th {\n    padding: auto;\n\
    }\n\
    td {\n    padding: auto;\n\
    }\n\
    table th:not(:last-child), table td:not(:last-child) {\n    border-right: 2px solid #BBB;\n\
    }\n\
    table>thead>tr:not(:last-child)>th,\n\
    table>thead>tr:not(:last-child)>td,\n\
    table>tbody>tr:not(:last-child)>th,\n\
    table>tbody>tr:not(:last-child)>td,\n\
    table>tfoot>tr:not(:last-child)>th,\n\
    table>tfoot>tr:not(:last-child)>td,\n\
    table>tr:not(:last-child)>td,\n\
    table>tr:not(:last-child)>th,\n\
    table>thead:not(:last-child),\n\
    table>tbody:not(:last-child),\n\
    table>tfoot:not(:last-child) {\n    border-bottom: 2px solid #BBB;\n\
    }\n\
    img {\n    max-width: 100%;\n\
    }\n\
    blockquote {\n    background-color: #F8F8F8;\n    padding: 5px 0px 10px 5px;\n\
    }\n\
    code {\n    background-color: #EEE;\n\
    }\n\
    pre {\n    background-color: #EEE;\n    border-radius: 8px;\n    padding: 10px 0px 15px 15px;\n\
    }\n\
    </style>\n\
    </head>\n\
    <body>\n\
    <div id=\"page\">\n";

/// The page after its body.
pub const PAGE_FOOT: &'static str = "\n</div>\n</body>\n</html>";

// ---------------------------------------------------------------------------
// What each line becomes
// ---------------------------------------------------------------------------

/// `s` after its prefix `p`.
pub open spec fn after(s: Seq<char>, p: Seq<char>) -> Seq<char> {
    s.skip(p.len() as int)
}

/// The views of a sequence of strings.
pub open spec fn views(v: Seq<String>) -> Seq<Seq<char>> {
    v.map_values(|s: String| s@)
}

/// The cells of a table line `|a|b|c|`: what lies between its first and its
/// last `|`, split at each `|`. `None` when the line does not both start and
/// end with `|`.
pub open spec fn cols_of(line: Seq<char>) -> Option<Seq<Seq<char>>> {
    if line.len() >= 2 && line[0] == '|' && line.last() == '|' {
        Some(split_on(line.subrange(1, line.len() - 1), '|'))
    } else {
        None
    }
}

/// The level of the heading that `line` starts, 0 when it starts none.
pub open spec fn heading_level(line: Seq<char>) -> nat {
    if starts_with(line, "# "@) {
        1
    } else if starts_with(line, "## "@) {
        2
    } else if starts_with(line, "### "@) {
        3
    } else if starts_with(line, "#### "@) {
        4
    } else if starts_with(line, "##### "@) {
        5
    } else if starts_with(line, "###### "@) {
        6
    } else {
        0
    }
}

/// The marker that starts a heading of level `k`.
pub open spec fn heading_marker(k: nat) -> Seq<char> {
    if k == 1 {
        "# "@
    } else if k == 2 {
        "## "@
    } else if k == 3 {
        "### "@
    } else if k == 4 {
        "#### "@
    } else if k == 5 {
        "##### "@
    } else {
        "###### "@
    }
}

/// The tag that opens a heading of level `k`.
pub open spec fn heading_open(k: nat) -> Seq<char> {
    if k == 1 {
        "<h1>"@
    } else if k == 2 {
        "<h2>"@
    } else if k == 3 {
        "<h3>"@
    } else if k == 4 {
        "<h4>"@
    } else if k == 5 {
        "<h5>"@
    } else {
        "<h6>"@
    }
}

/// The tag that closes a heading of level `k`, and the end of its line.
pub open spec fn heading_close(k: nat) -> Seq<char> {
    if k == 1 {
        "</h1>\n"@
    } else if k == 2 {
        "</h2>\n"@
    } else if k == 3 {
        "</h3>\n"@
    } else if k == 4 {
        "</h4>\n"@
    } else if k == 5 {
        "</h5>\n"@
    } else {
        "</h6>\n"@
    }
}

/// The header cells of a table, one line each, their text as it is.
pub open spec fn header_cells(cols: Seq<Seq<char>>) -> Seq<char>
    decreases cols.len(),
{
    if cols.len() == 0 {
        Seq::empty()
    } else {
        header_cells(cols.drop_last()) + ("<th>"@ + cols.last() + "</th>\n"@)
    }
}

/// The data cells of a table row, one line each, their text in HTML and
/// in a paragraph.
pub open spec fn data_cells(cols: Seq<Seq<char>>) -> Seq<char>
    decreases cols.len(),
{
    if cols.len() == 0 {
        Seq::empty()
    } else {
        data_cells(cols.drop_last()) + ("<td>"@ + text_html(cols.last(), true) + "</td>\n"@)
    }
}

/// A cell of the separator line under a table's header: three or more `-`,
/// whitespace around them aside.
pub open spec fn is_rule_cell(c: Seq<char>) -> bool {
    trim(c).len() >= 3 && forall|i: int| 0 <= i < trim(c).len() ==> trim(c)[i] == '-'
}

/// The marker of the item numbered `n` of an ordered list.
pub open spec fn ol_marker(n: u32) -> Seq<char> {
    decimal(n as nat) + seq!['.', ' ']
}

/// Whether `line`, between blocks, opens a block of its own before the
/// table test is reached: a formula, a heading, a list, a quote or code.
pub open spec fn opens_block(line: Seq<char>) -> bool {
    ||| starts_with(trim(line), "$$"@)
    ||| heading_level(line) > 0
    ||| starts_with(line, "- "@)
    ||| starts_with(line, "* "@)
    ||| starts_with(line, "1. "@)
    ||| starts_with(line, "> "@)
    ||| starts_with(line, "```"@)
}

/// What a line between blocks becomes, and the next mode.
pub open spec fn none_step(line: Seq<char>) -> (Seq<char>, Option<MdMode>) {
    if starts_with(trim(line), "$$"@) {
        (escape_lt(line) + "\n"@, Some(MdMode::Math))
    } else if heading_level(line) > 0 {
        let k = heading_level(line);
        (
            heading_open(k) + text_html(after(line, heading_marker(k)), false) + heading_close(k),
            Some(MdMode::Normal),
        )
    } else if starts_with(line, "- "@) {
        (
            "<ul>\n<li>"@ + text_html(after(line, "- "@), false) + "</li>\n"@,
            Some(MdMode::Ul('-')),
        )
    } else if starts_with(line, "* "@) {
        (
            "<ul>\n<li>"@ + text_html(after(line, "* "@), false) + "</li>\n"@,
            Some(MdMode::Ul('*')),
        )
    } else if starts_with(line, "1. "@) {
        (
            "<ol>\n<li>"@ + text_html(after(line, "1. "@), false) + "</li>\n"@,
            Some(MdMode::Ol(2)),
        )
    } else if starts_with(line, "> "@) {
        (
            "<blockquote>"@ + text_html(after(line, "> "@), false) + "\n"@,
            Some(MdMode::Quote),
        )
    } else if starts_with(line, "```"@) {
        ("<code><pre>"@ + after(line, "```"@) + "\n"@, Some(MdMode::Code))
    } else if cols_of(line) is Some {
        let cols = cols_of(line).unwrap();
        (
            "<table>\n<tr>\n"@ + header_cells(cols) + "</tr>\n"@,
            Some(MdMode::Table(cols.len() as u32, 1)),
        )
    } else if regex_captures_some(RULE@, line) {
        ("<hr />\n"@, Some(MdMode::Normal))
    } else {
        (text_html(line, true) + "\n"@, Some(MdMode::Normal))
    }
}

/// What a line inside an unordered list of marker `c` becomes, and the
/// next mode: another item, or the end of the list and the line between
/// blocks.
pub open spec fn ul_step(line: Seq<char>, c: char) -> (Seq<char>, Option<MdMode>) {
    if starts_with(line, seq![c, ' ']) {
        ("<li>"@ + text_html(line.skip(2), false) + "</li>\n"@, Some(MdMode::Ul(c)))
    } else {
        ("</ul>\n"@ + none_step(line).0, none_step(line).1)
    }
}

/// What a line inside an ordered list whose next item is numbered `n`
/// becomes, and the next mode.
pub open spec fn ol_step(line: Seq<char>, n: u32) -> (Seq<char>, Option<MdMode>) {
    if starts_with(line, ol_marker(n)) {
        (
            "<li>"@ + text_html(after(line, ol_marker(n)), false) + "</li>\n"@,
            Some(MdMode::Ol((n + 1) as u32)),
        )
    } else {
        ("</ol>\n"@ + none_step(line).0, none_step(line).1)
    }
}

/// What a line inside a code block becomes, and the next mode: the fence
/// closes the block, any other line is kept as it is.
pub open spec fn code_step(line: Seq<char>) -> (Seq<char>, Option<MdMode>) {
    if trim(line) == "```"@ {
        ("</pre></code>\n"@, Some(MdMode::Normal))
    } else {
        (line + "\n"@, Some(MdMode::Code))
    }
}

/// What a line inside a formula becomes, and the next mode: a line that
/// ends with `$$` closes the formula.
pub open spec fn math_step(line: Seq<char>) -> (Seq<char>, Option<MdMode>) {
    (
        escape_lt(line) + "\n"@,
        if ends_with(trim(line), "$$"@) {
            Some(MdMode::Normal)
        } else {
            Some(MdMode::Math)
        },
    )
}

/// What a line inside a quote becomes, and the next mode.
pub open spec fn quote_step(line: Seq<char>) -> (Seq<char>, Option<MdMode>) {
    if starts_with(line, "> "@) {
        (text_html(after(line, "> "@), true) + "\n"@, Some(MdMode::Quote))
    } else if line == ">"@ {
        ("\n"@, Some(MdMode::Quote))
    } else {
        ("</blockquote>\n"@ + none_step(line).0, none_step(line).1)
    }
}

/// What a line inside a table of `n` columns, at row `r`, becomes, and the
/// next mode. Row 1 must be the separator line, with `n` cells; every later
/// row must have `n` cells; the next mode is `None` when either fails.
pub open spec fn table_step(line: Seq<char>, n: u32, r: u32) -> (Seq<char>, Option<MdMode>) {
    match cols_of(line) {
        Some(cols) => if r == 1 {
            if cols.len() == n && forall|i: int| 0 <= i < cols.len() ==> is_rule_cell(cols[i]) {
                (Seq::empty(), Some(MdMode::Table(n, 2)))
            } else {
                (Seq::empty(), None)
            }
        } else {
            let row = "<tr>\n"@ + data_cells(cols);
            if cols.len() == n {
                (row + "</tr>\n"@, Some(MdMode::Table(n, (r + 1) as u32)))
            } else {
                (row, None)
            }
        },
        None => ("</table>\n"@ + none_step(line).0, none_step(line).1),
    }
}

/// What `line` becomes in mode `mode`, and the next mode (`None` when the
/// document is malformed).
pub open spec fn step(mode: MdMode, line: Seq<char>) -> (Seq<char>, Option<MdMode>) {
    match mode {
        MdMode::Normal => none_step(line),
        MdMode::Ul(c) => ul_step(line, c),
        MdMode::Ol(n) => ol_step(line, n),
        MdMode::Code => code_step(line),
        MdMode::Math => math_step(line),
        MdMode::Quote => quote_step(line),
        MdMode::Table(n, r) => table_step(line, n, r),
    }
}

/// The cells of a separator line are counted one by one until one of them
/// is no rule cell: the count overflows only when the first `u32::MAX + 1`
/// cells are all rule cells.
pub open spec fn separator_fits(cols: Seq<Seq<char>>) -> bool {
    cols.len() <= u32::MAX || exists|i: int|
        0 <= i <= u32::MAX && i < cols.len() && !is_rule_cell(#[trigger] cols[i])
}

/// Between blocks, a table line has at most `u32::MAX` cells: the count of
/// the cells is a `u32`.
pub open spec fn none_fits(line: Seq<char>) -> bool {
    (!opens_block(line) && cols_of(line) is Some) ==> cols_of(line).unwrap().len() <= u32::MAX
}

/// The counters of mode `mode` do not overflow on `line`: the number of the
/// next list item, the count of a table's cells and its row number are all
/// `u32`.
pub open spec fn step_fits(mode: MdMode, line: Seq<char>) -> bool {
    match mode {
        MdMode::Normal => none_fits(line),
        MdMode::Ul(c) => starts_with(line, seq![c, ' ']) || none_fits(line),
        MdMode::Ol(n) => if starts_with(line, ol_marker(n)) {
            n < u32::MAX
        } else {
            none_fits(line)
        },
        MdMode::Code => true,
        MdMode::Math => true,
        MdMode::Quote => starts_with(line, "> "@) || line == ">"@ || none_fits(line),
        MdMode::Table(n, r) => match cols_of(line) {
            Some(cols) => if r == 1 {
                separator_fits(cols)
            } else {
                cols.len() <= u32::MAX && (cols.len() == n ==> r < u32::MAX)
            },
            None => none_fits(line),
        },
    }
}

/// No counter overflows while the lines are converted from mode `mode` on.
pub open spec fn trace_fits(mode: MdMode, lines: Seq<Seq<char>>) -> bool
    decreases lines.len(),
{
    lines.len() == 0 || (step_fits(mode, lines[0]) && match step(mode, lines[0]).1 {
        Some(next) => trace_fits(next, lines.drop_first()),
        None => true,
    })
}

/// `out` in front of the text `rest`, if there is one.
pub open spec fn prepend(out: Seq<char>, rest: Option<Seq<char>>) -> Option<Seq<char>> {
    match rest {
        Some(r) => Some(out + r),
        None => None,
    }
}

/// Converts the lines from mode `mode` on: what the lines become, in
/// order, and the mode after the last of them; `None` when a line leaves no
/// next mode.
pub open spec fn run(mode: MdMode, lines: Seq<Seq<char>>) -> Option<(Seq<char>, MdMode)>
    decreases lines.len(),
{
    if lines.len() == 0 {
        Some((Seq::empty(), mode))
    } else {
        match step(mode, lines[0]).1 {
            Some(next) => match run(next, lines.drop_first()) {
                Some((out, last)) => Some((step(mode, lines[0]).0 + out, last)),
                None => None,
            },
            None => None,
        }
    }
}

/// The HTML of the lines, converted from mode `mode` on.
pub open spec fn render(mode: MdMode, lines: Seq<Seq<char>>) -> Option<Seq<char>> {
    match run(mode, lines) {
        Some((out, _)) => Some(out),
        None => None,
    }
}

/// Converting one part of a document after another: the second part is
/// converted from the mode the first part ends in, and the HTML of the
/// whole is the HTML of the first part followed by that of the second.
pub proof fn lemma_run_concat(mode: MdMode, a: Seq<Seq<char>>, b: Seq<Seq<char>>)
    ensures
        run(mode, a + b) == match run(mode, a) {
            Some((out_a, mid)) => match run(mid, b) {
                Some((out_b, last)) => Some((out_a + out_b, last)),
                None => None,
            },
            None => None,
        },
    decreases a.len(),
{
    if a.len() == 0 {
        assert(a + b =~= b);
        match run(mode, b) {
            Some((out_b, last)) => {
                assert(Seq::<char>::empty() + out_b =~= out_b);
            },
            None => {},
        }
    } else {
        assert((a + b)[0] == a[0]);
        assert((a + b).drop_first() =~= a.drop_first() + b);
        let out = step(mode, a[0]).0;
        match step(mode, a[0]).1 {
            Some(next) => {
                lemma_run_concat(next, a.drop_first(), b);
                match run(next, a.drop_first()) {
                    Some((out_a, mid)) => match run(mid, b) {
                        Some((out_b, last)) => {
                            assert(out + (out_a + out_b) =~= (out + out_a) + out_b);
                        },
                        None => {},
                    },
                    None => {},
                }
            },
            None => {},
        }
    }
}

/// The counter a mode carries: the number of the next item of an ordered
/// list, the row of a table; 2 for the other modes (the first number an
/// ordered list continues with). Never below 1.
pub open spec fn counter(mode: MdMode) -> int {
    match mode {
        MdMode::Ol(n) => if n >= 1 {
            n as int
        } else {
            1
        },
        MdMode::Table(_, r) => if r >= 1 {
            r as int
        } else {
            1
        },
        _ => 2,
    }
}

/// A table line of `len` characters has fewer than `len` cells.
proof fn lemma_cols_count(line: Seq<char>)
    requires
        cols_of(line) is Some,
    ensures
        cols_of(line).unwrap().len() < line.len(),
{
    lemma_split_on_sizes(line.subrange(1, line.len() - 1), '|');
}

/// One line moves a counter up by one at most.
proof fn lemma_step_counter(mode: MdMode, line: Seq<char>)
    ensures
        step(mode, line).1 matches Some(next) ==> counter(next) <= counter(mode) + 1,
{
}

/// The counters of the converter stay below `u32::MAX` while the lines are
/// converted, when the counter of the starting mode plus the number of
/// lines stays below it and no line has `u32::MAX` characters.
proof fn lemma_trace_fits_bound(mode: MdMode, lines: Seq<Seq<char>>)
    requires
        counter(mode) + lines.len() < u32::MAX,
        forall|i: int| 0 <= i < lines.len() ==> (#[trigger] lines[i]).len() < u32::MAX,
    ensures
        trace_fits(mode, lines),
    decreases lines.len(),
{
    if lines.len() > 0 {
        let line = lines[0];
        if cols_of(line) is Some {
            lemma_cols_count(line);
        }
        lemma_step_counter(mode, line);
        assert(step_fits(mode, line));
        match step(mode, line).1 {
            Some(next) => {
                assert forall|i: int| 0 <= i < lines.drop_first().len() implies (
                #[trigger] lines.drop_first()[i]).len() < u32::MAX by {
                    assert(lines.drop_first()[i] == lines[i + 1]);
                }
                lemma_trace_fits_bound(next, lines.drop_first());
            },
            None => {},
        }
    }
}

/// A document of at most `u32::MAX - 3` characters converts without any
/// counter overflowing: there are fewer list items and table rows than
/// lines, and fewer cells in a line than characters.
pub proof fn lemma_short_documents_fit(file: Seq<char>)
    requires
        file.len() <= u32::MAX - 3,
    ensures
        trace_fits(MdMode::Normal, lines_of(file)),
{
    lemma_lines_sizes(file);
    lemma_trace_fits_bound(MdMode::Normal, lines_of(file));
}

/// A row of a table that is accepted keeps the number of columns and moves
/// on to the next row.
pub proof fn lemma_table_row_advances(line: Seq<char>, n: u32, r: u32)
    requires
        cols_of(line) is Some,
    ensures
        table_step(line, n, r).1 matches Some(next) ==> next == MdMode::Table(n, (r + 1) as u32),
{
}

/// A line that does not continue a list or a quote ends it: the closing tag
/// comes first, then what the line becomes between blocks.
pub proof fn lemma_blocks_end(line: Seq<char>, c: char, n: u32)
    ensures
        !starts_with(line, seq![c, ' ']) ==> ul_step(line, c) == (
            "</ul>\n"@ + none_step(line).0,
            none_step(line).1,
        ),
        !starts_with(line, ol_marker(n)) ==> ol_step(line, n) == (
            "</ol>\n"@ + none_step(line).0,
            none_step(line).1,
        ),
        (!starts_with(line, "> "@) && line != ">"@) ==> quote_step(line) == (
            "</blockquote>\n"@ + none_step(line).0,
            none_step(line).1,
        ),
{
}

/// The file name enters the page only as its title: past the title, pages
/// with the same body are the same whatever their titles.
pub proof fn lemma_title_only(title1: Seq<char>, title2: Seq<char>, body: Seq<char>)
    ensures
        page_html(title1, body).take((PAGE_HEAD@.len() + title1.len()) as int) == PAGE_HEAD@ + title1,
        page_html(title1, body).skip((PAGE_HEAD@.len() + title1.len()) as int) == page_html(
            title2,
            body,
        ).skip((PAGE_HEAD@.len() + title2.len()) as int),
{
    let rest = PAGE_MIDDLE@ + body + PAGE_FOOT@;
    assert(page_html(title1, body) =~= (PAGE_HEAD@ + title1) + rest);
    assert(page_html(title2, body) =~= (PAGE_HEAD@ + title2) + rest);
    assert(((PAGE_HEAD@ + title1) + rest).take((PAGE_HEAD@.len() + title1.len()) as int) =~= PAGE_HEAD@
        + title1);
    assert(((PAGE_HEAD@ + title1) + rest).skip((PAGE_HEAD@.len() + title1.len()) as int) =~= rest);
    assert(((PAGE_HEAD@ + title2) + rest).skip((PAGE_HEAD@.len() + title2.len()) as int) =~= rest);
}

/// A document whose first line, between blocks, leaves the converter
/// between blocks converts to what that line becomes followed by what the
/// rest of the document converts to.
pub proof fn lemma_first_line(h: Seq<char>, b: Seq<char>)
    requires
        !h.contains('\n'),
        !h.contains('\r'),
        none_step(h).1 == Some(MdMode::Normal),
    ensures
        render(MdMode::Normal, lines_of(h.push('\n') + b)) == prepend(
            none_step(h).0,
            render(MdMode::Normal, lines_of(b)),
        ),
        trace_fits(MdMode::Normal, lines_of(h.push('\n') + b)) == (none_fits(h) && trace_fits(
            MdMode::Normal,
            lines_of(b),
        )),
{
    lemma_lines_first(h, b);
    let ls = lines_of(h.push('\n') + b);
    assert(ls[0] == h);
    assert(ls.drop_first() =~= lines_of(b));
}

/// `k` dashes.
pub open spec fn dashes(k: nat) -> Seq<char> {
    Seq::new(k, |i: int| '-')
}

/// A separator line under a header of `n` cells, each of which is three or
/// more dashes (as many as one likes, whitespace around them aside), is
/// accepted: nothing is written and the table goes on to its first row.
pub proof fn lemma_separator_of_dashes(line: Seq<char>, n: u32)
    requires
        cols_of(line) is Some,
        cols_of(line).unwrap().len() == n,
        forall|i: int|
            0 <= i < n ==> exists|k: nat| k >= 3 && #[trigger] trim(cols_of(line).unwrap()[i]) == dashes(k),
    ensures
        table_step(line, n, 1) == (Seq::<char>::empty(), Some(MdMode::Table(n, 2))),
{
    let cols = cols_of(line).unwrap();
    assert forall|i: int| 0 <= i < cols.len() implies is_rule_cell(cols[i]) by {
        let k = choose|k: nat| k >= 3 && #[trigger] trim(cols[i]) == dashes(k);
        assert(trim(cols[i]) == dashes(k));
    }
}

/// A separator line with a cell that is not three or more dashes
/// (whitespace around them aside) is refused.
pub proof fn lemma_separator_refuses(line: Seq<char>, n: u32, i: int)
    requires
        cols_of(line) is Some,
        0 <= i < cols_of(line).unwrap().len(),
        forall|k: nat| k >= 3 ==> trim(cols_of(line).unwrap()[i]) != #[trigger] dashes(k),
    ensures
        table_step(line, n, 1) == (Seq::<char>::empty(), None::<MdMode>),
{
    let cols = cols_of(line).unwrap();
    let t = trim(cols[i]);
    if is_rule_cell(cols[i]) {
        assert(t =~= dashes(t.len()));
    }
}

/// Inside a code block, every line but the closing fence is kept exactly as
/// it is, whitespace included, and ended with a line break.
pub proof fn lemma_code_line_verbatim(line: Seq<char>)
    requires
        trim(line) != "```"@,
    ensures
        code_step(line) == (line.push('\n'), Some(MdMode::Code)),
{
    reveal_strlit("\n");
    assert(line + "\n"@ =~= line.push('\n'));
}

/// An item `c t` inside an unordered list appends `<li>`, then `t`
/// converted as inline text like any other line, then `</li>`.
pub proof fn lemma_ul_item_text(c: char, t: Seq<char>)
    ensures
        ul_step(seq![c, ' '] + t, c) == (
            "<li>"@ + text_html(t, false) + "</li>\n"@,
            Some(MdMode::Ul(c)),
        ),
{
    let line = seq![c, ' '] + t;
    assert(line.take(2) =~= seq![c, ' ']);
    assert(line.skip(2) =~= t);
}

/// A later item of an unordered list appends what the first item of the
/// list appends between blocks, less the `<ul>` that opens the list, and
/// stays in the same list.
pub proof fn lemma_ul_item_like_first(c: char, t: Seq<char>)
    requires
        c == '-' || c == '*',
    ensures
        none_step(seq![c, ' '] + t) == (
            "<ul>\n"@ + ul_step(seq![c, ' '] + t, c).0,
            ul_step(seq![c, ' '] + t, c).1,
        ),
{
    let line = seq![c, ' '] + t;
    lemma_ul_item_text(c, t);
    reveal_strlit("- ");
    reveal_strlit("* ");
    assert(line[0] == c);
    assert(!is_white(c));
    lemma_opening_char(line);
    assert("- "@ =~= seq!['-', ' ']);
    assert("* "@ =~= seq!['*', ' ']);
    reveal_strlit("<ul>\n<li>");
    reveal_strlit("<ul>\n");
    reveal_strlit("<li>");
    assert(line.take(2) =~= seq![c, ' ']);
    if c == '-' {
        assert(starts_with(line, "- "@));
    } else {
        assert(!starts_with(line, "- "@)) by {
            assert(line.take(2)[0] != "- "@[0]);
        }
        assert(starts_with(line, "* "@));
    }
    assert(after(line, "- "@) =~= t);
    assert(after(line, "* "@) =~= t);
    assert("<ul>\n<li>"@ =~= "<ul>\n"@ + "<li>"@);
    assert("<ul>\n<li>"@ + text_html(t, false) + "</li>\n"@ =~= "<ul>\n"@ + ("<li>"@ + text_html(
        t,
        false,
    ) + "</li>\n"@));
}

/// An item of an ordered list appends `<li>`, then the text after its
/// number converted as inline text like any other line, then `</li>`,
/// whatever its number, and the list goes on to the next number.
pub proof fn lemma_ol_item_text(n: u32, t: Seq<char>)
    ensures
        ol_step(ol_marker(n) + t, n) == (
            "<li>"@ + text_html(t, false) + "</li>\n"@,
            Some(MdMode::Ol((n + 1) as u32)),
        ),
{
    let line = ol_marker(n) + t;
    assert(line.take(ol_marker(n).len() as int) =~= ol_marker(n));
    assert(after(line, ol_marker(n)) =~= t);
}

/// The first item of an ordered list, between blocks, appends `<ol>` and
/// then what the item numbered 1 appends inside a list; the list goes on
/// at number 2.
pub proof fn lemma_ol_first_item(t: Seq<char>)
    ensures
        none_step("1. "@ + t) == (
            "<ol>\n"@ + ol_step("1. "@ + t, 1).0,
            ol_step("1. "@ + t, 1).1,
        ),
{
    reveal_strlit("1. ");
    reveal_strlit("- ");
    reveal_strlit("* ");
    reveal_strlit("<ol>\n<li>");
    reveal_strlit("<ol>\n");
    reveal_strlit("<li>");
    let line = "1. "@ + t;
    assert(decimal(1) == seq!['1']);
    assert(ol_marker(1) =~= "1. "@);
    lemma_ol_item_text(1, t);
    lemma_opening_char(line);
    assert(line[0] == '1');
    assert(line.take(3) =~= "1. "@);
    assert(starts_with(line, "1. "@));
    assert(!starts_with(line, "- "@)) by {
        assert(line.take(2)[0] != "- "@[0]);
    }
    assert(!starts_with(line, "* "@)) by {
        assert(line.take(2)[0] != "* "@[0]);
    }
    assert(after(line, "1. "@) =~= t);
    assert("<ol>\n<li>"@ =~= "<ol>\n"@ + "<li>"@);
    assert("<ol>\n<li>"@ + text_html(t, false) + "</li>\n"@ =~= "<ol>\n"@ + ("<li>"@ + text_html(
        t,
        false,
    ) + "</li>\n"@));
}

/// A line whose first character is neither whitespace, `$` nor `#` starts
/// no formula and no heading.
proof fn lemma_opening_char(line: Seq<char>)
    requires
        line.len() > 0,
        line[0] != '$',
        line[0] != '#',
        !is_white(line[0]),
    ensures
        !starts_with(trim(line), "$$"@),
        heading_level(line) == 0,
{
    reveal_strlit("$$");
    reveal_strlit("# ");
    reveal_strlit("## ");
    reveal_strlit("### ");
    reveal_strlit("#### ");
    reveal_strlit("##### ");
    reveal_strlit("###### ");
    lemma_trim_first(line);
    if starts_with(trim(line), "$$"@) {
        assert(trim(line).take(2)[0] == trim(line)[0]);
    }
    assert(!starts_with(line, "# "@)) by {
        if starts_with(line, "# "@) {
            assert(line.take(2)[0] == line[0]);
        }
    }
    assert(!starts_with(line, "## "@)) by {
        if starts_with(line, "## "@) {
            assert(line.take(3)[0] == line[0]);
        }
    }
    assert(!starts_with(line, "### "@)) by {
        if starts_with(line, "### "@) {
            assert(line.take(4)[0] == line[0]);
        }
    }
    assert(!starts_with(line, "#### "@)) by {
        if starts_with(line, "#### "@) {
            assert(line.take(5)[0] == line[0]);
        }
    }
    assert(!starts_with(line, "##### "@)) by {
        if starts_with(line, "##### "@) {
            assert(line.take(6)[0] == line[0]);
        }
    }
    assert(!starts_with(line, "###### "@)) by {
        if starts_with(line, "###### "@) {
            assert(line.take(7)[0] == line[0]);
        }
    }
}

/// A line `> t` inside a quote appends `t` converted as a paragraph, as
/// any line of text is.
pub proof fn lemma_quote_line_text(t: Seq<char>)
    ensures
        quote_step("> "@ + t) == (text_html(t, true) + "\n"@, Some(MdMode::Quote)),
{
    reveal_strlit("> ");
    let line = "> "@ + t;
    assert(line.take(2) =~= "> "@);
    assert(after(line, "> "@) =~= t);
}

/// A line `> t` inside a quote appends exactly what `t` appends between
/// blocks when `t` is a plain paragraph there.
pub proof fn lemma_quote_line_like_paragraph(t: Seq<char>)
    requires
        !opens_block(t),
        cols_of(t) is None,
        !regex_captures_some(RULE@, t),
    ensures
        quote_step("> "@ + t) == (none_step(t).0, Some(MdMode::Quote)),
{
    lemma_quote_line_text(t);
}

/// Inside a formula every line is written out with no `<` left in it, and
/// a line break after it.
pub proof fn lemma_math_line_has_no_lt(line: Seq<char>)
    ensures
        !math_step(line).0.contains('<'),
        math_step(line).0.len() > 0,
        math_step(line).0.last() == '\n',
{
    reveal_strlit("\n");
    lemma_escape_lt_has_no_lt(line);
    let e = escape_lt(line);
    let out = e + "\n"@;
    if out.contains('<') {
        let k = choose|k: int| 0 <= k < out.len() && out[k] == '<';
        if k < e.len() {
            assert(e[k] == '<');
        }
    }
}

/// Inside a code block, the closing fence (whitespace around it aside)
/// ends the block and closes the `<pre>` and `<code>` tags.
pub proof fn lemma_code_fence_closes(line: Seq<char>)
    requires
        trim(line) == "```"@,
    ensures
        code_step(line) == ("</pre></code>\n"@, Some(MdMode::Normal)),
{
}

/// A line of text between blocks that opens no block, is no table line and
/// holds no rule becomes a paragraph of its text converted as inline text.
pub proof fn lemma_paragraph(t: Seq<char>)
    requires
        !opens_block(t),
        cols_of(t) is None,
        !regex_captures_some(RULE@, t),
    ensures
        none_step(t) == (text_html(t, true) + "\n"@, Some(MdMode::Normal)),
{
}

/// `## t` between blocks is a heading of level 2 of the text `t` converted
/// as inline text, and likewise for the other five levels.
pub proof fn lemma_heading(k: nat, t: Seq<char>)
    requires
        1 <= k <= 6,
    ensures
        none_step(heading_marker(k) + t) == (
            heading_open(k) + text_html(t, false) + heading_close(k),
            Some(MdMode::Normal),
        ),
{
    reveal_strlit("$$");
    reveal_strlit("# ");
    reveal_strlit("## ");
    reveal_strlit("### ");
    reveal_strlit("#### ");
    reveal_strlit("##### ");
    reveal_strlit("###### ");
    let m = heading_marker(k);
    let line = m + t;
    assert(line[0] == '#');
    lemma_trim_first(line);
    assert(!starts_with(trim(line), "$$"@)) by {
        if starts_with(trim(line), "$$"@) {
            assert(trim(line).take(2)[0] == trim(line)[0]);
        }
    }
    assert(line.take(m.len() as int) =~= m);
    assert(after(line, m) =~= t);
    if k == 1 {
        assert(starts_with(line, "# "@));
    } else {
        assert(!starts_with(line, "# "@)) by {
            assert(line.take(2)[1] != "# "@[1]);
        }
        if k == 2 {
            assert(starts_with(line, "## "@));
        } else {
            assert(!starts_with(line, "## "@)) by {
                assert(line.take(3)[2] != "## "@[2]);
            }
            if k == 3 {
                assert(starts_with(line, "### "@));
            } else {
                assert(!starts_with(line, "### "@)) by {
                    assert(line.take(4)[3] != "### "@[3]);
                }
                if k == 4 {
                    assert(starts_with(line, "#### "@));
                } else {
                    assert(!starts_with(line, "#### "@)) by {
                        assert(line.take(5)[4] != "#### "@[4]);
                    }
                    if k == 5 {
                        assert(starts_with(line, "##### "@));
                    } else {
                        assert(!starts_with(line, "##### "@)) by {
                            assert(line.take(6)[5] != "##### "@[5]);
                        }
                        assert(starts_with(line, "###### "@));
                    }
                }
            }
        }
    }
}

/// A table line has one cell fewer than it has `|`, no cell holds a `|`,
/// and the cells joined by `|` between a leading and a trailing `|` give
/// the line back.
pub proof fn lemma_cols_of_bars(line: Seq<char>)
    requires
        cols_of(line) is Some,
    ensures
        cols_of(line).unwrap().len() == count_char(line, '|') - 1,
        forall|i: int|
            0 <= i < cols_of(line).unwrap().len() ==> !(#[trigger] cols_of(line).unwrap()[i]).contains(
                '|',
            ),
        seq!['|'] + join_with(cols_of(line).unwrap(), '|') + seq!['|'] == line,
{
    let mid = line.subrange(1, line.len() - 1);
    lemma_split_on_count(mid, '|');
    lemma_split_on_pieces(mid, '|');
    lemma_cols_join(line);
    lemma_count_char_concat(seq!['|'] + mid, seq!['|'], '|');
    lemma_count_char_concat(seq!['|'], mid, '|');
    assert(seq!['|'] + mid + seq!['|'] =~= line);
    assert(count_char(seq!['|'], '|') == 1) by {
        assert(seq!['|'].drop_last() =~= Seq::<char>::empty());
        assert(count_char(Seq::<char>::empty(), '|') == 0);
        assert(seq!['|'].last() == '|');
    }
}

/// A table line is its cells joined by `|`, between a leading and a
/// trailing `|`.
pub proof fn lemma_cols_join(line: Seq<char>)
    requires
        cols_of(line) is Some,
    ensures
        seq!['|'] + join_with(cols_of(line).unwrap(), '|') + seq!['|'] == line,
{
    let mid = line.subrange(1, line.len() - 1);
    lemma_split_join(mid, '|');
    assert(seq!['|'] + mid + seq!['|'] =~= line);
}

/// The HTML page of the given title around the given body.
pub open spec fn page_html(title: Seq<char>, body: Seq<char>) -> Seq<char> {
    PAGE_HEAD@ + title + PAGE_MIDDLE@ + body + PAGE_FOOT@
}

// ---------------------------------------------------------------------------
// Small helpers on the characters of a line
// ---------------------------------------------------------------------------

/// Whether `s` starts with `p`.
fn starts(s: &Vec<char>, p: &str) -> (res: bool)
    ensures
        res == starts_with(s@, p@),
{
    let pc = chars_of(p);
    proof {
        assert(s@.subrange(0, s@.len() as int) =~= s@);
    }
    range_starts_with(s, 0, s.len(), &pc)
}

/// Whether `s[from..to]` is `p`.
fn range_is(s: &Vec<char>, from: usize, to: usize, p: &str) -> (res: bool)
    requires
        from <= to <= s@.len(),
    ensures
        res == (s@.subrange(from as int, to as int) == p@),
{
    let pc = chars_of(p);
    if to - from != pc.len() {
        proof {
            assert(s@.subrange(from as int, to as int).len() != p@.len());
        }
        return false;
    }
    let r = range_starts_with(s, from, to, &pc);
    proof {
        let sub = s@.subrange(from as int, to as int);
        assert(sub.take(p@.len() as int) =~= sub);
    }
    r
}

/// What follows the prefix `p` in `s`.
fn rest_after(s: &Vec<char>, p: &str) -> (res: String)
    requires
        starts_with(s@, p@),
    ensures
        res@ == after(s@, p@),
{
    let n = chars_of(p).len();
    proof {
        assert(s@.subrange(n as int, s@.len() as int) =~= s@.skip(n as int));
    }
    string_of_range(s, n, s.len())
}

/// The marker of a heading of level `k`, and its opening and closing tags.
fn heading_tags(k: usize) -> (res: (&'static str, &'static str, &'static str))
    requires
        1 <= k <= 6,
    ensures
        res.0@ == heading_marker(k as nat),
        res.1@ == heading_open(k as nat),
        res.2@ == heading_close(k as nat),
{
    if k == 1 {
        ("# ", "<h1>", "</h1>\n")
    } else if k == 2 {
        ("## ", "<h2>", "</h2>\n")
    } else if k == 3 {
        ("### ", "<h3>", "</h3>\n")
    } else if k == 4 {
        ("#### ", "<h4>", "</h4>\n")
    } else if k == 5 {
        ("##### ", "<h5>", "</h5>\n")
    } else {
        ("###### ", "<h6>", "</h6>\n")
    }
}

/// The cells of a table line `|a|b|c|`, or `None` when the line does not
/// both start and end with `|`.
pub fn split_cols(line: &str) -> (res: Option<Vec<String>>)
    ensures
        res is Some <==> cols_of(line@) is Some,
        res matches Some(v) ==> views(v@) == cols_of(line@).unwrap(),
{
    let chars = chars_of(line);
    let n = chars.len();
    if n >= 2 && chars[0] == '|' && chars[n - 1] == '|' {
        let pieces = split_range(&chars, 1, n - 1, '|');
        let ghost cols = split_on(line@.subrange(1, n - 1), '|');
        let mut res: Vec<String> = Vec::new();
        let mut i: usize = 0;
        while i < pieces.len()
            invariant
                i <= pieces@.len() == cols.len(),
                forall|k: int| 0 <= k < pieces@.len() ==> #[trigger] pieces@[k]@ == cols[k],
                res@.len() == i,
                forall|k: int| 0 <= k < i ==> #[trigger] res@[k]@ == cols[k],
            decreases pieces@.len() - i,
        {
            let p = &pieces[i];
            let s = string_of_range(p, 0, p.len());
            proof {
                assert(p@.subrange(0, p@.len() as int) =~= p@);
            }
            res.push(s);
            i = i + 1;
        }
        proof {
            assert(views(res@) =~= cols);
        }
        Some(res)
    } else {
        None
    }
}

/// Whether `c` is a cell of a table's separator line.
fn rule_cell(c: &str) -> (res: bool)
    ensures
        res == is_rule_cell(c@),
{
    let chars = chars_of(c);
    let (start, end) = trim_bounds(&chars);
    let ghost t = trim(c@);
    let mut i = start;
    while i < end
        invariant
            start <= i <= end <= chars@.len(),
            t == trim(c@),
            t == chars@.subrange(start as int, end as int),
            forall|j: int| 0 <= j < i - start ==> t[j] == '-',
        decreases end - i,
    {
        if chars[i] != '-' {
            proof {
                assert(chars@[i as int] != '-');
                assert(t[i - start] == chars@[i as int]);
                assert(!(forall|j: int| 0 <= j < t.len() ==> t[j] == '-'));
            }
            return false;
        }
        i = i + 1;
    }
    end - start >= 3
}

/// Appends the header cells of a table to `content`.
fn append_header_cells(content: &mut String, cols: &Vec<String>)
    ensures
        final(content)@ == old(content)@ + header_cells(views(cols@)),
{
    let ghost cs = views(cols@);
    let ghost before = content@;
    let mut k: usize = 0;
    while k < cols.len()
        invariant
            k <= cols@.len() == cs.len(),
            cs == views(cols@),
            content@ == before + header_cells(cs.take(k as int)),
        decreases cols@.len() - k,
    {
        let ghost prev = content@;
        content.append("<th>");
        content.append(cols[k].as_str());
        content.append("</th>\n");
        proof {
            assert(cs.take(k + 1).drop_last() =~= cs.take(k as int));
            assert(cs.take(k + 1).last() == cols@[k as int]@);
            assert(content@ =~= prev + ("<th>"@ + cols@[k as int]@ + "</th>\n"@));
            assert(before + header_cells(cs.take(k + 1)) =~= before + header_cells(cs.take(
                k as int,
            )) + ("<th>"@ + cols@[k as int]@ + "</th>\n"@));
        }
        k = k + 1;
    }
    proof {
        assert(cs.take(cols@.len() as int) =~= cs);
    }
}

/// Appends the data cells of a table row to `content`.
fn append_data_cells(content: &mut String, cols: &Vec<String>, pats: &Patterns)
    requires
        pats.wf(),
    ensures
        final(content)@ == old(content)@ + data_cells(views(cols@)),
{
    let ghost cs = views(cols@);
    let ghost before = content@;
    let mut k: usize = 0;
    while k < cols.len()
        invariant
            pats.wf(),
            k <= cols@.len() == cs.len(),
            cs == views(cols@),
            content@ == before + data_cells(cs.take(k as int)),
        decreases cols@.len() - k,
    {
        let ghost prev = content@;
        let text = parse_text(cols[k].as_str(), true, pats).unwrap();
        content.append("<td>");
        content.append(text.as_str());
        content.append("</td>\n");
        proof {
            let cell = "<td>"@ + text_html(cols@[k as int]@, true) + "</td>\n"@;
            assert(cs.take(k + 1).drop_last() =~= cs.take(k as int));
            assert(cs.take(k + 1).last() == cols@[k as int]@);
            assert(content@ =~= prev + cell);
            assert(before + data_cells(cs.take(k + 1)) =~= before + data_cells(cs.take(k as int))
                + cell);
        }
        k = k + 1;
    }
    proof {
        assert(cs.take(cols@.len() as int) =~= cs);
    }
}

// ---------------------------------------------------------------------------
// One function per mode
// ---------------------------------------------------------------------------

/// Converts a line between blocks: it may open a formula, a list, a quote,
/// a code block or a table, be a heading or a rule, or else be a paragraph.
pub fn mode_none(content: &mut String, line: &str, pats: &Patterns) -> (res: Option<MdMode>)
    requires
        pats.wf(),
        none_fits(line@),
    ensures
        res == none_step(line@).1,
        final(content)@ == old(content)@ + none_step(line@).0,
{
    let ghost before = content@;
    let chars = chars_of(line);
    let (ts, te) = trim_bounds(&chars);
    let dollars = chars_of("$$");
    if range_starts_with(&chars, ts, te, &dollars) {
        let escaped = string_from_chars(escape_lt_chars(&chars));
        content.append(escaped.as_str());
        content.append("\n");
        return Some(MdMode::Math);
    }
    let level: usize = if starts(&chars, "# ") {
        1
    } else if starts(&chars, "## ") {
        2
    } else if starts(&chars, "### ") {
        3
    } else if starts(&chars, "#### ") {
        4
    } else if starts(&chars, "##### ") {
        5
    } else if starts(&chars, "###### ") {
        6
    } else {
        0
    };
    if level > 0 {
        let (marker, open, close) = heading_tags(level);
        let rest = rest_after(&chars, marker);
        let text = parse_text(rest.as_str(), false, pats)?;
        content.append(open);
        content.append(text.as_str());
        content.append(close);
        return Some(MdMode::Normal);
    }
    if starts(&chars, "- ") {
        let rest = rest_after(&chars, "- ");
        let text = parse_text(rest.as_str(), false, pats)?;
        content.append("<ul>\n<li>");
        content.append(text.as_str());
        content.append("</li>\n");
        return Some(MdMode::Ul('-'));
    }
    if starts(&chars, "* ") {
        let rest = rest_after(&chars, "* ");
        let text = parse_text(rest.as_str(), false, pats)?;
        content.append("<ul>\n<li>");
        content.append(text.as_str());
        content.append("</li>\n");
        return Some(MdMode::Ul('*'));
    }
    if starts(&chars, "1. ") {
        let rest = rest_after(&chars, "1. ");
        let text = parse_text(rest.as_str(), false, pats)?;
        content.append("<ol>\n<li>");
        content.append(text.as_str());
        content.append("</li>\n");
        return Some(MdMode::Ol(2));
    }
    if starts(&chars, "> ") {
        let rest = rest_after(&chars, "> ");
        let text = parse_text(rest.as_str(), false, pats)?;
        content.append("<blockquote>");
        content.append(text.as_str());
        content.append("\n");
        return Some(MdMode::Quote);
    }
    if starts(&chars, "```") {
        let rest = rest_after(&chars, "```");
        content.append("<code><pre>");
        content.append(rest.as_str());
        content.append("\n");
        return Some(MdMode::Code);
    }
    if let Some(cols) = split_cols(line) {
        content.append("<table>\n<tr>\n");
        append_header_cells(content, &cols);
        content.append("</tr>\n");
        let count = cols.len() as u32;
        return Some(MdMode::Table(count, 1));
    }
    if has_match(&pats.rule, line) {
        content.append("<hr />\n");
        return Some(MdMode::Normal);
    }
    let text = parse_text(line, true, pats)?;
    content.append(text.as_str());
    content.append("\n");
    Some(MdMode::Normal)
}

/// Converts a line inside an unordered list whose items start with `c`:
/// another item, or else the end of the list and a line between blocks.
pub fn mode_ul(content: &mut String, line: &str, c: char, pats: &Patterns) -> (res: Option<MdMode>)
    requires
        pats.wf(),
        step_fits(MdMode::Ul(c), line@),
    ensures
        res == ul_step(line@, c).1,
        final(content)@ == old(content)@ + ul_step(line@, c).0,
{
    let chars = chars_of(line);
    let n = chars.len();
    if n >= 2 && chars[0] == c && chars[1] == ' ' {
        proof {
            assert(line@.take(2) =~= seq![c, ' ']);
        }
        let rest = string_of_range(&chars, 2, n);
        proof {
            assert(chars@.subrange(2, n as int) =~= line@.skip(2));
        }
        let text = parse_text(rest.as_str(), false, pats)?;
        content.append("<li>");
        content.append(text.as_str());
        content.append("</li>\n");
        Some(MdMode::Ul(c))
    } else {
        proof {
            if starts_with(line@, seq![c, ' ']) {
                assert(line@.take(2)[0] == c && line@.take(2)[1] == ' ');
            }
        }
        content.append("</ul>\n");
        mode_none(content, line, pats)
    }
}

/// Converts a line inside an ordered list whose next item is numbered `n`:
/// that item, or else the end of the list and a line between blocks.
pub fn mode_ol(content: &mut String, line: &str, n: u32, pats: &Patterns) -> (res: Option<MdMode>)
    requires
        pats.wf(),
        step_fits(MdMode::Ol(n), line@),
    ensures
        res == ol_step(line@, n).1,
        final(content)@ == old(content)@ + ol_step(line@, n).0,
{
    let chars = chars_of(line);
    let mut marker = decimal_chars(n);
    marker.push('.');
    marker.push(' ');
    proof {
        assert(marker@ =~= ol_marker(n));
        assert(chars@.subrange(0, chars@.len() as int) =~= chars@);
    }
    if range_starts_with(&chars, 0, chars.len(), &marker) {
        let rest = string_of_range(&chars, marker.len(), chars.len());
        proof {
            assert(chars@.subrange(marker@.len() as int, chars@.len() as int) =~= after(
                line@,
                ol_marker(n),
            ));
        }
        let text = parse_text(rest.as_str(), false, pats)?;
        content.append("<li>");
        content.append(text.as_str());
        content.append("</li>\n");
        Some(MdMode::Ol(n + 1))
    } else {
        content.append("</ol>\n");
        mode_none(content, line, pats)
    }
}

/// Converts a line inside a code block: the closing fence ends the block,
/// any other line is kept as it is.
pub fn mode_code(content: &mut String, line: &str) -> (res: Option<MdMode>)
    ensures
        res == code_step(line@).1,
        final(content)@ == old(content)@ + code_step(line@).0,
{
    let chars = chars_of(line);
    let (ts, te) = trim_bounds(&chars);
    if range_is(&chars, ts, te, "```") {
        content.append("</pre></code>\n");
        Some(MdMode::Normal)
    } else {
        content.append(line);
        content.append("\n");
        Some(MdMode::Code)
    }
}

/// Converts a line inside a formula: `<` is escaped, and a line that ends
/// with `$$` ends the formula.
pub fn mode_math(content: &mut String, line: &str) -> (res: Option<MdMode>)
    ensures
        res == math_step(line@).1,
        final(content)@ == old(content)@ + math_step(line@).0,
{
    let chars = chars_of(line);
    let escaped = string_from_chars(escape_lt_chars(&chars));
    content.append(escaped.as_str());
    content.append("\n");
    let (ts, te) = trim_bounds(&chars);
    let dollars = chars_of("$$");
    if range_ends_with(&chars, ts, te, &dollars) {
        Some(MdMode::Normal)
    } else {
        Some(MdMode::Math)
    }
}

/// Converts a line inside a quote: more of the quote, an empty line of it,
/// or else the end of the quote and a line between blocks.
pub fn mode_quote(content: &mut String, line: &str, pats: &Patterns) -> (res: Option<MdMode>)
    requires
        pats.wf(),
        step_fits(MdMode::Quote, line@),
    ensures
        res == quote_step(line@).1,
        final(content)@ == old(content)@ + quote_step(line@).0,
{
    let chars = chars_of(line);
    if starts(&chars, "> ") {
        let rest = rest_after(&chars, "> ");
        let text = parse_text(rest.as_str(), true, pats)?;
        content.append(text.as_str());
        content.append("\n");
        Some(MdMode::Quote)
    } else if range_is(&chars, 0, chars.len(), ">") {
        proof {
            assert(chars@.subrange(0, chars@.len() as int) =~= line@);
        }
        content.append("\n");
        Some(MdMode::Quote)
    } else {
        proof {
            assert(chars@.subrange(0, chars@.len() as int) =~= line@);
        }
        content.append("</blockquote>\n");
        mode_none(content, line, pats)
    }
}

/// Converts a line inside a table of `n` columns at row `r`: the separator
/// line under the header is checked, later rows become rows of the table;
/// a line that is no table line ends the table and is a line between
/// blocks.
pub fn mode_table(
    content: &mut String,
    line: &str,
    n: u32,
    r: u32,
    pats: &Patterns,
) -> (res: Option<MdMode>)
    requires
        pats.wf(),
        step_fits(MdMode::Table(n, r), line@),
    ensures
        res == table_step(line@, n, r).1,
        final(content)@ == old(content)@ + table_step(line@, n, r).0,
{
    if let Some(cols) = split_cols(line) {
        let ghost cs = views(cols@);
        if r == 1 {
            let mut k: usize = 0;
            while k < cols.len()
                invariant
                    k <= cols@.len() == cs.len(),
                    cs == views(cols@),
                    cols_of(line@) is Some,
                    cs == cols_of(line@).unwrap(),
                    r == 1,
                    content@ == old(content)@,
                    forall|j: int| 0 <= j < k ==> is_rule_cell(#[trigger] cs[j]),
                decreases cols@.len() - k,
            {
                if !rule_cell(cols[k].as_str()) {
                    proof {
                        assert(!is_rule_cell(cs[k as int]));
                    }
                    assert(content@ =~= old(content)@ + Seq::<char>::empty());
                    return None;
                }
                k = k + 1;
            }
            let count = cols.len() as u32;
            assert(content@ =~= old(content)@ + Seq::<char>::empty());
            if count != n {
                return None;
            }
            Some(MdMode::Table(count, r + 1))
        } else {
            content.append("<tr>\n");
            append_data_cells(content, &cols, pats);
            let count = cols.len() as u32;
            assert(content@ =~= old(content)@ + ("<tr>\n"@ + data_cells(cs)));
            if count != n {
                return None;
            }
            content.append("</tr>\n");
            assert(content@ =~= old(content)@ + ("<tr>\n"@ + data_cells(cs) + "</tr>\n"@));
            Some(MdMode::Table(count, r + 1))
        }
    } else {
        content.append("</table>\n");
        mode_none(content, line, pats)
    }
}

/// Converts one line in mode `mode`, with the function of that mode.
pub fn convert_line(content: &mut String, mode: MdMode, line: &str, pats: &Patterns) -> (res:
    Option<MdMode>)
    requires
        pats.wf(),
        step_fits(mode, line@),
    ensures
        res == step(mode, line@).1,
        final(content)@ == old(content)@ + step(mode, line@).0,
{
    match mode {
        MdMode::Normal => mode_none(content, line, pats),
        MdMode::Ul(c) => mode_ul(content, line, c, pats),
        MdMode::Ol(n) => mode_ol(content, line, n, pats),
        MdMode::Code => mode_code(content, line),
        MdMode::Math => mode_math(content, line),
        MdMode::Quote => mode_quote(content, line, pats),
        MdMode::Table(n, r) => mode_table(content, line, n, r, pats),
    }
}

// ---------------------------------------------------------------------------
// Whether the counters fit
// ---------------------------------------------------------------------------

/// Whether a count of cells fits in a `u32`.
fn fits_u32(len: usize) -> (res: bool)
    ensures
        res == (len <= u32::MAX),
{
    (len as u64) <= (u32::MAX as u64)
}

/// Whether `line`, between blocks, opens a block before the table test.
fn opens_block_exec(chars: &Vec<char>) -> (res: bool)
    ensures
        res == opens_block(chars@),
{
    let (ts, te) = trim_bounds(chars);
    let dollars = chars_of("$$");
    range_starts_with(chars, ts, te, &dollars) || starts(chars, "# ") || starts(chars, "## ")
        || starts(chars, "### ") || starts(chars, "#### ") || starts(chars, "##### ") || starts(
        chars,
        "###### ",
    ) || starts(chars, "- ") || starts(chars, "* ") || starts(chars, "1. ") || starts(chars, "> ")
        || starts(chars, "```")
}

/// Whether the count of the cells of `line`, between blocks, fits.
fn none_fits_exec(line: &str) -> (res: bool)
    ensures
        res == none_fits(line@),
{
    let chars = chars_of(line);
    if opens_block_exec(&chars) {
        return true;
    }
    match split_cols(line) {
        Some(cols) => fits_u32(cols.len()),
        None => true,
    }
}

/// Whether counting the cells of a separator line fits.
fn separator_fits_exec(cols: &Vec<String>) -> (res: bool)
    ensures
        res == separator_fits(views(cols@)),
{
    let ghost cs = views(cols@);
    if fits_u32(cols.len()) {
        return true;
    }
    let len = cols.len();
    let mut i: usize = 0;
    while (i as u64) <= (u32::MAX as u64)
        invariant
            len == cols@.len(),
            cols@.len() > u32::MAX,
            cs == views(cols@),
            i <= u32::MAX + 1,
            forall|j: int| 0 <= j < i ==> is_rule_cell(#[trigger] cs[j]),
        decreases u32::MAX + 1 - i,
    {
        if !rule_cell(cols[i].as_str()) {
            proof {
                assert(!is_rule_cell(cs[i as int]));
            }
            return true;
        }
        i = i + 1;
    }
    proof {
        assert forall|j: int|
            0 <= j <= u32::MAX && j < cs.len() implies is_rule_cell(#[trigger] cs[j]) by {}
    }
    false
}

/// Whether the counters of mode `mode` fit on `line`.
pub fn line_fits(mode: MdMode, line: &str) -> (res: bool)
    ensures
        res == step_fits(mode, line@),
{
    match mode {
        MdMode::Normal => none_fits_exec(line),
        MdMode::Ul(c) => {
            let chars = chars_of(line);
            let n = chars.len();
            if n >= 2 && chars[0] == c && chars[1] == ' ' {
                proof {
                    assert(line@.take(2) =~= seq![c, ' ']);
                }
                true
            } else {
                proof {
                    if starts_with(line@, seq![c, ' ']) {
                        assert(line@.take(2)[0] == c && line@.take(2)[1] == ' ');
                    }
                }
                none_fits_exec(line)
            }
        },
        MdMode::Ol(n) => {
            let chars = chars_of(line);
            let mut marker = decimal_chars(n);
            marker.push('.');
            marker.push(' ');
            proof {
                assert(marker@ =~= ol_marker(n));
                assert(chars@.subrange(0, chars@.len() as int) =~= chars@);
            }
            if range_starts_with(&chars, 0, chars.len(), &marker) {
                n < u32::MAX
            } else {
                none_fits_exec(line)
            }
        },
        MdMode::Code => true,
        MdMode::Math => true,
        MdMode::Quote => {
            let chars = chars_of(line);
            proof {
                assert(chars@.subrange(0, chars@.len() as int) =~= line@);
            }
            starts(&chars, "> ") || range_is(&chars, 0, chars.len(), ">") || none_fits_exec(line)
        },
        MdMode::Table(n, r) => match split_cols(line) {
            Some(cols) => if r == 1 {
                separator_fits_exec(&cols)
            } else {
                fits_u32(cols.len()) && ((cols.len() as u64) != (n as u64) || r < u32::MAX)
            },
            None => none_fits_exec(line),
        },
    }
}

/// Whether `md_to_html` can convert `file` without any counter
/// overflowing: exactly its precondition.
pub fn counters_fit(file: &str, pats: &Patterns) -> (res: bool)
    requires
        pats.wf(),
    ensures
        res == trace_fits(MdMode::Normal, lines_of(file@)),
{
    let lines = split_lines(file);
    let ghost ls = lines_of(file@);
    let mut mode = MdMode::Normal;
    let mut i: usize = 0;
    proof {
        assert(ls.skip(0) =~= ls);
    }
    while i < lines.len()
        invariant
            pats.wf(),
            lines@.len() == ls.len(),
            ls == lines_of(file@),
            forall|k: int| 0 <= k < ls.len() ==> #[trigger] lines@[k]@ == ls[k],
            i <= ls.len(),
            trace_fits(MdMode::Normal, ls) == trace_fits(mode, ls.skip(i as int)),
        decreases ls.len() - i,
    {
        let line = lines[i].as_str();
        proof {
            let rest = ls.skip(i as int);
            assert(rest[0] == ls[i as int]);
            assert(rest.drop_first() =~= ls.skip(i + 1));
        }
        if !line_fits(mode, line) {
            return false;
        }
        let mut scratch = String::new();
        match convert_line(&mut scratch, mode, line, pats) {
            Some(m) => {
                mode = m;
            },
            None => {
                return true;
            },
        }
        i = i + 1;
    }
    proof {
        assert(ls.skip(ls.len() as int) =~= Seq::<Seq<char>>::empty());
    }
    true
}

// ---------------------------------------------------------------------------
// The whole document
// ---------------------------------------------------------------------------

/// Converts the Markdown text `file` to an HTML page titled `filename`.
/// `None` when a table is malformed, or when the `regex` crate does not
/// compile one of the converter's patterns.
pub fn md_to_html(filename: &str, file: &str) -> (res: Option<String>)
    requires
        trace_fits(MdMode::Normal, lines_of(file@)),
    ensures
        res is Some <==> (all_patterns_compile() && render(MdMode::Normal, lines_of(file@)) is Some),
        res matches Some(page) ==> page@ == page_html(
            filename@,
            render(MdMode::Normal, lines_of(file@)).unwrap(),
        ),
{
    let pats = match Patterns::new() {
        Some(p) => p,
        None => return None,
    };
    let lines = split_lines(file);
    let ghost ls = lines_of(file@);
    let mut content = String::new();
    let mut mode = MdMode::Normal;
    let mut i: usize = 0;
    proof {
        assert(ls.skip(0) =~= ls);
    }
    while i < lines.len()
        invariant
            pats.wf(),
            all_patterns_compile(),
            lines@.len() == ls.len(),
            ls == lines_of(file@),
            forall|k: int| 0 <= k < ls.len() ==> #[trigger] lines@[k]@ == ls[k],
            i <= ls.len(),
            trace_fits(mode, ls.skip(i as int)),
            render(MdMode::Normal, ls) == prepend(content@, render(mode, ls.skip(i as int))),
        decreases ls.len() - i,
    {
        let line = lines[i].as_str();
        let ghost rest = ls.skip(i as int);
        proof {
            assert(rest[0] == ls[i as int]);
            assert(rest.drop_first() =~= ls.skip(i + 1));
        }
        let ghost old_content = content@;
        let next = convert_line(&mut content, mode, line, &pats);
        match next {
            Some(m) => {
                proof {
                    let out = step(mode, ls[i as int]).0;
                    assert(content@ == old_content + out);
                    match render(m, ls.skip(i + 1)) {
                        Some(tail) => {
                            assert(old_content + (out + tail) =~= content@ + tail);
                        },
                        None => {},
                    }
                }
                mode = m;
            },
            None => {
                return None;
            },
        }
        i = i + 1;
    }
    proof {
        assert(ls.skip(ls.len() as int) =~= Seq::<Seq<char>>::empty());
        assert(content@ + Seq::<char>::empty() =~= content@);
    }
    let mut page = String::from_str(PAGE_HEAD);
    page.append(filename);
    page.append(PAGE_MIDDLE);
    page.append(content.as_str());
    page.append(PAGE_FOOT);
    Some(page)
}

} // verus!
