//! Inline markup: images, links, emphasis and code spans inside a line of
//! text, found and rewritten with regular expressions of the `regex` crate.
use crate::text::{chars_of, escape_lt, escape_lt_chars, string_from_chars};
use vstd::prelude::*;

verus! {

// ---------------------------------------------------------------------------
// The `regex` crate
// ---------------------------------------------------------------------------

/// A compiled regular expression of the `regex` crate, opaque here.
#[verifier::external_type_specification]
#[verifier::external_body]
pub struct ExRegex(regex::Regex);

/// Whether `regex::Regex::new` accepts `pattern`: it refuses a pattern that
/// is not valid syntax, or whose compiled form exceeds the default size limit.
pub uninterp spec fn regex_compiles(pattern: Seq<char>) -> bool;

/// What `regex::Regex::replace` returns for a regex compiled from `pattern`,
/// a haystack and a replacement: the haystack with its leftmost-first match
/// replaced, `$1`, `$2` in the replacement standing for the capture groups;
/// the haystack itself when nothing matches.
pub uninterp spec fn regex_replace_first(
    pattern: Seq<char>,
    haystack: Seq<char>,
    replacement: Seq<char>,
) -> Seq<char>;

/// Whether `regex::Regex::captures` finds a match of a regex compiled from
/// `pattern` anywhere in `haystack`.
pub uninterp spec fn regex_captures_some(pattern: Seq<char>, haystack: Seq<char>) -> bool;

/// A regular expression together with the pattern it was compiled from.
/// Only `regex_new` builds one, so `re` is always the regex that
/// `regex::Regex::new` compiled from `source`.
pub struct Pattern {
    re: regex::Regex,
    source: String,
}

impl View for Pattern {
    type V = Seq<char>;

    /// The pattern the regex was compiled from.
    closed spec fn view(&self) -> Seq<char> {
        self.source@
    }
}

/// Compiles `pattern` with `regex::Regex::new` and keeps the pattern beside
/// the regex.
/// Trusted: the result is `Some` exactly when the pattern compiles, which
/// the name `regex_compiles` stands for, and then it holds the regex
/// compiled from `pattern` together with `pattern` itself.
#[verifier::external_body]
fn regex_new(pattern: &str) -> (res: Option<Pattern>)
    ensures
        res is Some <==> regex_compiles(pattern@),
        res matches Some(p) ==> p@ == pattern@,
{
    match regex::Regex::new(pattern) {
        Ok(re) => Some(Pattern { re, source: pattern.to_owned() }),
        Err(_) => None,
    }
}

impl Pattern {
    /// Compiles `source`; `None` when the `regex` crate refuses it.
    pub fn compile(source: &str) -> (res: Option<Pattern>)
        ensures
            res is Some <==> regex_compiles(source@),
            res matches Some(p) ==> p@ == source@,
    {
        regex_new(source)
    }
}

/// Replaces the leftmost-first match of `p` in `haystack` with
/// `replacement`, by `regex::Regex::replace`.
/// Trusted: the result is the name `regex_replace_first` applied to the
/// pattern `p` was compiled from, the haystack and the replacement.
#[verifier::external_body]
fn replace_first(p: &Pattern, haystack: &str, replacement: &str) -> (res: String)
    ensures
        res@ == regex_replace_first(p@, haystack@, replacement@),
{
    p.re.replace(haystack, replacement).into_owned()
}

/// Whether `p` matches somewhere in `haystack`, by `regex::Regex::captures`.
/// Trusted: the result is the name `regex_captures_some` applied to the
/// pattern `p` was compiled from and the haystack.
#[verifier::external_body]
pub(crate) fn has_match(p: &Pattern, haystack: &str) -> (res: bool)
    ensures
        res == regex_captures_some(p@, haystack@),
{
    p.re.captures(haystack).is_some()
}

// ---------------------------------------------------------------------------
// The patterns of the inline markup, and what each becomes
// ---------------------------------------------------------------------------

/// An image: `![](src)`.
pub const IMG: &'static str = "!\\[\\]\\(([^\\)]+)\\)";

/// A link: `[text](href)`.
pub const LINK: &'static str = "\\[([^\\]]+)\\]\\(([^\\)]+)\\)";

/// A link to a page of the wiki: `[[page]]`.
pub const WIKI: &'static str = "\\[\\[([^\\]]+)\\]\\]";

/// Bold italics: `***text***`.
pub const EMPH: &'static str = "\\*\\*\\*([^\\*]+)\\*\\*\\*";

/// Bold italics: `_**text**_`.
pub const EMPH2: &'static str = "_\\*\\*([^\\*]+)\\*\\*_";

/// Bold italics: `__*text*__`.
pub const EMPH3: &'static str = "__\\*([^\\*]+)\\*__";

/// Bold italics: `**_text_**`.
pub const EMPH4: &'static str = "\\*\\*_([^\\*]+)_\\*\\*";

/// Bold italics: `*__text__*`.
pub const EMPH5: &'static str = "\\*__([^\\*]+)__\\*";

/// Bold italics: `___text___`.
pub const EMPH6: &'static str = "___([^\\*]+)___";

/// Bold: `**text**`.
pub const BOLD: &'static str = "\\*\\*([^\\*]+)\\*\\*";

/// Bold: `__text__`.
pub const BOLD2: &'static str = "__([^\\*]+)__";

/// Italics: `*text*`.
pub const ITALIC: &'static str = "\\*([^\\*]+)\\*";

/// Italics: `_text_`.
pub const ITALIC2: &'static str = "_([^\\*]+)_";

/// A code span: `` `code` ``.
pub const CODE: &'static str = "`([^`]+)`";

/// A horizontal rule: three or more `*`, `-` or `_` anywhere in the line.
pub const RULE: &'static str = "(\\*\\*\\*+)|(---+)|(___+)";

/// What an image becomes.
pub const IMG_HTML: &'static str = "<img src=\"$1\" />";

/// What a link becomes.
pub const LINK_HTML: &'static str = "<a href=\"$2\" >$1</a>";

/// What a link to a page of the wiki becomes.
pub const WIKI_HTML: &'static str = "<a href=\"$1\" >$1</a>";

/// What bold italics become.
pub const EMPH_HTML: &'static str = "<strong><em>$1</em></strong>";

/// What bold text becomes.
pub const BOLD_HTML: &'static str = "<strong>$1</strong>";

/// What italics become.
pub const ITALIC_HTML: &'static str = "<em>$1</em>";

/// What a code span becomes.
pub const CODE_HTML: &'static str = "<code>$1</code>";

/// Every pattern the converter uses compiles.
pub open spec fn all_patterns_compile() -> bool {
    &&& regex_compiles(IMG@)
    &&& regex_compiles(LINK@)
    &&& regex_compiles(WIKI@)
    &&& regex_compiles(EMPH@)
    &&& regex_compiles(EMPH2@)
    &&& regex_compiles(EMPH3@)
    &&& regex_compiles(EMPH4@)
    &&& regex_compiles(EMPH5@)
    &&& regex_compiles(EMPH6@)
    &&& regex_compiles(BOLD@)
    &&& regex_compiles(BOLD2@)
    &&& regex_compiles(ITALIC@)
    &&& regex_compiles(ITALIC2@)
    &&& regex_compiles(CODE@)
    &&& regex_compiles(RULE@)
}

/// The compiled patterns of the converter.
pub struct Patterns {
    pub img: Pattern,
    pub link: Pattern,
    pub wiki: Pattern,
    pub emph: Pattern,
    pub emph2: Pattern,
    pub emph3: Pattern,
    pub emph4: Pattern,
    pub emph5: Pattern,
    pub emph6: Pattern,
    pub bold: Pattern,
    pub bold2: Pattern,
    pub italic: Pattern,
    pub italic2: Pattern,
    pub code: Pattern,
    pub rule: Pattern,
}

impl Patterns {
    /// Each field was compiled from its pattern.
    pub open spec fn wf(&self) -> bool {
        &&& self.img@ == IMG@
        &&& self.link@ == LINK@
        &&& self.wiki@ == WIKI@
        &&& self.emph@ == EMPH@
        &&& self.emph2@ == EMPH2@
        &&& self.emph3@ == EMPH3@
        &&& self.emph4@ == EMPH4@
        &&& self.emph5@ == EMPH5@
        &&& self.emph6@ == EMPH6@
        &&& self.bold@ == BOLD@
        &&& self.bold2@ == BOLD2@
        &&& self.italic@ == ITALIC@
        &&& self.italic2@ == ITALIC2@
        &&& self.code@ == CODE@
        &&& self.rule@ == RULE@
    }

    /// Compiles every pattern; `None` when one of them does not compile.
    pub fn new() -> (res: Option<Patterns>)
        ensures
            res is Some <==> all_patterns_compile(),
            res matches Some(p) ==> p.wf(),
    {
        let img = Pattern::compile(IMG)?;
        let link = Pattern::compile(LINK)?;
        let wiki = Pattern::compile(WIKI)?;
        let emph = Pattern::compile(EMPH)?;
        let emph2 = Pattern::compile(EMPH2)?;
        let emph3 = Pattern::compile(EMPH3)?;
        let emph4 = Pattern::compile(EMPH4)?;
        let emph5 = Pattern::compile(EMPH5)?;
        let emph6 = Pattern::compile(EMPH6)?;
        let bold = Pattern::compile(BOLD)?;
        let bold2 = Pattern::compile(BOLD2)?;
        let italic = Pattern::compile(ITALIC)?;
        let italic2 = Pattern::compile(ITALIC2)?;
        let code = Pattern::compile(CODE)?;
        let rule = Pattern::compile(RULE)?;
        Some(
            Patterns {
                img,
                link,
                wiki,
                emph,
                emph2,
                emph3,
                emph4,
                emph5,
                emph6,
                bold,
                bold2,
                italic,
                italic2,
                code,
                rule,
            },
        )
    }
}

// ---------------------------------------------------------------------------
// A line of text to HTML
// ---------------------------------------------------------------------------

/// The inline markup of `s` turned into HTML: one replacement of each
/// pattern, in the order of the table above, each on the result of the one
/// before.
pub open spec fn inline_html(s: Seq<char>) -> Seq<char> {
    let s = regex_replace_first(IMG@, s, IMG_HTML@);
    let s = regex_replace_first(LINK@, s, LINK_HTML@);
    let s = regex_replace_first(WIKI@, s, WIKI_HTML@);
    let s = regex_replace_first(EMPH@, s, EMPH_HTML@);
    let s = regex_replace_first(EMPH2@, s, EMPH_HTML@);
    let s = regex_replace_first(EMPH3@, s, EMPH_HTML@);
    let s = regex_replace_first(EMPH4@, s, EMPH_HTML@);
    let s = regex_replace_first(EMPH5@, s, EMPH_HTML@);
    let s = regex_replace_first(EMPH6@, s, EMPH_HTML@);
    let s = regex_replace_first(BOLD@, s, BOLD_HTML@);
    let s = regex_replace_first(BOLD2@, s, BOLD_HTML@);
    let s = regex_replace_first(ITALIC@, s, ITALIC_HTML@);
    let s = regex_replace_first(ITALIC2@, s, ITALIC_HTML@);
    regex_replace_first(CODE@, s, CODE_HTML@)
}

/// `s` wrapped in a paragraph when `p` holds.
pub open spec fn paragraph_of(s: Seq<char>, p: bool) -> Seq<char> {
    if p {
        "<p>"@ + s + "</p>"@
    } else {
        s
    }
}

/// A line of text in HTML: `<` escaped, the inline markup turned into
/// HTML, and the whole wrapped in a paragraph when `p` holds.
pub open spec fn text_html(line: Seq<char>, p: bool) -> Seq<char> {
    paragraph_of(inline_html(escape_lt(line)), p)
}

/// Wraps `content` in a paragraph when `p` holds.
pub fn paragraph(content: String, p: bool) -> (res: String)
    ensures
        res@ == paragraph_of(content@, p),
{
    if p {
        let mut res = String::from_str("<p>");
        res.append(content.as_str());
        res.append("</p>");
        res
    } else {
        content
    }
}

/// Turns a line of text into HTML.
pub fn parse_text(line: &str, p: bool, pats: &Patterns) -> (res: Option<String>)
    requires
        pats.wf(),
    ensures
        res is Some,
        res.unwrap()@ == text_html(line@, p),
{
    let chars = chars_of(line);
    let content = string_from_chars(escape_lt_chars(&chars));
    let content = replace_first(&pats.img, content.as_str(), IMG_HTML);
    let content = replace_first(&pats.link, content.as_str(), LINK_HTML);
    let content = replace_first(&pats.wiki, content.as_str(), WIKI_HTML);
    let content = replace_first(&pats.emph, content.as_str(), EMPH_HTML);
    let content = replace_first(&pats.emph2, content.as_str(), EMPH_HTML);
    let content = replace_first(&pats.emph3, content.as_str(), EMPH_HTML);
    let content = replace_first(&pats.emph4, content.as_str(), EMPH_HTML);
    let content = replace_first(&pats.emph5, content.as_str(), EMPH_HTML);
    let content = replace_first(&pats.emph6, content.as_str(), EMPH_HTML);
    let content = replace_first(&pats.bold, content.as_str(), BOLD_HTML);
    let content = replace_first(&pats.bold2, content.as_str(), BOLD_HTML);
    let content = replace_first(&pats.italic, content.as_str(), ITALIC_HTML);
    let content = replace_first(&pats.italic2, content.as_str(), ITALIC_HTML);
    let content = replace_first(&pats.code, content.as_str(), CODE_HTML);
    Some(paragraph(content, p))
}

} // verus!
