use md_html::inline::Patterns;
use md_html::markdown::{
    convert_line, counters_fit, line_fits, md_to_html, mode_code, mode_math, mode_none, mode_ol,
    mode_quote, mode_table, mode_ul, split_cols, MdMode,
};

/// The page that the converter writes around a body: the MathJax head and
/// the style sheet, the title, and the body inside the page's `div`.
fn page(filename: &str, content: &str) -> String {
    format!(
"<html><head>\n<title>{}</title>
<script type=\"text/x-mathjax-config\">
  MathJax.Hub.Config({{tex2jax: {{
      inlineMath: [['$','$']],
      displayMath: [['$$', '$$']]
  }}}});

</script>
<script type=\"text/javascript\" src=\"https://cdnjs.cloudflare.com/ajax/libs/mathjax/2.7.1/MathJax.js?config=TeX-AMS-MML_HTMLorMML\">
</script>
<style>
* {{\n    box-sizing: border-box;\n}}
body {{\n    background-color: #222;\n    margin: 0 auto 0;\n    font-family: cmu serif;\n    font-size: 12pt;\n}}
#page {{\n    background-color: #FFF;\n    width: 8.3in;\n    height: auto;\n    padding: 0.6in;\n}}
table {{
    border-spacing: 0;
    border-collapse: separate;
    border-radius: 4px;
    border: 2px solid #BBB;
    font-size: 12pt;
}}
th {{\n    padding: auto;\n}}
td {{\n    padding: auto;\n}}
table th:not(:last-child), table td:not(:last-child) {{\n    border-right: 2px solid #BBB;\n}}
table>thead>tr:not(:last-child)>th,
table>thead>tr:not(:last-child)>td,
table>tbody>tr:not(:last-child)>th,
table>tbody>tr:not(:last-child)>td,
table>tfoot>tr:not(:last-child)>th,
table>tfoot>tr:not(:last-child)>td,
table>tr:not(:last-child)>td,
table>tr:not(:last-child)>th,
table>thead:not(:last-child),
table>tbody:not(:last-child),
table>tfoot:not(:last-child) {{\n    border-bottom: 2px solid #BBB;\n}}
img {{\n    max-width: 100%;\n}}
blockquote {{\n    background-color: #F8F8F8;\n    padding: 5px 0px 10px 5px;\n}}
code {{\n    background-color: #EEE;\n}}
pre {{\n    background-color: #EEE;\n    border-radius: 8px;\n    padding: 10px 0px 15px 15px;\n}}
</style>\n</head>\n<body>
<div id=\"page\">
{}
</div>
</body>\n</html>", filename, content
    )
}

fn pats() -> Patterns {
    Patterns::new().unwrap()
}

fn run_none(line: &str) -> (String, Option<MdMode>) {
    let mut content = String::new();
    let m = mode_none(&mut content, line, &pats());
    (content, m)
}

fn strings(v: &[&str]) -> Vec<String> {
    v.iter().map(|s| s.to_string()).collect()
}

#[test]
fn split_cols_of_table_lines() {
    assert_eq!(split_cols("|a|b|"), Some(strings(&["a", "b"])));
    assert_eq!(split_cols("|a|"), Some(strings(&["a"])));
    assert_eq!(split_cols("||"), Some(strings(&[""])));
    assert_eq!(split_cols("| a |  b |"), Some(strings(&[" a ", "  b "])));
    assert_eq!(split_cols("|a||b|"), Some(strings(&["a", "", "b"])));
    assert_eq!(split_cols("|"), None);
    assert_eq!(split_cols("a|b|"), None);
    assert_eq!(split_cols("|a|b"), None);
    assert_eq!(split_cols(""), None);
}

#[test]
fn split_cols_joined_give_the_line_back() {
    for line in ["|a|b|", "||", "|x||y z|", "|||"] {
        let cols = split_cols(line).unwrap();
        assert_eq!(format!("|{}|", cols.join("|")), line);
    }
}

#[test]
fn default_mode_is_between_blocks() {
    assert_eq!(MdMode::default(), MdMode::Normal);
}

#[test]
fn none_headings() {
    assert_eq!(run_none("# Title"), ("<h1>Title</h1>\n".to_string(), Some(MdMode::Normal)));
    assert_eq!(run_none("## Two"), ("<h2>Two</h2>\n".to_string(), Some(MdMode::Normal)));
    assert_eq!(run_none("### Three"), ("<h3>Three</h3>\n".to_string(), Some(MdMode::Normal)));
    assert_eq!(run_none("#### Four"), ("<h4>Four</h4>\n".to_string(), Some(MdMode::Normal)));
    assert_eq!(run_none("##### Five"), ("<h5>Five</h5>\n".to_string(), Some(MdMode::Normal)));
    assert_eq!(run_none("###### Six"), ("<h6>Six</h6>\n".to_string(), Some(MdMode::Normal)));
    assert_eq!(
        run_none("####### seven"),
        ("<p>####### seven</p>\n".to_string(), Some(MdMode::Normal))
    );
    assert_eq!(run_none("#nospace"), ("<p>#nospace</p>\n".to_string(), Some(MdMode::Normal)));
    assert_eq!(
        run_none("# A **bold** title"),
        ("<h1>A <strong>bold</strong> title</h1>\n".to_string(), Some(MdMode::Normal))
    );
}

#[test]
fn none_opens_blocks() {
    assert_eq!(run_none("- item"), ("<ul>\n<li>item</li>\n".to_string(), Some(MdMode::Ul('-'))));
    assert_eq!(run_none("* item"), ("<ul>\n<li>item</li>\n".to_string(), Some(MdMode::Ul('*'))));
    assert_eq!(run_none("1. one"), ("<ol>\n<li>one</li>\n".to_string(), Some(MdMode::Ol(2))));
    assert_eq!(
        run_none("> quoted"),
        ("<blockquote>quoted\n".to_string(), Some(MdMode::Quote))
    );
    assert_eq!(run_none("```rust"), ("<code><pre>rust\n".to_string(), Some(MdMode::Code)));
    assert_eq!(run_none("```"), ("<code><pre>\n".to_string(), Some(MdMode::Code)));
    assert_eq!(
        run_none("  $$ x < y"),
        ("  $$ x \\lt  y\n".to_string(), Some(MdMode::Math))
    );
    assert_eq!(run_none("$$"), ("$$\n".to_string(), Some(MdMode::Math)));
}

#[test]
fn none_table_header() {
    assert_eq!(
        run_none("|a|b|"),
        ("<table>\n<tr>\n<th>a</th>\n<th>b</th>\n</tr>\n".to_string(), Some(MdMode::Table(2, 1)))
    );
    assert_eq!(
        run_none("|x < y|"),
        ("<table>\n<tr>\n<th>x < y</th>\n</tr>\n".to_string(), Some(MdMode::Table(1, 1)))
    );
}

#[test]
fn none_rules() {
    assert_eq!(run_none("---"), ("<hr />\n".to_string(), Some(MdMode::Normal)));
    assert_eq!(run_none("***"), ("<hr />\n".to_string(), Some(MdMode::Normal)));
    assert_eq!(run_none("______"), ("<hr />\n".to_string(), Some(MdMode::Normal)));
    assert_eq!(run_none("text --- more"), ("<hr />\n".to_string(), Some(MdMode::Normal)));
    assert_eq!(run_none("--"), ("<p>--</p>\n".to_string(), Some(MdMode::Normal)));
}

#[test]
fn none_paragraphs() {
    assert_eq!(
        run_none("hello **world**"),
        ("<p>hello <strong>world</strong></p>\n".to_string(), Some(MdMode::Normal))
    );
    assert_eq!(run_none("a < b"), ("<p>a \\lt  b</p>\n".to_string(), Some(MdMode::Normal)));
    assert_eq!(run_none(""), ("<p></p>\n".to_string(), Some(MdMode::Normal)));
    assert_eq!(run_none("-item"), ("<p>-item</p>\n".to_string(), Some(MdMode::Normal)));
}

#[test]
fn none_appends_to_what_is_there() {
    let mut content = "before\n".to_string();
    let m = mode_none(&mut content, "# T", &pats());
    assert_eq!(m, Some(MdMode::Normal));
    assert_eq!(content, "before\n<h1>T</h1>\n");
}

#[test]
fn ul_items_and_end() {
    let p = pats();
    let mut content = String::new();
    assert_eq!(mode_ul(&mut content, "- next", '-', &p), Some(MdMode::Ul('-')));
    assert_eq!(content, "<li>next</li>\n");
    let mut content = String::new();
    assert_eq!(mode_ul(&mut content, "* other", '-', &p), Some(MdMode::Ul('*')));
    assert_eq!(content, "</ul>\n<ul>\n<li>other</li>\n");
    let mut content = String::new();
    assert_eq!(mode_ul(&mut content, "plain", '*', &p), Some(MdMode::Normal));
    assert_eq!(content, "</ul>\n<p>plain</p>\n");
}

#[test]
fn ol_items_are_numbered_in_turn() {
    let p = pats();
    let mut content = String::new();
    assert_eq!(mode_ol(&mut content, "2. two", 2, &p), Some(MdMode::Ol(3)));
    assert_eq!(content, "<li>two</li>\n");
    let mut content = String::new();
    assert_eq!(mode_ol(&mut content, "10. ten", 10, &p), Some(MdMode::Ol(11)));
    assert_eq!(content, "<li>ten</li>\n");
    let mut content = String::new();
    assert_eq!(mode_ol(&mut content, "3. x", 2, &p), Some(MdMode::Normal));
    assert_eq!(content, "</ol>\n<p>3. x</p>\n");
    let mut content = String::new();
    assert_eq!(mode_ol(&mut content, "1. again", 2, &p), Some(MdMode::Ol(2)));
    assert_eq!(content, "</ol>\n<ol>\n<li>again</li>\n");
}

#[test]
fn code_lines_are_kept_as_they_are() {
    let mut content = String::new();
    assert_eq!(mode_code(&mut content, "let x = a < b; **y**"), Some(MdMode::Code));
    assert_eq!(content, "let x = a < b; **y**\n");
    let mut content = String::new();
    assert_eq!(mode_code(&mut content, "```"), Some(MdMode::Normal));
    assert_eq!(content, "</pre></code>\n");
    let mut content = String::new();
    assert_eq!(mode_code(&mut content, "  ```\t"), Some(MdMode::Normal));
    assert_eq!(content, "</pre></code>\n");
    let mut content = String::new();
    assert_eq!(mode_code(&mut content, "```x"), Some(MdMode::Code));
    assert_eq!(content, "```x\n");
}

#[test]
fn math_lines_escape_lt() {
    let mut content = String::new();
    assert_eq!(mode_math(&mut content, "x < y"), Some(MdMode::Math));
    assert_eq!(content, "x \\lt  y\n");
    let mut content = String::new();
    assert_eq!(mode_math(&mut content, "x $$"), Some(MdMode::Normal));
    assert_eq!(content, "x $$\n");
    let mut content = String::new();
    assert_eq!(mode_math(&mut content, "$$  "), Some(MdMode::Normal));
    assert_eq!(content, "$$  \n");
    let mut content = String::new();
    assert_eq!(mode_math(&mut content, "$"), Some(MdMode::Math));
}

#[test]
fn quote_lines() {
    let p = pats();
    let mut content = String::new();
    assert_eq!(mode_quote(&mut content, "> more", &p), Some(MdMode::Quote));
    assert_eq!(content, "<p>more</p>\n");
    let mut content = String::new();
    assert_eq!(mode_quote(&mut content, ">", &p), Some(MdMode::Quote));
    assert_eq!(content, "\n");
    let mut content = String::new();
    assert_eq!(mode_quote(&mut content, "plain", &p), Some(MdMode::Normal));
    assert_eq!(content, "</blockquote>\n<p>plain</p>\n");
    let mut content = String::new();
    assert_eq!(mode_quote(&mut content, ">x", &p), Some(MdMode::Normal));
    assert_eq!(content, "</blockquote>\n<p>>x</p>\n");
}

#[test]
fn table_separator_line() {
    let p = pats();
    let mut content = String::new();
    assert_eq!(mode_table(&mut content, "|---| --- |", 2, 1, &p), Some(MdMode::Table(2, 2)));
    assert_eq!(content, "");
    let mut content = String::new();
    assert_eq!(mode_table(&mut content, "|---|:--|", 2, 1, &p), None);
    assert_eq!(content, "");
    let mut content = String::new();
    assert_eq!(mode_table(&mut content, "|--|---|", 2, 1, &p), None);
    let mut content = String::new();
    assert_eq!(mode_table(&mut content, "|---|---|---|", 2, 1, &p), None);
    assert_eq!(content, "");
}

#[test]
fn table_rows() {
    let p = pats();
    let mut content = String::new();
    assert_eq!(mode_table(&mut content, "|a|*b*|", 2, 2, &p), Some(MdMode::Table(2, 3)));
    assert_eq!(content, "<tr>\n<td><p>a</p></td>\n<td><p><em>b</em></p></td>\n</tr>\n");
    let mut content = String::new();
    assert_eq!(mode_table(&mut content, "|a|", 2, 3, &p), None);
    assert_eq!(content, "<tr>\n<td><p>a</p></td>\n");
    let mut content = String::new();
    assert_eq!(mode_table(&mut content, "after", 2, 3, &p), Some(MdMode::Normal));
    assert_eq!(content, "</table>\n<p>after</p>\n");
}

#[test]
fn whole_document() {
    let text = "# Title\n\nSome *text*.\n- a\n- b\nend\n";
    let body = "<h1>Title</h1>\n<p></p>\n<p>Some <em>text</em>.</p>\n<ul>\n<li>a</li>\n<li>b</li>\n</ul>\n<p>end</p>\n";
    assert_eq!(md_to_html("notes.md", text), Some(page("notes.md", body)));
}

#[test]
fn document_with_a_table() {
    let text = "|h1|h2|\n|---|---|\n|a|b|\nafter";
    let body = "<table>\n<tr>\n<th>h1</th>\n<th>h2</th>\n</tr>\n<tr>\n<td><p>a</p></td>\n<td><p>b</p></td>\n</tr>\n</table>\n<p>after</p>\n";
    assert_eq!(md_to_html("t.md", text), Some(page("t.md", body)));
}

#[test]
fn document_with_code_math_and_lists() {
    let text = "```\nx < 1\n```\n$$ a < b\nc $$\n1. one\n2. two\n3. three\n> q\n>\n> r\ndone";
    let body = [
        "<code><pre>\n",
        "x < 1\n",
        "</pre></code>\n",
        "$$ a \\lt  b\n",
        "c $$\n",
        "<ol>\n<li>one</li>\n",
        "<li>two</li>\n",
        "<li>three</li>\n",
        "</ol>\n<blockquote>q\n",
        "\n",
        "<p>r</p>\n",
        "</blockquote>\n<p>done</p>\n",
    ]
    .concat();
    assert_eq!(md_to_html("m.md", text), Some(page("m.md", &body)));
}

#[test]
fn malformed_table_gives_nothing() {
    assert_eq!(md_to_html("bad.md", "|a|b|\n|-|-|"), None);
    assert_eq!(md_to_html("bad.md", "|a|b|\n|---|---|\n|c|"), None);
}

#[test]
fn empty_document() {
    assert_eq!(md_to_html("empty.md", ""), Some(page("empty.md", "")));
}

#[test]
fn crlf_lines() {
    assert_eq!(
        md_to_html("w.md", "# T\r\nx\r\n"),
        Some(page("w.md", "<h1>T</h1>\n<p>x</p>\n"))
    );
}

#[test]
fn open_blocks_stay_open_at_the_end() {
    assert_eq!(md_to_html("l.md", "- a"), Some(page("l.md", "<ul>\n<li>a</li>\n")));
}

#[test]
fn a_document_converts_part_by_part() {
    // Converting the first lines, then the rest from the mode they end in,
    // gives the body of the whole document.
    let p = pats();
    let mut content = String::new();
    let mut mode = MdMode::Normal;
    for line in ["- a", "- b"] {
        mode = match mode {
            MdMode::Normal => mode_none(&mut content, line, &p),
            MdMode::Ul(c) => mode_ul(&mut content, line, c, &p),
            _ => unreachable!(),
        }
        .unwrap();
    }
    assert_eq!(mode, MdMode::Ul('-'));
    let first = content.clone();
    let mut rest = String::new();
    assert_eq!(mode_ul(&mut rest, "after", '-', &p), Some(MdMode::Normal));
    assert_eq!(
        md_to_html("p.md", "- a\n- b\nafter"),
        Some(page("p.md", &format!("{}{}", first, rest)))
    );
}

#[test]
fn crlf_and_lf_give_the_same_page() {
    for x in ["# T\nx\n- a\n- b\n", "|a|\n|---|\n|b|\nend", "", "\n\n", "> q\n>\n"] {
        assert_eq!(md_to_html("f.md", &x.replace("\n", "\r\n")), md_to_html("f.md", x), "{:?}", x);
    }
}

#[test]
fn a_final_line_end_changes_nothing() {
    for x in ["# T\nx", "- a\n- b", "|a|\n|---|\n|b|", "plain"] {
        assert_eq!(md_to_html("f.md", &format!("{}\n", x)), md_to_html("f.md", x), "{:?}", x);
    }
}

#[test]
fn the_file_name_is_only_the_title() {
    let text = "# T\n*x*";
    let a = md_to_html("a.md", text).unwrap();
    let b = md_to_html("other name.md", text).unwrap();
    assert_eq!(
        a.strip_prefix("<html><head>\n<title>a.md"),
        b.strip_prefix("<html><head>\n<title>other name.md")
    );
    assert_eq!(md_to_html("a.md", "|a|\n|-|").is_none(), md_to_html("b.md", "|a|\n|-|").is_none());
}

#[test]
fn a_document_splits_at_its_first_line() {
    let body = |page: String| {
        let start = page.find("<div id=\"page\">\n").unwrap() + "<div id=\"page\">\n".len();
        let end = page.rfind("\n</div>").unwrap();
        page[start..end].to_string()
    };
    let mut w = String::new();
    assert_eq!(mode_none(&mut w, "# Head", &pats()), Some(MdMode::Normal));
    for rest in ["- a\n- b", "|x|\n|---|\n|y|", "plain *text*"] {
        let whole = md_to_html("f.md", &format!("# Head\n{}", rest)).unwrap();
        let tail = md_to_html("f.md", rest).unwrap();
        assert_eq!(body(whole), format!("{}{}", w, body(tail)));
    }
    assert!(md_to_html("f.md", "# Head\n|a|\n|-|").is_none());
    assert!(md_to_html("f.md", "|a|\n|-|").is_none());
}

#[test]
fn appended_text_depends_on_the_line_only() {
    let p = pats();
    let mut c1 = String::new();
    let r1 = mode_none(&mut c1, "## x", &p);
    let mut c2 = "earlier text\n".to_string();
    let r2 = mode_none(&mut c2, "## x", &p);
    assert_eq!(r1, r2);
    assert_eq!(c2.strip_prefix("earlier text\n"), Some(c1.as_str()));
}

#[test]
fn convert_line_dispatches_on_the_mode() {
    let p = pats();
    let mut content = String::new();
    assert_eq!(convert_line(&mut content, MdMode::Ol(2), "2. b", &p), Some(MdMode::Ol(3)));
    assert_eq!(convert_line(&mut content, MdMode::Code, "x < y", &p), Some(MdMode::Code));
    assert_eq!(convert_line(&mut content, MdMode::Table(1, 1), "|-|", &p), None);
    assert_eq!(content, "<li>b</li>\nx < y\n");
}

#[test]
fn counters_fit_ordinary_documents() {
    let p = pats();
    for x in ["# T\n1. a\n2. b", "|a|b|\n|---|---|\n|c|d|", "", "|a|\n|-|"] {
        assert!(counters_fit(x, &p), "{:?}", x);
    }
}

#[test]
fn counters_that_would_overflow() {
    assert!(!line_fits(MdMode::Ol(u32::MAX), "4294967295. last"));
    assert!(line_fits(MdMode::Ol(u32::MAX), "something else"));
    assert!(line_fits(MdMode::Ol(7), "7. seven"));
    assert!(!line_fits(MdMode::Table(2, u32::MAX), "|a|b|"));
    assert!(line_fits(MdMode::Table(3, u32::MAX), "|a|b|"));
    assert!(line_fits(MdMode::Table(2, 1), "|---|---|"));
    assert!(line_fits(MdMode::Normal, "|a|b|c|"));
    assert!(line_fits(MdMode::Code, "anything"));
}

#[test]
fn a_table_line_has_one_cell_fewer_than_bars() {
    for line in ["|a|b|", "||", "|x||y z|", "|||", "| a |"] {
        let cols = split_cols(line).unwrap();
        assert_eq!(cols.len(), line.matches('|').count() - 1);
        assert!(cols.iter().all(|c| !c.contains('|')));
        assert_eq!(format!("|{}|", cols.join("|")), line);
    }
}
