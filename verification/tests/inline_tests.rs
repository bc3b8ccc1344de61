use md_html::inline::{paragraph, parse_text, Pattern, Patterns, BOLD, IMG, RULE};

fn text(line: &str, p: bool) -> String {
    parse_text(line, p, &Patterns::new().unwrap()).unwrap()
}

#[test]
fn every_pattern_compiles() {
    assert!(Patterns::new().is_some());
    assert!(Pattern::compile(IMG).is_some());
    assert!(Pattern::compile(BOLD).is_some());
    assert!(Pattern::compile(RULE).is_some());
}

#[test]
fn a_bad_pattern_does_not_compile() {
    assert!(Pattern::compile("foo(bar").is_none());
    assert!(Pattern::compile("[").is_none());
}

#[test]
fn paragraphs() {
    assert_eq!(paragraph("x".to_string(), true), "<p>x</p>");
    assert_eq!(paragraph("x".to_string(), false), "x");
    assert_eq!(text("plain", true), "<p>plain</p>");
    assert_eq!(text("plain", false), "plain");
    assert_eq!(text("", true), "<p></p>");
}

#[test]
fn lt_is_escaped() {
    assert_eq!(text("a<b", false), "a\\lt b");
    assert_eq!(text("a > b", false), "a > b");
}

#[test]
fn images_and_links() {
    assert_eq!(text("![](pic.png)", false), "<img src=\"pic.png\" />");
    assert_eq!(text("[site](http://x.org)", false), "<a href=\"http://x.org\" >site</a>");
    assert_eq!(text("see [[Page]] now", false), "see <a href=\"Page\" >Page</a> now");
}

#[test]
fn emphasis() {
    assert_eq!(text("***x***", false), "<strong><em>x</em></strong>");
    assert_eq!(text("_**x**_", false), "<strong><em>x</em></strong>");
    assert_eq!(text("__*x*__", false), "<strong><em>x</em></strong>");
    assert_eq!(text("**_x_**", false), "<strong><em>x</em></strong>");
    assert_eq!(text("*__x__*", false), "<strong><em>x</em></strong>");
    assert_eq!(text("___x___", false), "<strong><em>x</em></strong>");
    assert_eq!(text("**b**", false), "<strong>b</strong>");
    assert_eq!(text("__b__", false), "<strong>b</strong>");
    assert_eq!(text("*i*", false), "<em>i</em>");
    assert_eq!(text("_i_", false), "<em>i</em>");
    assert_eq!(text("`code`", false), "<code>code</code>");
}

#[test]
fn each_pattern_replaces_its_first_match_only() {
    assert_eq!(text("**b** and **c**", false), "<strong>b</strong> and *<em>c</em>*");
    assert_eq!(text("`a` `b`", false), "<code>a</code> `b`");
}

#[test]
fn markup_in_a_paragraph() {
    assert_eq!(
        text("a **b** `c` < d", true),
        "<p>a <strong>b</strong> <code>c</code> \\lt  d</p>"
    );
}
