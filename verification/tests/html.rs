use warhammer_graph::graph::html::html_to_text;

#[test]
fn strips_scripts_and_keeps_markup_text() {
    let text = html_to_text("<script>alert(1)</script><p>Example rule.</p>\ncontinued");
    assert_eq!(text, "Example rule.\n\ncontinued");
}

#[test]
fn decodes_entities_after_tags_are_gone() {
    assert_eq!(html_to_text("&lt;b&gt;x&amp;y&#39;"), "<b>x&y'");
    assert_eq!(html_to_text("&#x41;"), "A");
    assert_eq!(html_to_text("&#xD800;"), "&#xD800;");
}

#[test]
fn collapses_runs_of_newlines_to_two() {
    assert_eq!(html_to_text("a<br><br/><br/>b"), "a\n\nb");
    assert_eq!(html_to_text("  spaced   out  "), "spaced out");
}

#[test]
fn style_blocks_and_tags_are_removed_case_insensitively() {
    assert_eq!(html_to_text("<STYLE>p{}</style>One<B>two</B>"), "Onetwo");
}

#[test]
fn named_and_decimal_entities_decode() {
    assert_eq!(html_to_text("&quot;a&quot; &apos;b&apos; c&nbsp;d &#65;"), "\"a\" 'b' c d A");
}

#[test]
fn block_closers_become_newlines() {
    assert_eq!(html_to_text("<li>x</li><li>y</li>"), "x\ny");
    assert_eq!(html_to_text("<h3>Title</h3>body"), "Title\nbody");
}

#[test]
fn plain_text_spacing_is_tidy() {
    let out = html_to_text("<p>a \t b</p>\u{a0}<br>  c \u{2003} \r\n\n\n\n  d\t\n");
    let chars: Vec<char> = out.chars().collect();
    for c in &chars {
        if c.is_whitespace() {
            assert!(*c == ' ' || *c == '\n');
        }
    }
    for pair in chars.windows(2) {
        assert!(!(pair[0] == ' ' && pair[1].is_whitespace()));
        assert!(!(pair[0].is_whitespace() && pair[1] == ' '));
    }
    assert!(!out.contains("\n\n\n"));
    assert!(out.starts_with("a b"));
    assert!(out.ends_with('d'));
    assert!(out.contains("c\n"));
}
