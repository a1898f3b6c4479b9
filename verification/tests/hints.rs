use drft::hints::{Hint, Hints};

#[test]
fn text_renders_locus_and_next() {
    let text = Hint::new("zero-match-selector", "matched no nodes")
        .at("docs/*.rs")
        .with_next("widen the pattern")
        .format_text();
    assert_eq!(
        text,
        "hint[zero-match-selector]: docs/*.rs (matched no nodes)\n  next: widen the pattern"
    );
}

#[test]
fn text_omits_locus_when_absent() {
    let text = Hint::new("large-projection", "412 nodes, 180KB").format_text();
    assert_eq!(text, "hint[large-projection]: 412 nodes, 180KB");
}

#[test]
fn color_rendering_carries_the_same_content() {
    let hint = Hint::new("large-projection", "412 nodes")
        .at("docs/")
        .with_next("narrow it");
    let colored = hint.format_text_color();
    for fragment in ["large-projection", "docs/", "412 nodes", "narrow it"] {
        assert!(
            colored.contains(fragment),
            "missing {fragment}: {colored:?}"
        );
    }
    assert!(colored.contains("\x1b["), "expected escapes: {colored:?}");
    assert!(!hint.format_text().contains("\x1b["));
}

#[test]
fn delivery_is_recorded_not_assumed() {
    let mut hints = Hints::default();
    hints.push(Hint::new("a", "one"));
    assert!(!hints.delivered());
    hints.mark_delivered();
    assert!(hints.delivered());
}

#[test]
fn a_locus_carrying_a_newline_stays_on_one_line() {
    let h = Hint::new("directory-lock", "carries no content").at("we\nird");
    assert_eq!(
        h.format_text(),
        "hint[directory-lock]: we\\nird (carries no content)"
    );
    assert!(h.locus.as_deref().unwrap().contains('\n'));
}

#[test]
fn the_colour_renderer_escapes_the_locus_too() {
    let h = Hint::new("directory-lock", "carries no content").at("we\nird");
    let colored = h.format_text_color();
    assert_eq!(colored.lines().count(), 1, "{colored:?}");
    assert!(colored.contains("we\\nird"), "{colored:?}");
}

#[test]
fn a_message_and_a_next_carrying_newlines_stay_on_their_own_lines() {
    let h = Hint::new("edge-keys-matched-nothing", "declares `so\nurces`")
        .at("graphs.we\nird")
        .with_next("check `so\nurces`");
    let text = h.format_text();
    assert_eq!(text.lines().count(), 2, "{text:?}");
    for fragment in [
        "graphs.we\\nird",
        "declares `so\\nurces`",
        "check `so\\nurces`",
    ] {
        assert!(text.contains(fragment), "missing {fragment}: {text:?}");
    }
    assert_eq!(h.format_text_color().lines().count(), 2);
    assert!(h.message.contains('\n') && h.next.as_deref().unwrap().contains('\n'));
}

#[test]
fn the_collection_keeps_hints_in_order() {
    let mut hints = Hints::default();
    assert!(hints.is_empty());
    hints.push(Hint::new("a", "one"));
    hints.extend(vec![Hint::new("b", "two"), Hint::new("c", "three")]);
    assert!(!hints.is_empty());
    let names: Vec<&str> = hints.as_slice().iter().map(|h| h.name.as_str()).collect();
    assert_eq!(names, vec!["a", "b", "c"]);
}

fn strip_escapes(s: &str) -> String {
    let mut out = String::new();
    let mut chars = s.chars().peekable();
    while let Some(c) = chars.next() {
        if c == '\x1b' && chars.peek() == Some(&'[') {
            chars.next();
            for d in chars.by_ref() {
                if d == 'm' {
                    break;
                }
            }
        } else {
            out.push(c);
        }
    }
    out
}

#[test]
fn stripping_the_colour_gives_the_plain_hint_back() {
    let hints = [
        Hint::new("large-projection", "412 nodes").at("docs/").with_next("narrow it"),
        Hint::new("zero-match-selector", "matched no nodes").at("docs/*.rs"),
        Hint::new("large-projection", "412 nodes, 180KB"),
        Hint::new("a", "two\nlines").with_next("tab\there"),
    ];
    for h in hints {
        let colored = h.format_text_color();
        assert!(colored.starts_with("\x1b["));
        assert!(!h.format_text().contains('\x1b'));
        assert_eq!(strip_escapes(&colored), h.format_text());
    }
}
