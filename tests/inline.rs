use md::{Block, FixLinks, Inline, LinkDescription, LinkMap, MarkdownParser};

fn text_of(input: &[u8]) -> Vec<Inline> {
    let doc = MarkdownParser::new(input).read_all().unwrap();
    assert_eq!(doc.len(), 1);
    match doc.into_iter().next().unwrap() {
        Block::Paragraph(t) => t,
        other => panic!("not a paragraph: {:?}", other),
    }
}

fn chunk(s: &str) -> Inline {
    Inline::Chunk(s.to_string())
}

fn no_adjacent_chunks(t: &[Inline]) -> bool {
    t.windows(2).all(|w| !(matches!(w[0], Inline::Chunk(_)) && matches!(w[1], Inline::Chunk(_))))
}

#[test]
fn emphasis_with_inner_space() {
    assert_eq!(
        text_of(b"*a b* c\n"),
        vec![Inline::Emphasis(vec![chunk("a b")]), chunk(" c")]
    );
}

#[test]
fn strong_emphasis() {
    assert_eq!(text_of(b"**b**\n"), vec![Inline::MoreEmphasis(vec![chunk("b")])]);
}

#[test]
fn code_span_swallows_emphasis_char() {
    assert_eq!(text_of(b"`*`\n"), vec![Inline::Code("*".to_string())]);
}

#[test]
fn unclosed_emphasis_is_plain_text() {
    assert_eq!(text_of(b"*a\n"), vec![chunk("*a")]);
}

#[test]
fn emphasis_closed_by_space_is_not_taken() {
    assert_eq!(text_of(b"*a * b\n"), vec![chunk("*a * b")]);
}

#[test]
fn escapes_merge_into_one_chunk() {
    assert_eq!(text_of(b"a\\*b\\_c\n"), vec![chunk("a*b_c")]);
}

#[test]
fn backslash_before_plain_byte_stays() {
    assert_eq!(text_of(b"a\\b\n"), vec![chunk("a\\b")]);
}

#[test]
fn emphasis_skips_code_span() {
    assert_eq!(
        text_of(b"*a `*` b*\n"),
        vec![Inline::Emphasis(vec![chunk("a "), Inline::Code("*".to_string()), chunk(" b")])]
    );
}

#[test]
fn inline_link_with_title() {
    assert_eq!(
        text_of(b"[t](http://u \"T\")\n"),
        vec![Inline::Link {
            text: Some(vec![chunk("t")]),
            link: Some("http://u".to_string()),
            title: Some("T".to_string()),
            id: None,
        }]
    );
}

#[test]
fn inline_link_angle_brackets_trimmed() {
    assert_eq!(
        text_of(b"[t](<u>)\n"),
        vec![Inline::Link { text: Some(vec![chunk("t")]), link: Some("u".to_string()), title: None, id: None }]
    );
}

#[test]
fn reference_link_and_empty_id() {
    assert_eq!(
        text_of(b"[t][r]\n"),
        vec![Inline::Link { text: Some(vec![chunk("t")]), link: None, title: None, id: Some("r".to_string()) }]
    );
    assert_eq!(
        text_of(b"[t][]\n"),
        vec![Inline::Link { text: Some(vec![chunk("t")]), link: None, title: None, id: Some("t".to_string()) }]
    );
}

#[test]
fn image_link() {
    assert_eq!(
        text_of(b"![alt](img.png)\n"),
        vec![Inline::Image {
            alt: vec![chunk("alt")],
            link: Some("img.png".to_string()),
            title: None,
            id: None,
        }]
    );
}

#[test]
fn unclosed_bracket_is_plain_text() {
    assert_eq!(text_of(b"a [b\n"), vec![chunk("a [b")]);
}

#[test]
fn text_around_link_has_no_adjacent_chunks() {
    let t = text_of(b"x \\[ *y* [z] w\\] v\n");
    assert!(no_adjacent_chunks(&t));
    assert_eq!(t.len(), 5);
}

fn foo_map() -> LinkMap {
    let mut m = LinkMap::new();
    m.insert(LinkDescription { id: "foo".to_string(), link: "http://x".to_string(), title: None });
    m
}

#[test]
fn shortcut_reference_link_is_resolved() {
    let mut doc = MarkdownParser::new(b"[foo]\n").read_all().unwrap();
    doc.fix_links(&foo_map());
    assert_eq!(
        doc,
        vec![Block::Paragraph(vec![Inline::Link {
            text: Some(vec![chunk("foo")]),
            link: Some("http://x".to_string()),
            title: None,
            id: Some("foo".to_string()),
        }])]
    );
}

#[test]
fn resolution_fills_title_but_keeps_explicit_one() {
    let mut m = LinkMap::new();
    m.insert(LinkDescription { id: "a".to_string(), link: "L".to_string(), title: Some("T".to_string()) });
    let mut t = vec![
        Inline::Link { text: None, link: None, title: None, id: Some("a".to_string()) },
        Inline::Image { alt: vec![], link: None, title: Some("mine".to_string()), id: Some("a".to_string()) },
        Inline::Link { text: None, link: None, title: None, id: Some("b".to_string()) },
    ];
    t.fix_links(&m);
    assert_eq!(
        t,
        vec![
            Inline::Link { text: None, link: Some("L".to_string()), title: Some("T".to_string()), id: Some("a".to_string()) },
            Inline::Image { alt: vec![], link: Some("L".to_string()), title: Some("mine".to_string()), id: Some("a".to_string()) },
            Inline::Link { text: None, link: None, title: None, id: Some("b".to_string()) },
        ]
    );
}

#[test]
fn resolution_twice_equals_once() {
    let input = b"[foo] and *[foo][]* and > x\n\n> [foo]\n";
    let mut once = MarkdownParser::new(input).read_all().unwrap();
    once.fix_links(&foo_map());
    let mut twice = MarkdownParser::new(input).read_all().unwrap();
    twice.fix_links(&foo_map());
    twice.fix_links(&foo_map());
    assert_eq!(once, twice);
}

#[test]
fn fix_links_opt_with_none_changes_nothing() {
    let mut doc = MarkdownParser::new(b"[foo]\n").read_all().unwrap();
    let before = MarkdownParser::new(b"[foo]\n").read_all().unwrap();
    doc.fix_links_opt(None);
    assert_eq!(doc, before);
}

#[test]
fn link_map_insert_replaces() {
    let mut m = foo_map();
    m.insert(LinkDescription { id: "foo".to_string(), link: "http://y".to_string(), title: None });
    assert_eq!(m.len(), 1);
    assert_eq!(m.get(&"foo".to_string()).unwrap().link, "http://y");
    assert!(m.get(&"bar".to_string()).is_none());
}

#[test]
fn escaped_delimiter_is_text() {
    assert_eq!(text_of(b"\\*a\n"), vec![chunk("*a")]);
}

#[test]
fn emphasis_and_link_with_multibyte_text() {
    assert_eq!(
        text_of("*\u{e9}* [\u{fc}](x)\n".as_bytes()),
        vec![
            Inline::Emphasis(vec![chunk("\u{e9}")]),
            chunk(" "),
            Inline::Link { text: Some(vec![chunk("\u{fc}")]), link: Some("x".to_string()), title: None, id: None },
        ]
    );
}

#[test]
fn emphasis_skips_link_without_delimiter() {
    assert_eq!(
        text_of(b"*a [x](y) b*\n"),
        vec![Inline::Emphasis(vec![
            chunk("a "),
            Inline::Link { text: Some(vec![chunk("x")]), link: Some("y".to_string()), title: None, id: None },
            chunk(" b"),
        ])]
    );
}
