use md::parser::config::MarkdownConfig;
use md::result::MarkdownError;
use md::{Block, Inline, MarkdownParser};

fn parse(input: &[u8]) -> Vec<Block> {
    MarkdownParser::new(input).read_all().unwrap()
}

fn chunk(s: &str) -> Inline {
    Inline::Chunk(s.to_string())
}

fn para(s: &str) -> Block {
    Block::Paragraph(vec![chunk(s)])
}

#[test]
fn empty_buffer_gives_empty_document() {
    let mut p = MarkdownParser::new(b"");
    assert_eq!(p.read_all(), Ok(vec![]));
    assert_eq!(p.next(), Ok(None));
}

#[test]
fn blank_only_buffer_gives_empty_document() {
    assert_eq!(parse(b"   \n\n  "), vec![]);
}

#[test]
fn atx_heading_strips_closing_hashes() {
    assert_eq!(
        parse(b"## Hello ##\n"),
        vec![Block::Heading { level: 2, content: vec![chunk("Hello")] }]
    );
}

#[test]
fn atx_heading_without_newline_keeps_last_byte() {
    assert_eq!(
        parse(b"# Hi"),
        vec![Block::Heading { level: 1, content: vec![chunk("Hi")] }]
    );
}

#[test]
fn atx_heading_level_is_capped_at_six() {
    assert_eq!(
        parse(b"####### x\n"),
        vec![Block::Heading { level: 6, content: vec![chunk("# x")] }]
    );
}

#[test]
fn atx_heading_at_end_of_input_is_empty() {
    assert_eq!(parse(b"###"), vec![Block::Heading { level: 3, content: vec![] }]);
}

#[test]
fn setext_heading_is_a_single_block() {
    assert_eq!(
        parse(b"Title\n=====\n"),
        vec![Block::Heading { level: 1, content: vec![chunk("Title")] }]
    );
}

#[test]
fn setext_heading_after_paragraph_lines() {
    assert_eq!(
        parse(b"a\nb\n---\n"),
        vec![para("a"), Block::Heading { level: 2, content: vec![chunk("b")] }]
    );
}

#[test]
fn blockquote_ends_at_blank_line_before_plain_line() {
    assert_eq!(
        parse(b"> a\n\nb\n"),
        vec![Block::BlockQuote(vec![para("a")]), para("b")]
    );
}

#[test]
fn blockquote_ends_at_line_without_prefix() {
    assert_eq!(parse(b"> a\nb\n"), vec![Block::BlockQuote(vec![para("a")]), para("b")]);
    assert_eq!(parse(b"> a\n> b\n"), vec![Block::BlockQuote(vec![para("a\nb")])]);
}

#[test]
fn code_block_keeps_blank_lines() {
    assert_eq!(
        parse(b"    code\n\n    more\n"),
        vec![Block::BlockCode { tag: None, content: "code\n\nmore\n".to_string() }]
    );
}

#[test]
fn horizontal_rules() {
    assert_eq!(parse(b"---\n"), vec![Block::HorizontalRule]);
    assert_eq!(parse(b"  * * *\n"), vec![Block::HorizontalRule]);
    assert_eq!(parse(b"- - -\n"), vec![Block::HorizontalRule]);
    assert_eq!(parse(b"___   \n"), vec![Block::HorizontalRule]);
}

#[test]
fn paragraph_ends_before_heading_which_comes_next() {
    assert_eq!(
        parse(b"text\n# H\n"),
        vec![para("text"), Block::Heading { level: 1, content: vec![chunk("H")] }]
    );
}

#[test]
fn paragraph_ends_before_rule_and_quote() {
    assert_eq!(parse(b"a\n***\n"), vec![para("a"), Block::HorizontalRule]);
    assert_eq!(
        parse(b"a\n> q\n"),
        vec![para("a"), Block::BlockQuote(vec![para("q")])]
    );
}

#[test]
fn unordered_list_items() {
    assert_eq!(
        parse(b"- a\n- b\n"),
        vec![Block::UnorderedList { items: vec![vec![para("a")], vec![para("b")]] }]
    );
}

#[test]
fn ordered_list_keeps_start_index() {
    assert_eq!(
        parse(b"3. x\n4. y\n"),
        vec![Block::OrderedList { start_index: 3, items: vec![vec![para("x")], vec![para("y")]] }]
    );
}

#[test]
fn list_kind_change_starts_a_new_list() {
    assert_eq!(
        parse(b"- a\n1) b\n"),
        vec![
            Block::UnorderedList { items: vec![vec![para("a")]] },
            Block::OrderedList { start_index: 1, items: vec![vec![para("b")]] },
        ]
    );
}

#[test]
fn list_item_continuation_lines() {
    assert_eq!(
        parse(b"* a\n  b\n\nc\n"),
        vec![Block::UnorderedList { items: vec![vec![para("a\nb")]] }, para("c")]
    );
}

#[test]
fn invalid_utf8_is_a_parse_error() {
    let r = MarkdownParser::new(b"\xff\n").read_all();
    assert!(matches!(r, Err(MarkdownError::ParseError(_))));
}

#[test]
fn invalid_utf8_in_code_block_is_a_parse_error() {
    let r = MarkdownParser::new(b"    \xc3\n").read_all();
    assert!(matches!(r, Err(MarkdownError::ParseError(_))));
}

#[test]
fn non_ascii_text_is_decoded() {
    assert_eq!(parse("caf\u{e9}\n".as_bytes()), vec![para("caf\u{e9}")]);
}

#[test]
fn parsing_twice_gives_equal_trees() {
    let input = b"# T\n\n> q *e*\n\n- [l](u)\n\ntext `c` **s**\n";
    assert_eq!(parse(input), parse(input));
}

#[test]
fn trim_newlines_can_be_switched_off() {
    let config = MarkdownConfig::default().trim_newlines(false);
    let doc = MarkdownParser::new(b"a\nb\n").with_config(config).read_all().unwrap();
    assert_eq!(doc, vec![para("a\nb\n")]);
}

#[test]
fn config_default_trims_newlines() {
    assert!(MarkdownConfig::default().trim_newlines);
}

#[test]
fn next_hands_out_queued_block_after_paragraph() {
    let mut p = MarkdownParser::new(b"a\n---x\n# H\n");
    assert_eq!(p.next(), Ok(Some(para("a\n---x"))));
    assert_eq!(
        p.next(),
        Ok(Some(Block::Heading { level: 1, content: vec![chunk("H")] }))
    );
    assert_eq!(p.next(), Ok(None));
}

use md::parser::block::{
    AtxHeadingParser, BlockCodeParser, BlockQuoteParser, ListsParser, MiscParser,
};
use md::parser::ParseResult;

#[test]
fn productions_that_do_not_apply_consume_nothing() {
    let mut p = MarkdownParser::new(b"  x\n");
    assert!(matches!(p.parse_block_quote(), Ok(ParseResult::NoParse)));
    assert!(matches!(p.parse_block_code(), Ok(ParseResult::NoParse)));
    assert!(matches!(p.parse_horizontal_rule(), Ok(ParseResult::NoParse)));
    assert!(matches!(p.parse_atx_heading(), Ok(ParseResult::NoParse)));
    assert!(matches!(p.parse_list(), Ok(ParseResult::NoParse)));
    assert_eq!(p.read_all(), Ok(vec![para("  x")]));
}

#[test]
fn productions_at_end_of_input() {
    let mut p = MarkdownParser::new(b"");
    assert!(matches!(p.parse_atx_heading(), Ok(ParseResult::End)));
    assert!(matches!(p.parse_paragraph(), Ok(ParseResult::End)));
}

#[test]
fn ordered_list_with_two_digit_start() {
    assert_eq!(
        parse(b"10. a\n"),
        vec![Block::OrderedList { start_index: 10, items: vec![vec![para("a")]] }]
    );
}

#[test]
fn code_span_with_double_backticks() {
    assert_eq!(
        parse(b"``a`b``\n"),
        vec![Block::Paragraph(vec![Inline::Code("a`b".to_string())])]
    );
}

#[test]
fn ordered_list_stops_before_bullet_line() {
    assert_eq!(
        parse(b"1. a\n- b\n"),
        vec![
            Block::OrderedList { start_index: 1, items: vec![vec![para("a")]] },
            Block::UnorderedList { items: vec![vec![para("b")]] },
        ]
    );
}

#[test]
fn code_block_stops_at_unindented_line() {
    assert_eq!(
        parse(b"    a\n\n    b\nc\n"),
        vec![Block::BlockCode { tag: None, content: "a\n\nb\n".to_string() }, para("c")]
    );
}

#[test]
fn ten_digit_marker_is_not_a_list() {
    assert_eq!(parse(b"1234567890. a\n"), vec![para("1234567890. a")]);
}

#[test]
fn spaced_rule_interrupts_paragraph() {
    assert_eq!(parse(b"a\n* * *\n"), vec![para("a"), Block::HorizontalRule]);
}

#[test]
fn multibyte_text_in_heading_and_quote() {
    assert_eq!(
        parse("# \u{e9}t\u{e9}\n> \u{fc}\n".as_bytes()),
        vec![
            Block::Heading { level: 1, content: vec![chunk("\u{e9}t\u{e9}")] },
            Block::BlockQuote(vec![para("\u{fc}")]),
        ]
    );
}

#[test]
fn blank_line_inside_quote_separates_paragraphs() {
    assert_eq!(
        parse(b"> a\n\n> b\n"),
        vec![Block::BlockQuote(vec![para("a"), para("b")])]
    );
}

#[test]
fn paragraph_before_setext_and_atx_headings() {
    let mut p = MarkdownParser::new(b"a\nb\n---\n");
    assert!(matches!(p.parse_paragraph(), Ok(ParseResult::Success(Block::Paragraph(_)))));
    assert_eq!(p.next(), Ok(Some(Block::Heading { level: 2, content: vec![chunk("b")] })));
    let mut q = MarkdownParser::new(b"a\n# B\n");
    assert_eq!(q.next(), Ok(Some(para("a"))));
    assert_eq!(q.next(), Ok(Some(Block::Heading { level: 1, content: vec![chunk("B")] })));
}

#[test]
fn blank_lines_between_items_keep_one_list() {
    assert_eq!(
        parse(b"- a\n\n- b\nc\n\nd\n"),
        vec![
            Block::UnorderedList { items: vec![vec![para("a")], vec![para("b\nc")]] },
            para("d"),
        ]
    );
}
