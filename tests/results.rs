use md::result::{MarkdownError, PartialResult};

#[test]
fn partial_result_to_result() {
    let a: PartialResult<u32, u8, u16> = PartialResult::Success(1);
    assert_eq!(a.to_result(), Ok(1));
    let b: PartialResult<u32, u8, u16> = PartialResult::PartialSuccess(2, 9);
    assert_eq!(b.to_result(), Ok(2));
    let c: PartialResult<u32, u8, u16> = PartialResult::Failure(7);
    assert_eq!(c.to_result(), Err(7));
}

#[test]
fn parse_error_carries_message() {
    let e = MarkdownError::ParseError("m".to_string());
    assert_eq!(e.clone(), e);
}

use md::parser::ParseResult;

#[test]
fn parse_result_or_else_tries_alternative_only_on_no_parse() {
    let a: ParseResult<u32> = ParseResult::NoParse;
    assert!(matches!(a.or_else(|| ParseResult::Success(5)), ParseResult::Success(5)));
    let b: ParseResult<u32> = ParseResult::End;
    assert!(b.or_else(|| ParseResult::Success(5)).is_end());
    let c: ParseResult<u32> = ParseResult::Success(1);
    assert_eq!(c.or_else(|| ParseResult::Success(5)).unwrap(), 1);
}

#[test]
fn parse_result_map_and_to_option() {
    let a: ParseResult<u32> = ParseResult::Success(2);
    assert_eq!(a.map(|v| v * 10).to_option(), Some(20));
    let b: ParseResult<u32> = ParseResult::End;
    assert_eq!(b.map(|v| v * 10).to_option(), None);
    let c: ParseResult<u32> = ParseResult::NoParse;
    assert!(!c.map(|v| v + 1).is_success());
}
