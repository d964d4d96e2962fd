use chomp::ascii::CharClass;
use chomp::input::{Input, ParseResult};
use chomp::parsers::{
    any, fail, map_err, satisfy, string, take, take_while, take_while1, then, token, ParseError,
    Parser,
};

fn at(pos: usize, end: bool) -> Input {
    Input::at(pos, end)
}

#[test]
fn single_item_parsers() {
    let i = Input::new(false);
    assert_eq!(any().parse(b"xy", i), ParseResult::Data(at(1, false), b'x'));
    assert_eq!(any().parse(b"", i), ParseResult::Incomplete(at(0, false), 1));
    assert_eq!(token(b'x').parse(b"xy", i), ParseResult::Data(at(1, false), b'x'));
    assert_eq!(token(b'y').parse(b"xy", i), ParseResult::Error(at(0, false), ParseError::Expected(b'y')));
    assert_eq!(token(b'y').parse(b"xy", Input::at(1, false)), ParseResult::Data(at(2, false), b'y'));
    assert_eq!(satisfy(CharClass::Alpha).parse(b"Q1", i), ParseResult::Data(at(1, false), b'Q'));
    assert_eq!(satisfy(CharClass::Digit).parse(b"Q1", i), ParseResult::Error(at(0, false), ParseError::Unexpected));
    assert_eq!(fail::<&str>("no").parse(b"abc", i), ParseResult::Error(at(0, false), "no"));
}

#[test]
fn run_parsers() {
    let d = Input::new(false);
    let e = Input::new(true);
    assert_eq!(take(2).parse(b"abc", d), ParseResult::Data(at(2, false), b"ab".to_vec()));
    assert_eq!(take(5).parse(b"abc", d), ParseResult::Incomplete(at(0, false), 2));
    assert_eq!(string(b"ab").parse(b"abc", d), ParseResult::Data(at(2, false), b"ab".to_vec()));
    assert_eq!(string(b"ab").parse(b"ac", d), ParseResult::Error(at(1, false), ParseError::Expected(b'b')));
    assert_eq!(string(b"abc").parse(b"ab", e), ParseResult::Incomplete(at(0, true), 1));
    assert_eq!(take_while(CharClass::Lowercase).parse(b"abC", d), ParseResult::Data(at(2, false), b"ab".to_vec()));
    assert_eq!(take_while(CharClass::Lowercase).parse(b"ab", d), ParseResult::Incomplete(at(0, false), 1));
    assert_eq!(take_while(CharClass::Lowercase).parse(b"ab", e), ParseResult::Data(at(2, true), b"ab".to_vec()));
    assert_eq!(take_while(CharClass::Uppercase).parse(b"ab", e), ParseResult::Data(at(0, true), vec![]));
    assert_eq!(take_while1(CharClass::Uppercase).parse(b"ab", e), ParseResult::Error(at(0, true), ParseError::Unexpected));
    assert_eq!(take_while1(CharClass::Alphanumeric).parse(b"a1-", e), ParseResult::Data(at(2, true), b"a1".to_vec()));
    assert_eq!(take_while1(CharClass::EndOfLine).parse(b"", e), ParseResult::Incomplete(at(0, true), 1));
    assert_eq!(take_while(CharClass::HorizontalSpace).parse(b" \t\n", e), ParseResult::Data(at(2, true), b" \t".to_vec()));
}

#[test]
fn sequencing_and_errors() {
    let d = Input::new(false);
    assert_eq!(then(token(b'a'), token(b'b')).parse(b"abc", d), ParseResult::Data(at(2, false), b'b'));
    assert_eq!(then(token(b'a'), token(b'b')).parse(b"bbc", d), ParseResult::Error(at(0, false), ParseError::Expected(b'a')));
    assert_eq!(then(token(b'a'), token(b'b')).parse(b"a", d), ParseResult::Incomplete(at(1, false), 1));
    assert_eq!(map_err(token(b'a'), 7u32).parse(b"b", d), ParseResult::Error(at(0, false), 7));
    assert_eq!(map_err(token(b'a'), 7u32).parse(b"a", d), ParseResult::Data(at(1, false), b'a'));
}

#[test]
fn cursor_operations() {
    let i = Input::at(2, true);
    assert!(i.is_end());
    assert_eq!(i.position(), 2);
    assert_eq!(i.ret::<u8, ()>(5), ParseResult::Data(i, 5));
    assert_eq!(i.err::<u8, &str>("e"), ParseResult::Error(i, "e"));
    assert_eq!(i.incomplete::<u8, ()>(3), ParseResult::Incomplete(i, 3));
    let r: ParseResult<u8, ()> = i.incomplete(3);
    assert!(r.is_incomplete() && !r.is_data() && !r.is_error());
    assert_eq!(r.input(), i);
}
