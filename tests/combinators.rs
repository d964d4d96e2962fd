use chomp::combinators::{
    count, look_ahead, many, many1, many_till, matched_by, option, or, sep_by, sep_by1,
    skip_many1,
};
use chomp::input::{Input, ParseResult};
use chomp::parsers::{any, fail, map_err, string, take, then, token};

fn at(pos: usize, end: bool) -> Input {
    Input::at(pos, end)
}

const D: bool = false;
const E: bool = true;

#[test]
fn option_test() {
    assert_eq!(option(b"", Input::new(D), any(), b'-'), ParseResult::Incomplete(at(0, D), 1));
    assert_eq!(option(b"a", Input::new(D), any(), b'-'), ParseResult::Data(at(1, D), b'a'));
    assert_eq!(option(b"", Input::new(D), take(2), vec![]), ParseResult::Incomplete(at(0, D), 2));
    assert_eq!(option(b"a", Input::new(D), take(2), vec![]), ParseResult::Incomplete(at(0, D), 1));
    assert_eq!(option(b"ab", Input::new(D), take(2), vec![]), ParseResult::Data(at(2, D), vec![b'a', b'b']));
    assert_eq!(option(b"a", Input::new(D), map_err(token(b' '), "token_err"), b'-'), ParseResult::Data(at(0, D), b'-'));
    assert_eq!(option(b"", Input::new(E), any(), b'-'), ParseResult::Data(at(0, E), b'-'));
    assert_eq!(option(b"a", Input::new(E), any(), b'-'), ParseResult::Data(at(1, E), b'a'));
    assert_eq!(option(b"", Input::new(E), take(2), vec![]), ParseResult::Data(at(0, E), vec![]));
    assert_eq!(option(b"a", Input::new(E), take(2), vec![]), ParseResult::Data(at(0, E), vec![]));
    assert_eq!(option(b"ab", Input::new(E), take(2), vec![]), ParseResult::Data(at(2, E), vec![b'a', b'b']));
    assert_eq!(option(b"a", Input::new(E), map_err(token(b' '), "token_err"), b'-'), ParseResult::Data(at(0, E), b'-'));
}

#[test]
fn or_test() {
    assert_eq!(or(b"", Input::new(D), any(), any()), ParseResult::Incomplete(at(0, D), 1));
    assert_eq!(or(b"a", Input::new(D), any(), any()), ParseResult::Data(at(1, D), b'a'));
    assert_eq!(or(b"a", Input::new(D), take(2), take(1)), ParseResult::Incomplete(at(0, D), 1));
    assert_eq!(or(b"ab", Input::new(D), take(2), take(1)), ParseResult::Data(at(2, D), b"ab".to_vec()));
    assert_eq!(or(b"a", Input::new(D), token(b'a'), token(b'b')), ParseResult::Data(at(1, D), b'a'));
    assert_eq!(or(b"b", Input::new(D), token(b'a'), token(b'b')), ParseResult::Data(at(1, D), b'b'));
    assert_eq!(
        or(b"c", Input::new(D), map_err(token(b'a'), "a err"), map_err(token(b'b'), "b err")),
        ParseResult::Error(at(0, D), "b err")
    );
    assert_eq!(or(b"", Input::new(E), any(), any()), ParseResult::Incomplete(at(0, E), 1));
    assert_eq!(or(b"a", Input::new(E), any(), any()), ParseResult::Data(at(1, E), b'a'));
    assert_eq!(or(b"a", Input::new(E), take(2), take(1)), ParseResult::Data(at(1, E), b"a".to_vec()));
    assert_eq!(or(b"ab", Input::new(E), take(2), take(1)), ParseResult::Data(at(2, E), b"ab".to_vec()));
    assert_eq!(or(b"a", Input::new(E), token(b'a'), token(b'b')), ParseResult::Data(at(1, E), b'a'));
    assert_eq!(or(b"b", Input::new(E), token(b'a'), token(b'b')), ParseResult::Data(at(1, E), b'b'));
    assert_eq!(
        or(b"c", Input::new(E), map_err(token(b'a'), "a err"), map_err(token(b'b'), "b err")),
        ParseResult::Error(at(0, E), "b err")
    );
}

#[test]
fn many_test() {
    assert_eq!(many(b"", Input::new(D), token(b'a')), ParseResult::Incomplete(at(0, D), 1));
    assert_eq!(many(b"a", Input::new(D), token(b'a')), ParseResult::Incomplete(at(1, D), 1));
    assert_eq!(many(b"aa", Input::new(D), token(b'a')), ParseResult::Incomplete(at(2, D), 1));
    assert_eq!(many(b"bbb", Input::new(D), token(b'a')), ParseResult::Data(at(0, D), vec![]));
    assert_eq!(many(b"abb", Input::new(D), token(b'a')), ParseResult::Data(at(1, D), vec![b'a']));
    assert_eq!(many(b"aab", Input::new(D), token(b'a')), ParseResult::Data(at(2, D), vec![b'a', b'a']));
    assert_eq!(many(b"", Input::new(E), token(b'a')), ParseResult::Data(at(0, E), vec![]));
    assert_eq!(many(b"a", Input::new(E), token(b'a')), ParseResult::Data(at(1, E), vec![b'a']));
    assert_eq!(many(b"aa", Input::new(E), token(b'a')), ParseResult::Data(at(2, E), vec![b'a', b'a']));
    assert_eq!(many(b"aab", Input::new(E), token(b'a')), ParseResult::Data(at(2, E), vec![b'a', b'a']));
}

#[test]
fn many1_test() {
    assert_eq!(many1(b"", Input::new(D), token(b'a')), ParseResult::Incomplete(at(0, D), 1));
    assert_eq!(many1(b"a", Input::new(D), token(b'a')), ParseResult::Incomplete(at(1, D), 1));
    assert_eq!(many1(b"aa", Input::new(D), token(b'a')), ParseResult::Incomplete(at(2, D), 1));
    assert_eq!(
        many1(b"bbb", Input::new(D), map_err(token(b'a'), "token_error")),
        ParseResult::Error(at(0, D), "token_error")
    );
    assert_eq!(many1(b"abb", Input::new(D), token(b'a')), ParseResult::Data(at(1, D), vec![b'a']));
    assert_eq!(many1(b"aab", Input::new(D), token(b'a')), ParseResult::Data(at(2, D), vec![b'a', b'a']));
    assert_eq!(many1(b"", Input::new(E), token(b'a')), ParseResult::Incomplete(at(0, E), 1));
    assert_eq!(many1(b"a", Input::new(E), token(b'a')), ParseResult::Data(at(1, E), vec![b'a']));
    assert_eq!(many1(b"aa", Input::new(E), token(b'a')), ParseResult::Data(at(2, E), vec![b'a', b'a']));
    assert_eq!(many1(b"aab", Input::new(E), token(b'a')), ParseResult::Data(at(2, E), vec![b'a', b'a']));
}

#[test]
fn count_test() {
    assert_eq!(count(b"", Input::new(D), 3, token(b'a')), ParseResult::Incomplete(at(0, D), 1));
    assert_eq!(count(b"a", Input::new(D), 3, token(b'a')), ParseResult::Incomplete(at(1, D), 1));
    assert_eq!(count(b"aa", Input::new(D), 3, token(b'a')), ParseResult::Incomplete(at(2, D), 1));
    assert_eq!(count(b"aaa", Input::new(D), 3, token(b'a')), ParseResult::Data(at(3, D), vec![b'a', b'a', b'a']));
    assert_eq!(count(b"aaaa", Input::new(D), 3, token(b'a')), ParseResult::Data(at(3, D), vec![b'a', b'a', b'a']));
    assert_eq!(count(b"", Input::new(E), 3, token(b'a')), ParseResult::Incomplete(at(0, E), 1));
    assert_eq!(count(b"a", Input::new(E), 3, token(b'a')), ParseResult::Incomplete(at(1, E), 1));
    assert_eq!(count(b"aa", Input::new(E), 3, token(b'a')), ParseResult::Incomplete(at(2, E), 1));
    assert_eq!(count(b"aaa", Input::new(E), 3, token(b'a')), ParseResult::Data(at(3, E), vec![b'a', b'a', b'a']));
    assert_eq!(count(b"aaaa", Input::new(E), 3, token(b'a')), ParseResult::Data(at(3, E), vec![b'a', b'a', b'a']));
}

#[test]
fn skip_many1_test() {
    assert_eq!(skip_many1(b"aabc", Input::new(D), token(b'a')), ParseResult::Data(at(2, D), ()));
    assert_eq!(skip_many1(b"abc", Input::new(D), token(b'a')), ParseResult::Data(at(1, D), ()));
    assert_eq!(skip_many1(b"bc", Input::new(D), fail("error")), ParseResult::Error(at(0, D), "error"));
    // Skipping consumes exactly what `many1` consumes: the three items that
    // matched stay consumed when more input is requested.
    assert_eq!(skip_many1(b"aaa", Input::new(D), token(b'a')), ParseResult::Incomplete(at(3, D), 1));
    assert_eq!(skip_many1(b"aabc", Input::new(E), token(b'a')), ParseResult::Data(at(2, E), ()));
    assert_eq!(skip_many1(b"abc", Input::new(E), token(b'a')), ParseResult::Data(at(1, E), ()));
    assert_eq!(skip_many1(b"bc", Input::new(E), fail("error")), ParseResult::Error(at(0, E), "error"));
    assert_eq!(skip_many1(b"aaa", Input::new(E), token(b'a')), ParseResult::Data(at(3, E), ()));
}

#[test]
fn many_till_test() {
    assert_eq!(many_till(b"abcd", Input::new(D), any(), token(b'c')), ParseResult::Data(at(3, D), vec![b'a', b'b']));
    assert_eq!(many_till(b"abd", Input::new(D), any(), token(b'c')), ParseResult::Incomplete(at(3, D), 1));
    assert_eq!(
        many_till(b"abcd", Input::new(D), fail(()), map_err(token(b'c'), ())),
        ParseResult::Error(at(0, D), ())
    );
    // The element matches once and then fails: the error is passed on where
    // it happened.
    assert_eq!(
        many_till(b"abcd", Input::new(D), map_err(token(b'a'), "the error"), map_err(token(b'c'), "end err")),
        ParseResult::Error(at(1, D), "the error")
    );
}

#[test]
fn matched_by_test() {
    assert_eq!(matched_by(b"abc", Input::new(D), any()), ParseResult::Data(at(1, D), (b"a".to_vec(), b'a')));
    assert_eq!(matched_by(b"abc", Input::new(D), fail("my error")), ParseResult::Error(at(0, D), "my error"));
    assert_eq!(
        matched_by(b"abc", Input::new(D), then(map_err(any(), "any error"), fail("my error"))),
        ParseResult::Error(at(1, D), "my error")
    );
    assert_eq!(matched_by(b"", Input::new(D), any()), ParseResult::Incomplete(at(0, D), 1));
}

#[test]
fn sep_by_test() {
    assert_eq!(sep_by(b"", Input::new(E), any(), token(b';')), ParseResult::Data(at(0, E), vec![]));
    assert_eq!(sep_by(b"b", Input::new(E), token(b'a'), token(b';')), ParseResult::Data(at(0, E), vec![]));
    assert_eq!(sep_by(b"a", Input::new(E), any(), token(b';')), ParseResult::Data(at(1, E), vec![b'a']));
    assert_eq!(sep_by(b"a;c", Input::new(E), any(), token(b';')), ParseResult::Data(at(3, E), vec![b'a', b'c']));
    assert_eq!(sep_by(b"a;c;", Input::new(E), any(), token(b';')), ParseResult::Data(at(3, E), vec![b'a', b'c']));
    assert_eq!(sep_by(b"a--c-", Input::new(E), any(), string(b"--")), ParseResult::Data(at(4, E), vec![b'a', b'c']));
    assert_eq!(sep_by(b"abc", Input::new(E), any(), token(b';')), ParseResult::Data(at(1, E), vec![b'a']));
    assert_eq!(sep_by(b"a;bc", Input::new(E), any(), token(b';')), ParseResult::Data(at(3, E), vec![b'a', b'b']));
    assert_eq!(sep_by(b"abc", Input::new(D), any(), token(b';')), ParseResult::Data(at(1, D), vec![b'a']));
    assert_eq!(sep_by(b"a;bc", Input::new(D), any(), token(b';')), ParseResult::Data(at(3, D), vec![b'a', b'b']));
    assert_eq!(sep_by(b"", Input::new(D), any(), token(b';')), ParseResult::Incomplete(at(0, D), 1));
    assert_eq!(sep_by(b"a", Input::new(D), any(), token(b';')), ParseResult::Incomplete(at(1, D), 1));
    assert_eq!(sep_by(b"a;", Input::new(D), any(), token(b';')), ParseResult::Incomplete(at(2, D), 1));
    assert_eq!(sep_by(b"a;c", Input::new(D), any(), token(b';')), ParseResult::Incomplete(at(3, D), 1));
    assert_eq!(sep_by(b"a;c;", Input::new(D), any(), token(b';')), ParseResult::Incomplete(at(4, D), 1));
    assert_eq!(sep_by(b"a--c-", Input::new(D), any(), string(b"--")), ParseResult::Incomplete(at(4, D), 1));
    assert_eq!(
        sep_by(b"aaa--a", Input::new(D), string(b"aaa"), string(b"--")),
        ParseResult::Incomplete(at(5, D), 2)
    );
}

#[test]
fn sep_by1_test() {
    assert_eq!(sep_by1(b"", Input::new(E), any(), token(b';')), ParseResult::Incomplete(at(0, E), 1));
    assert_eq!(
        sep_by1(b"b", Input::new(E), fail("my err"), map_err(token(b';'), "token_err")),
        ParseResult::Error(at(0, E), "my err")
    );
    assert_eq!(sep_by1(b"a", Input::new(E), any(), token(b';')), ParseResult::Data(at(1, E), vec![b'a']));
    assert_eq!(sep_by1(b"a;c", Input::new(E), any(), token(b';')), ParseResult::Data(at(3, E), vec![b'a', b'c']));
    assert_eq!(sep_by1(b"a;c;", Input::new(E), any(), token(b';')), ParseResult::Data(at(3, E), vec![b'a', b'c']));
    assert_eq!(sep_by1(b"a--c-", Input::new(E), any(), string(b"--")), ParseResult::Data(at(4, E), vec![b'a', b'c']));
    assert_eq!(sep_by1(b"abc", Input::new(E), any(), token(b';')), ParseResult::Data(at(1, E), vec![b'a']));
    assert_eq!(sep_by1(b"a;bc", Input::new(E), any(), token(b';')), ParseResult::Data(at(3, E), vec![b'a', b'b']));
    assert_eq!(sep_by1(b"abc", Input::new(D), any(), token(b';')), ParseResult::Data(at(1, D), vec![b'a']));
    assert_eq!(sep_by1(b"a;bc", Input::new(D), any(), token(b';')), ParseResult::Data(at(3, D), vec![b'a', b'b']));
    assert_eq!(sep_by1(b"", Input::new(D), any(), token(b';')), ParseResult::Incomplete(at(0, D), 1));
    assert_eq!(sep_by1(b"a", Input::new(D), any(), token(b';')), ParseResult::Incomplete(at(1, D), 1));
    assert_eq!(sep_by1(b"a;", Input::new(D), any(), token(b';')), ParseResult::Incomplete(at(2, D), 1));
    assert_eq!(sep_by1(b"a;c", Input::new(D), any(), token(b';')), ParseResult::Incomplete(at(3, D), 1));
    assert_eq!(sep_by1(b"a;c;", Input::new(D), any(), token(b';')), ParseResult::Incomplete(at(4, D), 1));
    assert_eq!(sep_by1(b"a--c-", Input::new(D), any(), string(b"--")), ParseResult::Incomplete(at(4, D), 1));
    assert_eq!(
        sep_by1(b"aaa--a", Input::new(D), string(b"aaa"), string(b"--")),
        ParseResult::Incomplete(at(5, D), 2)
    );
}

#[test]
fn look_ahead_test() {
    assert_eq!(look_ahead(b"abc", Input::new(D), any()), ParseResult::Data(at(0, D), b'a'));
    assert_eq!(look_ahead(b"a", Input::new(D), string(b"abc")), ParseResult::Incomplete(at(0, D), 2));
    assert_eq!(
        look_ahead(b"aa", Input::new(D), map_err(then(token(b'a'), token(b'b')), "err")),
        ParseResult::Error(at(0, D), "err")
    );
}
