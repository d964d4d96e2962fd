use chomp::bounded::{many, Bound};
use chomp::combinators::look_ahead;
use chomp::input::{Input, ParseResult};
use chomp::parsers::{any, string, take, token, Parser};

#[test]
fn many_stays_within_bound() {
    for n in 0..6usize {
        let buf = vec![b'a'; n];
        for end in [false, true] {
            for (lo, hi) in [(0usize, 3usize), (2, 4), (1, 2), (0, 1), (0, 0)] {
                let r = many(&buf, Input::new(end), Bound::range(lo, hi), token(b'a'));
                if let ParseResult::Data(_, vs) = r {
                    assert!(lo <= vs.len() && vs.len() < hi.max(1));
                }
            }
        }
    }
}

#[test]
fn look_ahead_keeps_position() {
    let start = Input::at(1, false);
    assert_eq!(look_ahead(b"xab", start, string(b"ab")).input(), start);
    assert_eq!(look_ahead(b"xab", start, string(b"ac")).input(), start);
    assert_eq!(look_ahead(b"xab", start, take(5)).input(), start);
}

#[test]
fn restore_is_idempotent() {
    let buf = b"abcd";
    let i = Input::at(3, false);
    let m = Input::at(1, false).mark();
    let j = i.restore(m);
    let k = j.restore(j.mark());
    assert_eq!(j, k);
    assert_eq!(j.position(), 1);
    assert_eq!(any().parse(buf, j), any().parse(buf, k));
    assert_eq!(any().parse(buf, k), ParseResult::Data(Input::at(2, false), b'b'));
}
