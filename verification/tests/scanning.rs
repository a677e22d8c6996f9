//! Tests of the scanning cursor.

use mold::cursor::Cursor;

#[test]
fn new_cursor_start_at_beginning() {
    let mut c = Cursor::new("hello");
    assert_eq!(c.position(), 0);
    assert_eq!(c.next(), Some('h'));
}

#[test]
fn next_consumes_one_ascii_char() {
    let mut c = Cursor::new("hello");
    c.next();
    assert_eq!(c.position(), 1);
    assert_eq!(c.next(), Some('e'));
}

#[test]
fn next_consumes_one_utf8_char() {
    let mut c = Cursor::new("åäö");
    c.next();
    assert_eq!(c.position(), 1);
    assert_eq!(c.next(), Some('ä'));
}

#[test]
fn next_increments_byte_pos_correctly_for_utf8() {
    let mut c = Cursor::new("åäö");
    c.next();
    assert_eq!(c.position(), 1);
    assert_eq!(c.byte_offset(), 2);
}

#[test]
fn nth_wont_consume() {
    let c = Cursor::new("abcdef");
    assert_eq!(c.nth(0), Some('a'));
    assert_eq!(c.nth(0), Some('a'));
}

#[test]
fn skip_while_skips_whole_input_when_all_matching() {
    let mut c = Cursor::new("aaa");

    c.skip_while(|c| c == 'a');

    assert_eq!(c.next(), None);
}

#[test]
fn skip_while_skips_all_matching() {
    let mut c = Cursor::new("aaabbb");

    c.skip_while(|c| c == 'a');

    assert_eq!(c.next(), Some('b'));
}

#[test]
fn take_while_for_empty_string() {
    let mut c = Cursor::new("");

    let s = c.take_while(|c| c == 'a');

    assert_eq!(s, "");
}

#[test]
fn take_while_takes_whole_input_when_all_matching() {
    let mut c = Cursor::new("aaa");

    let s = c.take_while(|c| c == 'a');

    assert_eq!(s, "aaa");
    assert_eq!(c.next(), None);
}

#[test]
fn take_while_takes_all_matching() {
    let mut c = Cursor::new("aaabbb");

    let s = c.take_while(|c| c == 'a');

    assert_eq!(s, "aaa");
    assert_eq!(c.next(), Some('b'));
}

#[test]
fn second_peeks_one_ahead() {
    let c = Cursor::new("xy");
    assert_eq!(c.first(), Some('x'));
    assert_eq!(c.second(), Some('y'));
    assert_eq!(c.nth(2), None);
}

#[test]
fn skip_stops_at_end() {
    let mut c = Cursor::new("ab");
    c.skip(5);
    assert_eq!(c.position(), 2);
    assert_eq!(c.next(), None);
}

#[test]
fn input_returns_whole_buffer() {
    let mut c = Cursor::new("abc");
    c.next();
    assert_eq!(c.input(), "abc");
}
