use libsip::lexical::{byte_is, copy_range, number, push_decimal, same_bytes, scan, Class};

#[test]
fn classes() {
    assert!(Class::Alpha.test(b'a') && Class::Alpha.test(b'Z'));
    assert!(!Class::Alpha.test(b'0') && !Class::Alpha.test(b'@') && !Class::Alpha.test(b'['));
    assert!(Class::Alnum.test(b'q') && Class::Alnum.test(b'9'));
    assert!(!Class::Alnum.test(b'-') && !Class::Alnum.test(b' '));
    assert!(Class::Digit.test(b'0') && Class::Digit.test(b'9') && !Class::Digit.test(b'a'));
    assert!(Class::Space.test(b' ') && Class::Space.test(b'\t') && !Class::Space.test(b'\n'));
    assert!(Class::Label.test(b'.') && Class::Label.test(b'-') && Class::Label.test(b'x'));
    assert!(!Class::Label.test(b':') && !Class::Label.test(b'_'));
    assert!(Class::Unquoted.test(b' ') && !Class::Unquoted.test(b'"'));
}

#[test]
fn runs() {
    assert_eq!(scan(b"abc1 def", 0, Class::Alpha), 3);
    assert_eq!(scan(b"abc1 def", 0, Class::Alnum), 4);
    assert_eq!(scan(b"abc1 def", 4, Class::Alpha), 4);
    assert_eq!(scan(b"abc", 1, Class::Alpha), 3);
    assert_eq!(scan(b"abc", 3, Class::Alpha), 3);
    assert_eq!(scan(b"", 0, Class::Space), 0);
    assert!(byte_is(b"a:b", 1, b':'));
    assert!(!byte_is(b"a:b", 0, b':'));
    assert!(!byte_is(b"a:b", 3, b':'));
    assert_eq!(copy_range(b"hello", 1, 3), b"el".to_vec());
    assert!(same_bytes(b"abc", b"abc") && same_bytes(b"", b""));
    assert!(!same_bytes(b"abc", b"abd") && !same_bytes(b"abc", b"ab"));
}

#[test]
fn numbers() {
    assert_eq!(number(b"8080;", 0, 65535), Some((8080, 4)));
    assert_eq!(number(b"x255", 1, 255), Some((255, 4)));
    assert_eq!(number(b"256", 0, 255), None);
    assert_eq!(number(b"0000000000000000000000007", 0, 255), Some((7, 25)));
    assert_eq!(number(b"99999999999999999999999999", 0, 65535), None);
    assert_eq!(number(b"", 0, 255), None);
    assert_eq!(number(b"a1", 0, 255), None);
    assert_eq!(number(b"0", 0, 0), Some((0, 1)));
}

#[test]
fn decimals() {
    let mut out = b"n=".to_vec();
    push_decimal(&mut out, 0);
    push_decimal(&mut out, 10);
    push_decimal(&mut out, 65535);
    assert_eq!(out, b"n=01065535".to_vec());
}
