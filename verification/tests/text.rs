use vivoh_quic_dash::text::{
    bytes_at, chars_of, has_suffix, push_byte_list, push_decimal, push_padded, stands_at,
};

fn decimal(n: u64) -> String {
    let mut s = String::from("<");
    push_decimal(&mut s, n);
    s
}

fn padded(n: u64, width: usize) -> String {
    let mut s = String::from("<");
    push_padded(&mut s, n, width);
    s
}

fn list(bytes: &[u8]) -> String {
    let mut s = String::from("<");
    push_byte_list(&mut s, bytes);
    s
}

#[test]
fn decimal_digits() {
    assert_eq!(decimal(0), "<0");
    assert_eq!(decimal(9), "<9");
    assert_eq!(decimal(10), "<10");
    assert_eq!(decimal(u64::MAX), format!("<{}", u64::MAX));
}

#[test]
fn padded_digits() {
    assert_eq!(padded(7, 0), "<7");
    assert_eq!(padded(7, 1), "<7");
    assert_eq!(padded(7, 5), "<00007");
    assert_eq!(padded(123456, 5), "<123456");
    assert_eq!(padded(99999, 5), format!("<{:05}", 99999));
}

#[test]
fn lists_of_bytes() {
    let empty: [u8; 0] = [];
    assert_eq!(list(&empty), format!("<{:?}", empty));
    assert_eq!(list(b"m"), "<[109]");
    assert_eq!(list(b"moov"), format!("<{:?}", b"moov"));
    assert_eq!(list(&[0, 255, 10]), "<[0, 255, 10]");
}

#[test]
fn suffixes() {
    assert!(has_suffix("/live/pub", "/pub"));
    assert!(has_suffix("/pub", "/pub"));
    assert!(!has_suffix("pub", "/pub"));
    assert!(!has_suffix("/pub/", "/pub"));
    assert!(has_suffix("", ""));
    assert!(has_suffix("\u{e9}/pub", "/pub"));
}

#[test]
fn characters() {
    assert_eq!(chars_of("a\u{e9}\u{1f600}"), vec!['a', '\u{e9}', '\u{1f600}']);
}

#[test]
fn parts_stand_where_they_stand() {
    let chars = chars_of("a/pub");
    assert!(stands_at(&chars, 1, &chars_of("/pub")));
    assert!(!stands_at(&chars, 0, &chars_of("/pub")));
    assert!(stands_at(&chars, 5, &chars_of("")));
    let bytes = b"xxmoov".to_vec();
    assert!(bytes_at(&bytes, 2, &b"moov".to_vec()));
    assert!(!bytes_at(&bytes, 1, &b"moov".to_vec()));
    assert!(!bytes_at(&bytes, 2, &b"moof".to_vec()));
}
