use orlice::numbers::{decimal_i32, decimal_unsigned};
use orlice::text::{digit_to_char, push_decimal};

fn chars(s: &str) -> Vec<char> {
    s.chars().collect()
}

fn i32_of(s: &str) -> Option<i32> {
    let v = chars(s);
    decimal_i32(&v, 0, v.len())
}

fn unsigned_of(s: &str, max: u32) -> Option<u32> {
    let v = chars(s);
    decimal_unsigned(&v, 0, v.len(), max)
}

#[test]
fn i32_fields_read_as_str_parse_reads_them() {
    for s in ["0", "42", "-7", "+7", "2147483647", "-2147483648", "2147483648", "-2147483649", "", "-", "+", "1-2", "٣", " 1", "007"] {
        assert_eq!(i32_of(s), s.parse::<i32>().ok(), "{s:?}");
    }
}

#[test]
fn i32_reads_a_slice() {
    let v = chars("x=-15\n");
    assert_eq!(decimal_i32(&v, 2, 5), Some(-15));
    assert_eq!(decimal_i32(&v, 2, 2), None);
}

#[test]
fn unsigned_fields_read_as_str_parse_reads_them() {
    for s in ["0", "255", "+255", "256", "-1", "", "+", "65535", "65536", "1 ", "00012"] {
        assert_eq!(unsigned_of(s, 255), s.parse::<u8>().ok().map(u32::from), "u8 {s:?}");
        assert_eq!(unsigned_of(s, 65535), s.parse::<u16>().ok().map(u32::from), "u16 {s:?}");
        assert_eq!(unsigned_of(s, u32::MAX), s.parse::<u32>().ok(), "u32 {s:?}");
    }
    assert_eq!(unsigned_of("4294967295", u32::MAX), Some(u32::MAX));
    assert_eq!(unsigned_of("4294967296", u32::MAX), None);
    assert_eq!(unsigned_of("99999999999999999999999", u32::MAX), None);
}

#[test]
fn decimal_rendering() {
    assert_eq!(digit_to_char(7), '7');
    let mut s = String::from("index ");
    push_decimal(&mut s, 0);
    assert_eq!(s, "index 0");
    let mut s = String::new();
    push_decimal(&mut s, 1234567);
    assert_eq!(s, "1234567");
    let mut s = String::new();
    push_decimal(&mut s, usize::MAX);
    assert_eq!(s, usize::MAX.to_string());
}

#[test]
fn decimal_text_reads_back() {
    for n in [0usize, 9, 10, 99, 2147483647, 4294967295] {
        let mut s = String::new();
        push_decimal(&mut s, n);
        let v = chars(&s);
        assert_eq!(decimal_unsigned(&v, 0, v.len(), u32::MAX), Some(n as u32));
        if n <= i32::MAX as usize {
            assert_eq!(decimal_i32(&v, 0, v.len()), Some(n as i32));
        }
    }
}
