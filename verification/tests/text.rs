use rudis::text::{int_error_text, parse_u64, push_decimal_text, str_eq, IntErrorKind};

#[test]
fn str_eq_compares_contents() {
    assert!(str_eq("SET", "SET"));
    assert!(!str_eq("SET", "set"));
    assert!(!str_eq("SET", "SETX"));
    assert!(str_eq("", ""));
    assert!(str_eq("é", "é"));
}

#[test]
fn parse_u64_matches_std() {
    let inputs = [
        "", "0", "7", "+7", "-7", "+", "-", "007", "12a", "a12", "18446744073709551615",
        "18446744073709551616", "99999999999999999999x", "x99999999999999999999", "é1", " 1",
    ];
    for s in inputs {
        let std = s.parse::<u64>();
        let ours = parse_u64(s);
        match (std, ours) {
            (Ok(a), Ok(b)) => assert_eq!(a, b, "input {:?}", s),
            (Err(e), Err(k)) => assert_eq!(e.to_string(), int_error_text(k), "input {:?}", s),
            (a, b) => panic!("input {:?}: std {:?}, ours {:?}", s, a, b),
        }
    }
}

#[test]
fn parse_u64_error_kinds() {
    assert_eq!(parse_u64(""), Err(IntErrorKind::Empty));
    assert_eq!(parse_u64("1-"), Err(IntErrorKind::InvalidDigit));
    assert_eq!(parse_u64("18446744073709551616"), Err(IntErrorKind::PosOverflow));
}

#[test]
fn decimal_text_reads_back() {
    for n in [0u64, 1, 9, 10, 99, 100, 12345, u64::MAX - 1, u64::MAX] {
        let mut s = String::from("x");
        push_decimal_text(&mut s, n);
        assert_eq!(s, format!("x{}", n));
        assert_eq!(parse_u64(&s[1..]), Ok(n));
    }
}
