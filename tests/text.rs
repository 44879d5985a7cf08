use mo_draw::text::{is_float_text, is_plain_decimal};

#[test]
fn plain_decimal_literals() {
    for s in ["0", "-1", "12.50", "-0.001", "602214076000000000000000"] {
        assert!(is_plain_decimal(&s.to_string()), "{}", s);
    }
    for s in ["", "-", ".5", "5.", "1e5", "NaN", "inf", "-inf", "+1", "1.2.3", "1 "] {
        assert!(!is_plain_decimal(&s.to_string()), "{}", s);
    }
}

#[test]
fn float_literals() {
    for s in ["1", "-1.5", "+.5", "5.", "1e10", "2.5E-3", "inf", "-Infinity", "NaN", "nan", "+INF"] {
        assert!(is_float_text(&s.to_string()), "{}", s);
        assert!(s.parse::<f64>().is_ok(), "{}", s);
    }
    for s in ["", "+", ".", "e5", "1e", "1e+", "1.2.3", "abc", "infin", "0x10", "1 ", "--1"] {
        assert!(!is_float_text(&s.to_string()), "{}", s);
        assert!(s.parse::<f64>().is_err(), "{}", s);
    }
}
