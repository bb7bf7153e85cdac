//! Tests of numbers as they are written.
use styx::schema::number::{push_decimal, writes_float, writes_integer};

#[test]
fn integers() {
    for s in [
        "0", "+0", "-0", "42", "-42", "+7", "007", "9223372036854775807", "-9223372036854775808",
    ] {
        assert!(writes_integer(s), "{}", s);
        assert!(s.parse::<i64>().is_ok(), "{}", s);
    }
    for s in [
        "", "+", "-", "1.0", " 1", "1 ", "1_000", "0x10", "--1", "+-1", "٣",
        "9223372036854775808", "-9223372036854775809", "99999999999999999999999999",
    ] {
        assert!(!writes_integer(s), "{}", s);
        assert!(s.parse::<i64>().is_err(), "{}", s);
    }
}

#[test]
fn floats() {
    for s in [
        "0", "5.", ".5", "3.14", "-3.14", "+2", "1e5", "1E5", "1.e5", ".5e-3", "2.5E+10", "inf",
        "-INF", "Infinity", "+infinity", "nan", "NaN", "-nan",
    ] {
        assert!(writes_float(s), "{}", s);
        assert!(s.parse::<f64>().is_ok(), "{}", s);
    }
    for s in [
        "", ".", "+", "-.", "e5", "1e", "1e+", "1.2.3", "1 ", " 1", "infin", "nano", "0x1", "1_0",
        "--1", ".e1", "1e5.0",
    ] {
        assert!(!writes_float(s), "{}", s);
        assert!(s.parse::<f64>().is_err(), "{}", s);
    }
}

#[test]
fn decimals() {
    for n in [0usize, 7, 10, 99, 100, 65535, usize::MAX] {
        let mut out = String::from("#");
        push_decimal(n, &mut out);
        assert_eq!(out, format!("#{}", n));
    }
}
