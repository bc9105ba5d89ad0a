use iomon::binary64::Binary64;
use iomon::numeral::{format_fixed, parse_float};

fn of(x: f64) -> Binary64 {
    Binary64::from_bits(x.to_bits())
}

fn read(s: &str) -> Option<f64> {
    let cs: Vec<char> = s.chars().collect();
    parse_float(&cs).map(|b| f64::from_bits(b.bits))
}

fn samples() -> Vec<f64> {
    let mut v = vec![
        0.0,
        -0.0,
        0.5,
        1.5,
        2.5,
        -2.5,
        0.25,
        0.125,
        0.03125,
        0.00005,
        0.000049999,
        0.1,
        0.3,
        1.0 / 3.0,
        99.99995,
        999.99,
        1e15,
        1e16,
        1.2345678e20,
        1e22,
        1e23,
        1.7976931348623157e308,
        2.2250738585072014e-308,
        5e-324,
        1e-5,
        123456789.123456,
        4503599627370495.5,
        9007199254740993.0,
        f64::EPSILON,
    ];
    let mut state: u64 = 0x9e37_79b9_7f4a_7c15;
    for _ in 0..400 {
        state = state.wrapping_mul(6364136223846793005).wrapping_add(1442695040888963407);
        let bits = state ^ (state >> 29);
        let x = f64::from_bits(bits);
        if x.is_finite() {
            v.push(x);
        }
        v.push((state >> 20) as f64 / 65536.0);
        v.push(((state >> 40) as f64) / 10000.0);
    }
    v
}

#[test]
fn decimals_match_the_machine() {
    for x in samples() {
        for p in [0u32, 1, 2, 4] {
            assert_eq!(format_fixed(&of(x), p), format!("{:.*}", p as usize, x), "{:?} {}", x, p);
        }
    }
}

#[test]
fn what_is_no_number_has_a_name() {
    assert_eq!(format_fixed(&of(f64::NAN), 2), "NaN");
    assert_eq!(format_fixed(&of(f64::INFINITY), 2), "inf");
    assert_eq!(format_fixed(&of(f64::NEG_INFINITY), 4), "-inf");
}

#[test]
fn numerals_match_the_machine() {
    for x in samples() {
        for text in [format!("{:?}", x), format!("{:e}", x), format!("{:.4}", x), format!("{:.17e}", x)] {
            let got = read(&text).unwrap();
            assert_eq!(got.to_bits(), text.parse::<f64>().unwrap().to_bits(), "{}", text);
        }
    }
}

#[test]
fn forms_of_numerals() {
    for text in [
        "1", "+1", "-1", "1.", ".5", "-.5e-3", "00012.500", "1e5", "1E+5", "1e-5", "inf", "-inf", "+Infinity",
        "INF", "iNfInItY", "1e999999999999999999999999999999999999999", "-1e-999999999999999999999",
        "0e999999999999999999999999", "0.000000000000000000000000000000000000000000000000000000001e57",
        "123456789012345678901234567890123456789012345678901234567890",
        "2.4703282292062327208e-324", "2.4703282292062328e-324", "179769313486231580793728971405301e276",
        "1.7976931348623158e308", "1.7976931348623159e308", "9007199254740993", "9007199254740992.9999999999",
    ] {
        let got = read(text);
        let want: Option<f64> = text.parse().ok();
        assert_eq!(got.map(f64::to_bits), want.map(f64::to_bits), "{}", text);
    }
    assert!(read("nan").unwrap().is_nan());
    assert!(read("-NaN").unwrap().is_nan());
    for text in ["", "+", "-", ".", "e5", "1e", "1e+", "1 ", " 1", "1_0", "0x1", "infinit", "na", "--1", "1..2", "１"] {
        assert!(read(text).is_none(), "{:?}", text);
        assert!(text.parse::<f64>().is_err(), "{:?}", text);
    }
}

#[test]
fn decimals_read_back() {
    for x in [0.0, 88.5, 4096.0, 1048576.0, 0.0625, -3.25, 1e15] {
        let text = format_fixed(&of(x), 4);
        assert_eq!(read(&text).unwrap(), x, "{}", text);
    }
    // more than four decimals come back rounded
    assert_eq!(read(&format_fixed(&of(0.12345), 4)).unwrap(), 0.1235);
}

#[test]
fn written_numbers_keep_their_order() {
    let mut numbers: Vec<f64> = samples().into_iter().filter(|x| x.is_finite()).collect();
    numbers.sort_by(f64::total_cmp);
    let reread: Vec<f64> = numbers.iter().map(|x| read(&format_fixed(&of(*x), 4)).unwrap()).collect();
    for i in 1..reread.len() {
        assert!(reread[i - 1] <= reread[i], "{} {}", numbers[i - 1], numbers[i]);
    }
}
