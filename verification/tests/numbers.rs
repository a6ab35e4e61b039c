use js_adapters::numbers::{
    int32_as_text, number_as_int32, number_as_text, number_from_int32, number_is_truthy,
    text_as_number,
};

fn bits(x: f64) -> u64 {
    x.to_bits()
}

#[test]
fn number_from_int32_matches_the_hardware() {
    for v in [0, 1, -1, 2, 3, 42, -42, 1023, 65536, i32::MAX, i32::MIN, 7_654_321, -123_456_789] {
        assert_eq!(number_from_int32(v), bits(v as f64), "value {}", v);
    }
}

#[test]
fn number_as_int32_cuts_the_fraction_off() {
    assert_eq!(number_as_int32(bits(3.14)), 3);
    assert_eq!(number_as_int32(bits(-3.99)), -3);
    assert_eq!(number_as_int32(bits(0.5)), 0);
    assert_eq!(number_as_int32(bits(-0.5)), 0);
    assert_eq!(number_as_int32(bits(0.0)), 0);
    assert_eq!(number_as_int32(bits(-0.0)), 0);
    assert_eq!(number_as_int32(bits(1.0)), 1);
    assert_eq!(number_as_int32(bits(-1.0)), -1);
    assert_eq!(number_as_int32(bits(2147483647.0)), i32::MAX);
    assert_eq!(number_as_int32(bits(-2147483648.0)), i32::MIN);
}

#[test]
fn number_as_int32_wraps_modulo_two_to_the_32() {
    assert_eq!(number_as_int32(bits(2147483648.0)), i32::MIN);
    assert_eq!(number_as_int32(bits(4294967296.0)), 0);
    assert_eq!(number_as_int32(bits(4294967301.0)), 5);
    assert_eq!(number_as_int32(bits(-4294967301.0)), -5);
    assert_eq!(number_as_int32(bits(4294967295.0)), -1);
    assert_eq!(number_as_int32(bits(9007199254740993.0)), (9007199254740992u64 % 4294967296) as i32);
    assert_eq!(number_as_int32(bits(1e30)), {
        let wrapped = (1e30f64 % 4294967296.0) as i64;
        wrapped as u32 as i32
    });
    assert_eq!(number_as_int32(bits(1e300)), 0);
}

#[test]
fn number_as_int32_of_what_is_not_finite_is_zero() {
    assert_eq!(number_as_int32(bits(f64::NAN)), 0);
    assert_eq!(number_as_int32(bits(f64::INFINITY)), 0);
    assert_eq!(number_as_int32(bits(f64::NEG_INFINITY)), 0);
    assert_eq!(number_as_int32(bits(5e-324)), 0);
}

#[test]
fn number_truthiness() {
    assert!(number_is_truthy(bits(3.14)));
    assert!(number_is_truthy(bits(-1.0)));
    assert!(number_is_truthy(bits(f64::INFINITY)));
    assert!(number_is_truthy(bits(5e-324)));
    assert!(!number_is_truthy(bits(0.0)));
    assert!(!number_is_truthy(bits(-0.0)));
    assert!(!number_is_truthy(bits(f64::NAN)));
}

#[test]
fn int32_as_text_writes_decimal_digits() {
    assert_eq!(int32_as_text(0), "0");
    assert_eq!(int32_as_text(7), "7");
    assert_eq!(int32_as_text(-1), "-1");
    assert_eq!(int32_as_text(42), "42");
    assert_eq!(int32_as_text(1000), "1000");
    assert_eq!(int32_as_text(i32::MAX), "2147483647");
    assert_eq!(int32_as_text(i32::MIN), "-2147483648");
}

#[test]
fn text_as_number_reads_decimals() {
    for text in [
        "0", "1", "42", "-42", "+42", "007", "3.14", "-3.14", "0.1", "0.2", "0.3", ".5", "5.", "-.5",
        "123.456", "0.000001", "0.0000001", "2147483647", "-2147483648", "4294967296",
        "9007199254740993", "9007199254740992", "1234567890123456789", ".1234567890123456789",
        "9999999999999999999", ".0000000000000000001", "1.5", "2.5", "0.5",
        "100", "0.30000000000000004", "8.5", "0.000000000000000001",
    ] {
        assert_eq!(
            text_as_number(text),
            text.parse::<f64>().unwrap().to_bits(),
            "text {}",
            text
        );
    }
    assert_eq!(text_as_number("-0"), (-0.0f64).to_bits());
    assert_eq!(text_as_number("0.000"), 0.0f64.to_bits());
    assert_eq!(text_as_number(""), 0);
}

#[test]
fn text_as_number_refuses_what_is_no_decimal() {
    for text in [
        "abc", "-", "+", ".", "-.", "12a", "1.2.3", "1 2", "- 1", "--1", "1-", "3,14", "٣",
        "infinity", "INFINITY", "Infinity1", "++Infinity", "Infinit",
    ] {
        assert!(f64::from_bits(text_as_number(text)).is_nan(), "text {}", text);
    }
    assert!(f64::from_bits(text_as_number("12345678901234567890")).is_nan());
    assert!(f64::from_bits(text_as_number("0.0000000000000000001")).is_nan());
}

#[test]
fn text_as_number_looks_past_the_space_around_a_number() {
    assert_eq!(text_as_number(" 42 "), 42.0f64.to_bits());
    assert_eq!(text_as_number("\t3.14\n"), 3.14f64.to_bits());
    assert_eq!(text_as_number("\u{A0}-7\u{2003}\u{FEFF}"), (-7.0f64).to_bits());
    assert_eq!(text_as_number("\r\n 0.5"), 0.5f64.to_bits());
    assert_eq!(text_as_number("   "), 0);
    assert_eq!(text_as_number("\n"), 0);
    assert_eq!(text_as_number(" Infinity "), f64::INFINITY.to_bits());
}

#[test]
fn text_as_number_knows_the_infinite_by_name() {
    assert_eq!(text_as_number("Infinity"), f64::INFINITY.to_bits());
    assert_eq!(text_as_number("+Infinity"), f64::INFINITY.to_bits());
    assert_eq!(text_as_number("-Infinity"), f64::NEG_INFINITY.to_bits());
}

#[test]
fn text_as_number_agrees_with_the_machine() {
    let mut state: u64 = 0x9E37_79B9_7F4A_7C15;
    let mut tried = 0;
    while tried < 4000 {
        state ^= state << 13;
        state ^= state >> 7;
        state ^= state << 17;
        let count = 1 + (state % 19) as usize;
        let mut digits = String::new();
        let mut source = state.wrapping_mul(0x2545_F491_4F6C_DD1D);
        for _ in 0..count {
            source ^= source << 13;
            source ^= source >> 7;
            source ^= source << 17;
            digits.push(char::from(b'0' + (source % 10) as u8));
        }
        let point = (state >> 8) as usize % (count + 1);
        let text = format!("{}.{}", &digits[..point], &digits[point..]);
        let text = if (state >> 5) & 1 == 1 { format!("-{}", text) } else { text };
        assert_eq!(
            text_as_number(&text),
            text.parse::<f64>().unwrap().to_bits(),
            "text {}",
            text
        );
        tried += 1;
    }
}

#[test]
fn number_and_text_round_trip() {
    for x in [3.14, 0.1, 123.456, 1.5, 42.0, 0.000001, 1234567.875, -2.5] {
        assert_eq!(text_as_number(&number_as_text(bits(x))), bits(x), "value {}", x);
    }
    for v in [0, 1, -1, 10, -10, 99, 100, 123456, i32::MAX, i32::MIN] {
        assert_eq!(number_as_int32(text_as_number(&int32_as_text(v))), v);
    }
}

#[test]
fn number_as_text_names_whole_numbers_and_the_infinite() {
    assert_eq!(number_as_text(bits(0.0)), "0");
    assert_eq!(number_as_text(bits(-0.0)), "0");
    assert_eq!(number_as_text(bits(3.0)), "3");
    assert_eq!(number_as_text(bits(-17.0)), "-17");
    assert_eq!(number_as_text(bits(2147483647.0)), "2147483647");
    assert_eq!(number_as_text(bits(f64::NAN)), "NaN");
    assert_eq!(number_as_text(bits(f64::INFINITY)), "Infinity");
    assert_eq!(number_as_text(bits(f64::NEG_INFINITY)), "-Infinity");
}

fn script_text(x: f64) -> String {
    if x.is_nan() {
        return "NaN".to_string();
    }
    if x == 0.0 {
        return "0".to_string();
    }
    if x.is_infinite() {
        return if x > 0.0 { "Infinity".to_string() } else { "-Infinity".to_string() };
    }
    let written = format!("{:e}", x.abs());
    let (mantissa, power) = written.split_once('e').unwrap();
    let digits: String = mantissa.chars().filter(|c| *c != '.').collect();
    let k = digits.len() as i64;
    let n = power.parse::<i64>().unwrap() + 1;
    let body = if k <= n && n <= 21 {
        format!("{}{}", digits, "0".repeat((n - k) as usize))
    } else if 0 < n && n <= 21 {
        format!("{}.{}", &digits[..n as usize], &digits[n as usize..])
    } else if -6 < n && n <= 0 {
        format!("0.{}{}", "0".repeat((-n) as usize), digits)
    } else {
        let sign = if n - 1 >= 0 { "+" } else { "-" };
        if k == 1 {
            format!("{}e{}{}", digits, sign, (n - 1).abs())
        } else {
            format!("{}.{}e{}{}", &digits[..1], &digits[1..], sign, (n - 1).abs())
        }
    };
    if x < 0.0 {
        format!("-{}", body)
    } else {
        body
    }
}

#[test]
fn number_as_text_writes_the_shortest_decimal() {
    assert_eq!(number_as_text(bits(3.14)), "3.14");
    assert_eq!(number_as_text(bits(-3.14)), "-3.14");
    assert_eq!(number_as_text(bits(0.1)), "0.1");
    assert_eq!(number_as_text(bits(0.5)), "0.5");
    assert_eq!(number_as_text(bits(1.5)), "1.5");
    assert_eq!(number_as_text(bits(0.1 + 0.2)), "0.30000000000000004");
    assert_eq!(number_as_text(bits(1.0 / 3.0)), "0.3333333333333333");
    assert_eq!(number_as_text(bits(123.456)), "123.456");
    assert_eq!(number_as_text(bits(4294967296.0)), "4294967296");
    assert_eq!(number_as_text(bits(9007199254740992.0)), "9007199254740992");
    assert_eq!(number_as_text(bits(9007199254740993.0)), "9007199254740992");
    assert_eq!(number_as_text(bits(0.000001)), "0.000001");
    assert_eq!(number_as_text(bits(0.0000001)), "1e-7");
    assert_eq!(number_as_text(bits(1.5e-10)), "1.5e-10");
    assert_eq!(number_as_text(bits(1e20)), "100000000000000000000");
    assert_eq!(number_as_text(bits(1e21)), "1e+21");
    assert_eq!(number_as_text(bits(1.2345678901234568e20)), "123456789012345680000");
    assert_eq!(number_as_text(bits(1.25e30)), "1.25e+30");
    assert_eq!(number_as_text(bits(0.0009765625)), "0.0009765625");
    assert_eq!(number_as_text(bits(1024.0)), "1024");
}

#[test]
fn number_as_text_agrees_with_the_machine() {
    let mut state: u64 = 0x2545_F491_4F6C_DD1D;
    let mut tried = 0;
    while tried < 4000 {
        state ^= state << 13;
        state ^= state >> 7;
        state ^= state << 17;
        let exponent = 965 + (state >> 20) % 171;
        let fraction = state.wrapping_mul(0x9E37_79B9_7F4A_7C15) & 0x000F_FFFF_FFFF_FFFF;
        let sign = (state >> 3) & 1;
        let pattern = (sign << 63) | (exponent << 52) | fraction;
        let x = f64::from_bits(pattern);
        assert_eq!(number_as_text(pattern), script_text(x), "pattern {:#x}", pattern);
        tried += 1;
    }
    for power in -58..113 {
        let x = 2f64.powi(power);
        assert_eq!(number_as_text(bits(x)), script_text(x), "power {}", power);
        let below = f64::from_bits(bits(x) - 1);
        if power > -58 {
            assert_eq!(number_as_text(bits(below)), script_text(below), "below power {}", power);
        }
        let above = f64::from_bits(bits(x) + 1);
        assert_eq!(number_as_text(bits(above)), script_text(above), "above power {}", power);
    }
    for whole in [1.0, 10.0, 100.0, 1e15, 1e16, 1e17, 1e22, 1e23, 5e-7, 9.5, 99.99, 0.3, 2.5e-5] {
        assert_eq!(number_as_text(bits(whole)), script_text(whole), "value {}", whole);
    }
}

#[test]
fn number_as_text_reaches_the_largest_and_the_smallest() {
    assert_eq!(number_as_text(bits(f64::MAX)), "1.7976931348623157e+308");
    assert_eq!(number_as_text(bits(f64::MIN_POSITIVE)), "2.2250738585072014e-308");
    assert_eq!(number_as_text(bits(5e-324)), "5e-324");
    assert_eq!(number_as_text(bits(-5e-324)), "-5e-324");
    assert_eq!(number_as_text(bits(1e300)), "1e+300");
    assert_eq!(number_as_text(bits(-1e-40)), "-1e-40");
    assert_eq!(number_as_text(bits(1e-300)), "1e-300");
    assert_eq!(number_as_text(bits(4.9406564584124654e-324)), "5e-324");
    assert_eq!(number_as_text(bits(2.2250738585072009e-308)), "2.225073858507201e-308");
    let mut state: u64 = 0x1234_5678_9ABC_DEF1;
    let mut tried = 0;
    while tried < 1500 {
        state ^= state << 13;
        state ^= state >> 7;
        state ^= state << 17;
        let pattern = state;
        let x = f64::from_bits(pattern);
        if x.is_finite() {
            assert_eq!(number_as_text(pattern), script_text(x), "pattern {:#x}", pattern);
            tried += 1;
        }
    }
    for exponent in 0..2047u64 {
        for fraction in [0u64, 1, 0x000F_FFFF_FFFF_FFFF, 0x0008_0000_0000_0000] {
            let pattern = (exponent << 52) | fraction;
            let x = f64::from_bits(pattern);
            if x != 0.0 {
                assert_eq!(number_as_text(pattern), script_text(x), "pattern {:#x}", pattern);
            }
        }
    }
}
