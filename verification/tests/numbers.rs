use chrono::DateTime;
use vigil::arithmetic::{add, fraction_of, mean, rank_of, sum};
use vigil::decimal::{decimal, parse_number};
use vigil::json::Json;
use vigil::literal::read_number;
use vigil::narrowing::narrow;
use vigil::time::{from_timestamp_millis, parse_rfc3339, Timestamp, MAX_SECS, MIN_SECS};
use vigil::value::Value;

#[test]
fn narrowing_rounds_like_the_machine() {
    let mut cases: Vec<u64> = vec![
        0,
        1,
        0x8000_0000_0000_0000,
        0x7ff0_0000_0000_0000,
        0xfff0_0000_0000_0000,
    ];
    // Around each power of two that matters, with fractions that are short of, at and past the
    // middle between two numbers of single precision.
    for exponent in [1u64, 871, 872, 873, 880, 895, 896, 897, 898, 1022, 1023, 1024, 1149, 1150, 1151, 2046] {
        for fraction in [
            0u64,
            1,
            0x0fff_ffff,
            0x1000_0000,
            0x1000_0001,
            0x2fff_ffff,
            0x3000_0000,
            0x8_0000_0000_0000,
            0xf_ffff_efff_ffff,
            0xf_ffff_f000_0000,
            0xf_ffff_ffff_ffff,
        ] {
            cases.push(exponent << 52 | fraction);
            cases.push(1 << 63 | exponent << 52 | fraction);
        }
    }
    // And a spread of patterns.
    let mut x: u64 = 0x9e37_79b9_7f4a_7c15;
    for _ in 0..20_000 {
        x ^= x << 13;
        x ^= x >> 7;
        x ^= x << 17;
        cases.push(x);
        // The same fraction with an exponent near those of single precision.
        cases.push(x & 0x800f_ffff_ffff_ffff | (860 + (x >> 52) % 300) << 52);
    }
    for bits in cases {
        let wide = f64::from_bits(bits);
        let rounded = f32::from_bits(narrow(bits));
        if wide.is_nan() {
            assert!(rounded.is_nan());
            assert_eq!(rounded.is_sign_negative(), wide.is_sign_negative());
        } else {
            assert_eq!(narrow(bits), (wide as f32).to_bits(), "{bits:x}");
        }
    }
}

#[test]
fn ties_go_to_the_even_number() {
    assert_eq!(narrow(16_777_217.0f64.to_bits()), 16_777_216.0f32.to_bits());
    assert_eq!(narrow(16_777_219.0f64.to_bits()), 16_777_220.0f32.to_bits());
    assert_eq!(narrow(f64::MAX.to_bits()), f32::INFINITY.to_bits());
    assert_eq!(narrow(f64::NAN.to_bits()), 0x7fc0_0000);
}

// Patterns at the ends of each kind of number, around the middle between two, and a spread of
// others.
fn patterns() -> Vec<u32> {
    let mut all: Vec<u32> = Vec::new();
    for exponent in [0u32, 1, 2, 23, 24, 25, 26, 103, 126, 127, 128, 150, 151, 152, 253, 254, 255] {
        for fraction in [0u32, 1, 2, 3, 0x3f_ffff, 0x40_0000, 0x40_0001, 0x7f_fffe, 0x7f_ffff] {
            all.push(exponent << 23 | fraction);
            all.push(1 << 31 | exponent << 23 | fraction);
        }
    }
    let mut x: u32 = 0x9e37_79b9;
    for _ in 0..200 {
        x ^= x << 13;
        x ^= x >> 17;
        x ^= x << 5;
        all.push(x);
        // The same fraction with an exponent near that of one.
        all.push(x & 0x807f_ffff | (113 + (x >> 23) % 28) << 23);
    }
    all
}

fn assert_same(found: u32, expected: f32, case: &str) {
    if expected.is_nan() {
        assert!(f32::from_bits(found).is_nan(), "{case}");
    } else {
        assert_eq!(found, expected.to_bits(), "{case}");
    }
}

#[test]
fn addition_rounds_like_the_machine() {
    let all = patterns();
    for a in &all {
        for b in &all {
            let expected = f32::from_bits(*a) + f32::from_bits(*b);
            assert_same(add(*a, *b), expected, &format!("{a:x} + {b:x}"));
        }
    }
}

#[test]
fn opposite_infinities_have_no_sum() {
    let infinity = f32::INFINITY.to_bits();
    assert_eq!(add(infinity, f32::NEG_INFINITY.to_bits()), 0x7fc0_0000);
    assert_eq!(add(infinity, infinity), infinity);
    assert_eq!(add(f32::MAX.to_bits(), f32::MAX.to_bits()), infinity);
    assert_eq!(add(1.5f32.to_bits(), (-1.5f32).to_bits()), 0.0f32.to_bits());
    assert_eq!(add((-0.0f32).to_bits(), (-0.0f32).to_bits()), (-0.0f32).to_bits());
}

#[test]
fn sums_and_averages_round_like_the_machine() {
    let all = patterns();
    let mut finite: Vec<u32> = all.clone();
    finite.retain(|bits| f32::from_bits(*bits).is_finite());
    for numbers in [&all, &finite] {
        for start in 0..numbers.len() {
            for len in [1usize, 2, 3, 7, 10] {
                let end = numbers.len().min(start + len);
                let some: Vec<u32> = numbers[start..end].to_vec();
                let floats: Vec<f32> = some.iter().map(|bits| f32::from_bits(*bits)).collect();
                let mut total = -0.0f32;
                for n in &floats {
                    total += n;
                }
                assert_same(sum(&some), total, "sum");
                assert_same(mean(&some), total / floats.len() as f32, "mean");
            }
        }
    }
    assert_eq!(mean(&vec![1.0f32.to_bits(), 2.0f32.to_bits()]), 1.5f32.to_bits());
}

#[test]
fn percentages_round_like_the_machine() {
    for percent in 1u8..=100 {
        assert_eq!(fraction_of(percent), (percent as f32 / 100.0).to_bits());
    }
}

#[test]
fn ranks_round_like_the_machine() {
    let lengths = [
        1usize, 2, 3, 5, 10, 99, 100, 101, 300, 1_000, 65_537, 2_000_000, 16_777_215, 16_777_216,
        16_777_217, 16_777_219, 33_554_435, 4_294_967_295, usize::MAX,
    ];
    for len in lengths {
        for percent in 1u8..=100 {
            let p = percent as f32 / 100.0;
            let rank = (p * len as f32).ceil() as usize - 1;
            assert_eq!(rank_of(p.to_bits(), len), rank, "{percent} of {len}");
            if len <= 16_777_216 {
                assert!(rank < len);
            }
        }
        let least = f32::from_bits(1);
        assert_eq!(rank_of(1, len), (least * len as f32).ceil() as usize - 1);
    }
    // The count of these is rounded up, past all of them.
    assert_eq!(rank_of(1.0f32.to_bits(), 16_777_219), 16_777_219);
}

#[test]
fn json_scalars_are_values() {
    assert_eq!(
        Value::from_json(Json::String("x".into())),
        Some(Value::String("x".into()))
    );
    assert_eq!(
        Value::from_json(Json::Number(Some(0.1f64.to_bits()))),
        Some(Value::Number(0.1f32.to_bits()))
    );
    assert_eq!(Value::from_json(Json::Number(None)), None);
    assert_eq!(Value::from_json(Json::Bool(false)), Some(Value::Bool(false)));
    assert_eq!(Value::from_json(Json::Other), None);
}

#[test]
fn tokens_are_typed() {
    let typed = Value::from_string;
    assert_eq!(typed("500"), Value::Number(500.0f32.to_bits()));
    assert_eq!(typed("-1.5e3"), Value::Number((-1500.0f32).to_bits()));
    assert_eq!(typed("true"), Value::Bool(true));
    assert_eq!(typed("false"), Value::Bool(false));
    assert_eq!(typed("True"), Value::String("True".into()));
    assert_eq!(typed("inf"), Value::Number(f32::INFINITY.to_bits()));
}

fn assert_reads_alike(text: &str) {
    let expected = text.parse::<f32>().ok();
    let found = read_number(text).map(f32::from_bits);
    match (found, expected) {
        (Some(a), Some(b)) if b.is_nan() => {
            assert!(a.is_nan() && a.is_sign_negative() == b.is_sign_negative(), "{text}")
        }
        (Some(a), Some(b)) => assert_eq!(a.to_bits(), b.to_bits(), "{text}"),
        (a, b) => assert!(a.is_none() && b.is_none(), "{text}: {a:?} {b:?}"),
    }
}

#[test]
fn literals_are_told_from_other_words() {
    for text in [
        "", "+", "-", ".", "+.", "e", "e5", ".e5", "1", "1.", ".1", "1.5", "+1.5", "-1.5", "--1",
        "+-1", "1e", "1e+", "1e-", "1e5", "1E5", "1e+5", "1e-5", "1.e5", ".1e5", "1e5.", "1e5e5",
        "1e 5", " 1", "1 ", "1_000", "0x10", "1f", "inf", "Inf", "INF", "-inf", "+INFINITY",
        "infinity", "infinit", "infinityy", "nan", "NaN", "-nan", "+nan", "nanx", "in", "i",
        "true", "ERROR", "500", "007", "00.700", "0", "-0", "+0.000", "0e999999999999999999999",
        "1e99999999999999999999999", "1e-99999999999999999999999", "٣", "1٣", "1,5", "½", "ınf",
    ] {
        assert_reads_alike(text);
    }
}

#[test]
fn literals_round_to_the_nearest_number() {
    // Exact values, and the middles between two numbers, short of them and past them.
    for bits in patterns() {
        let n = f32::from_bits(bits & 0x7fff_ffff);
        if !n.is_finite() {
            continue;
        }
        assert_reads_alike(&format!("{n}"));
        assert_reads_alike(&format!("{n:e}"));
        assert_reads_alike(&format!("-{n:.160}"));
        let next = f32::from_bits((bits & 0x7fff_ffff) + 1);
        if next.is_finite() {
            let middle = (n as f64 + next as f64) / 2.0;
            let exact = format!("{middle:.160}");
            assert_reads_alike(&exact);
            assert_reads_alike(&format!("{exact}000001"));
            assert_reads_alike(&format!("{exact}{}1", "0".repeat(900)));
            let short = exact.trim_end_matches('0').to_string();
            let (head, last) = short.split_at(short.len() - 1);
            if let Some(d) = last.chars().next().and_then(|c| c.to_digit(10)) {
                if d > 0 {
                    assert_reads_alike(&format!("{head}{}9999", d - 1));
                }
            }
        }
    }
    for text in [
        "340282346638528859811704183484516925440",
        "340282356779733661637539395458142568447",
        "340282356779733661637539395458142568448",
        "340282356779733661637539395458142568447.999",
        "1e38", "1e39", "1e-45", "1e-46", "7.006492321624085e-46", "7.006492321624086e-46",
        "0.1", "0.2", "0.3", "16777217", "16777219", "33554435.5", "123456789e-5", "9007199254740993",
    ] {
        assert_reads_alike(text);
    }
    let mut x: u64 = 0x2545_f491_4f6c_dd1d;
    for _ in 0..3_000 {
        x ^= x << 13;
        x ^= x >> 7;
        x ^= x << 17;
        let digits = x % 1_000_000_000_000;
        let exponent = (x >> 40) as i64 % 110 - 60;
        assert_reads_alike(&format!("{digits}e{exponent}"));
        assert_reads_alike(&format!("{}.{digits}", x % 1_000));
    }
}

#[test]
fn long_literals_are_read_in_full() {
    let zeros = "0".repeat(2_000);
    assert_reads_alike(&format!("1{zeros}e-2000"));
    assert_reads_alike(&format!("0.{zeros}25e2001"));
    assert_reads_alike(&format!("{zeros}7.5{zeros}"));
    assert_reads_alike(&"9".repeat(5_000));
    assert_eq!(read_number(&format!("16777217.{zeros}1")), Some(16_777_218.0f32.to_bits()));
    assert_eq!(read_number("1.5"), Some(0x3fc0_0000));
    assert_eq!(read_number("-2"), Some(0xc000_0000));
}

#[test]
fn decimals_are_written_and_read_back() {
    for n in [0, 7, 10, 99, 100, 1_048_576, u64::MAX] {
        assert_eq!(decimal(n), n.to_string());
        assert_eq!(parse_number(&decimal(n), u64::MAX), Some(n));
    }
}

#[test]
fn decimals_are_read_like_the_standard_library_does() {
    for text in ["", "+", "-", "+5", "++5", "-0", "007", "255", "256", "12a", " 1", "1_0", "٣"] {
        assert_eq!(
            parse_number(text, 255),
            text.parse::<u8>().ok().map(u64::from),
            "{text:?}"
        );
    }
    assert_eq!(parse_number("18446744073709551616", u64::MAX), None);
    assert_eq!(parse_number("18446744073709551615", u64::MAX), Some(u64::MAX));
}

#[test]
fn the_calendar_ends_where_chrono_ends() {
    assert_eq!(DateTime::from_timestamp(MIN_SECS, 0).map(|t| t.timestamp()), Some(MIN_SECS));
    assert_eq!(DateTime::from_timestamp(MIN_SECS - 1, 0), None);
    assert_eq!(DateTime::from_timestamp(MAX_SECS, 0).map(|t| t.timestamp()), Some(MAX_SECS));
    assert_eq!(DateTime::from_timestamp(MAX_SECS + 1, 0), None);
    assert!(Timestamp::new(MIN_SECS, 0).is_some() && Timestamp::new(MIN_SECS - 1, 0).is_none());
    assert!(Timestamp::new(MAX_SECS, 0).is_some() && Timestamp::new(MAX_SECS + 1, 0).is_none());
}

#[test]
fn times_are_read_in_any_offset() {
    let t = parse_rfc3339("2026-01-15T12:00:00.250+02:00").unwrap();
    assert_eq!((t.secs(), t.nanos()), (1_768_471_200, 250_000_000));
    assert_eq!(t.timestamp_millis(), 1_768_471_200_250);
    assert_eq!(parse_rfc3339("2026-01-15"), None);
    assert_eq!(parse_rfc3339("1969-12-31T23:59:59.999Z").unwrap().timestamp_millis(), -1);
}

#[test]
fn leap_seconds_stay_apart_from_the_next_second() {
    let leap = parse_rfc3339("2016-12-31T23:59:60.5Z").unwrap();
    let next = parse_rfc3339("2017-01-01T00:00:00Z").unwrap();
    assert_eq!((leap.secs(), leap.nanos()), (1_483_228_799, 1_500_000_000));
    assert!(leap.before(&next) && !next.before(&leap) && !leap.same(&next));
}

#[test]
fn milliseconds_go_both_ways() {
    for millis in [0, 1, -1, 1_768_471_200_250, -62_135_596_800_000] {
        assert_eq!(from_timestamp_millis(millis).unwrap().timestamp_millis(), millis);
    }
    assert_eq!(from_timestamp_millis(i64::MAX), None);
    assert_eq!(
        from_timestamp_millis(-1).map(|t| (t.secs(), t.nanos())),
        Some((-1, 999_000_000))
    );
}

#[test]
fn earlier_counts_back() {
    let t = parse_rfc3339("2026-01-15T12:00:00Z").unwrap();
    assert_eq!(t.earlier(86_400), parse_rfc3339("2026-01-14T12:00:00Z"));
    assert_eq!(t.earlier(u64::MAX), None);
}
