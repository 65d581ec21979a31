use wlroots_bridge::double::{Double, MANT_MIN};
use wlroots_bridge::text::{
    decimal_string, is_blank, parse_i32, same_text, trim, trim_suffixes, white_space,
};

fn to_f64(d: Double) -> f64 {
    if d.mant == 0 {
        0.0
    } else {
        f64::from_bits((((d.exp + 1075) as u64) << 52) | (d.mant - MANT_MIN))
    }
}

fn random(state: &mut u64) -> u64 {
    *state ^= *state << 13;
    *state ^= *state >> 7;
    *state ^= *state << 17;
    *state
}

fn samples() -> Vec<u64> {
    let mut list = vec![
        0,
        1,
        2,
        3,
        20,
        1568,
        1_150_000,
        (1 << 52) - 1,
        1 << 52,
        (1 << 53) - 1,
        1 << 53,
        (1 << 53) + 1,
        (1 << 54) + 2,
        (1 << 54) + 6,
        u64::MAX,
        u64::MAX - 1023,
        u64::MAX - 1024,
    ];
    let mut s = 0xfeed_f00d_dead_beefu64;
    for i in 0..300u32 {
        list.push(random(&mut s) >> (i % 64));
    }
    list
}

#[test]
fn integers_round_as_the_machine_does() {
    for n in samples() {
        assert_eq!(to_f64(Double::from_u64(n)), n as f64, "{n}");
    }
    assert_eq!(to_f64(Double::zero()), 0.0);
}

#[test]
fn arithmetic_rounds_as_the_machine_does() {
    let list = samples();
    for a in &list {
        for b in &list {
            let (x, y) = (Double::from_u64(*a), Double::from_u64(*b));
            let (fx, fy) = (*a as f64, *b as f64);
            assert_eq!(to_f64(x.times(y)), fx * fy, "{a} * {b}");
            assert_eq!(x.at_most(y), fx <= fy, "{a} <= {b}");
            assert_eq!(to_f64(x.smaller(y)), fx.min(fy), "{a} min {b}");
            if *b != 0 {
                let q = x.over(y);
                let fq = fx / fy;
                assert_eq!(to_f64(q), fq, "{a} / {b}");
                assert_eq!(q.round_to(MANT_MIN), (fq.round() as u64).min(MANT_MIN), "{a} / {b}");
                assert_eq!(q.floor_to(MANT_MIN), (fq.floor() as u64).min(MANT_MIN), "{a} / {b}");
                assert_eq!(q.ceil_to(MANT_MIN), (fq.ceil() as u64).min(MANT_MIN), "{a} / {b}");
                if q.mant != 0 {
                    assert_eq!(to_f64(q.root()), fq.sqrt(), "root {a} / {b}");
                }
            }
        }
    }
}

#[test]
fn decimals_are_written_and_read() {
    for n in samples() {
        assert_eq!(decimal_string(n), n.to_string());
    }
    for text in [
        "0", "-0", "+0", "007", "-2147483648", "2147483647", "2147483648", "-2147483649", "",
        "+", "-", "1_000", "12a", " 1", "99999999999999999999", "-99999999999999999999", "٣",
    ] {
        assert_eq!(parse_i32(text), text.parse::<i32>().ok(), "{text:?}");
    }
}

#[test]
fn white_space_is_that_of_unicode() {
    for code in 0..=0x10_ffff {
        if let Some(c) = char::from_u32(code) {
            assert_eq!(white_space(c), c.is_whitespace(), "{code:x}");
        }
    }
}

#[test]
fn texts_are_trimmed() {
    for s in ["", " ", "a", " a ", "\t\n a b \u{a0}", "\u{2003}x", "x\u{2003}", "ab"] {
        assert_eq!(trim(s), s.trim(), "{s:?}");
        assert_eq!(is_blank(s), s.trim().is_empty(), "{s:?}");
    }
}

#[test]
fn suffixes_are_removed() {
    for s in ["", ".desktop", "a.desktop", "a.desktop.desktop", "a.desktopx", "desktop", "é.desktop"] {
        assert_eq!(trim_suffixes(s, ".desktop"), s.trim_end_matches(".desktop"), "{s:?}");
    }
}

#[test]
fn texts_are_compared() {
    assert!(same_text("abc", "abc"));
    assert!(!same_text("abc", "abd"));
    assert!(!same_text("abc", "ab"));
    assert!(same_text("", ""));
}
