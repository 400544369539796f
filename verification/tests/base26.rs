use base26::decode;
use base26::encode;

#[test]
fn test_encode_decode() {
    for i in 0..20000 {
        let s = encode(i);
        println!("{i} -> {s}");
        assert_eq!(i, decode(&s).unwrap());
    }
}

#[test]
fn round_trip_small_range() {
    for n in 0..=100000u64 {
        assert_eq!(decode(&encode(n)), Some(n));
    }
}

#[test]
fn round_trip_spot_checks() {
    let near_2_32 = 1u64 << 32;
    let spots = [
        near_2_32 - 1,
        near_2_32,
        near_2_32 + 1,
        (1u64 << 63) - 1,
        1u64 << 63,
        u64::MAX - 1,
        u64::MAX,
    ];
    for &n in spots.iter() {
        assert_eq!(decode(&encode(n)), Some(n));
    }
}

#[test]
fn round_trip_strings_up_to_two_letters() {
    let letters = "abcdefghijklmnopqrstuvwxyz";
    for a in letters.chars() {
        let one: String = a.to_string();
        let n = decode(&one).unwrap();
        assert_eq!(encode(n), one);
        for b in letters.chars() {
            let two: String = format!("{a}{b}");
            let m = decode(&two).unwrap();
            assert_eq!(encode(m), two);
        }
    }
}

#[test]
fn round_trip_sampled_longer_strings() {
    let samples = [
        "abc", "zzz", "xyz", "aaa", "zab", "cart", "mmmm", "zzzz", "queue", "verse", "zzzzz",
        "aaaaaa", "column", "zzzzzz", "qwerty",
    ];
    for s in samples.iter() {
        let n = decode(s).unwrap();
        assert_eq!(encode(n), *s);
    }
}

#[test]
fn no_leading_zero_digit() {
    assert_eq!(encode(26), "z");
    assert_eq!(encode(27), "aa");
}

#[test]
fn boundary_values() {
    assert_eq!(encode(0), "");
    assert_eq!(decode(""), Some(0));
    assert_eq!(encode(1), "a");
    assert_eq!(encode(26), "z");
    assert_eq!(encode(27), "aa");
    assert_eq!(encode(702), "zz");
    assert_eq!(encode(703), "aaa");
}

#[test]
fn invalid_input_rejected() {
    assert_eq!(decode("a1b"), None);
    assert_eq!(decode("ABC"), None);
    assert_eq!(decode("a-b"), None);
    assert_eq!(decode(" "), None);
    assert_eq!(decode("abc "), None);
    assert_eq!(decode("héllo"), None);
}

#[test]
fn monotone_on_consecutive_integers() {
    let mut prev = encode(0);
    for n in 1..5000u64 {
        let cur = encode(n);
        assert!(prev.len() <= cur.len());
        if prev.len() == cur.len() {
            assert!(prev <= cur);
        }
        prev = cur;
    }
}

#[test]
fn long_input_wraps_modulo_u64() {
    // 15 letters exceed the range of u64; the accumulator wraps.
    assert_eq!(decode("zzzzzzzzzzzzzzz"), Some(10355773048457110486));
    // 14 letters can still fit: the largest 14-letter value of "a"s.
    assert_eq!(decode("aaaaaaaaaaaaaa"), Some(2580398988131886039));
    assert_eq!(encode(2580398988131886039), "aaaaaaaaaaaaaa");
}
