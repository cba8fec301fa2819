use spellpack::codec::{hash, n2s};

#[test]
fn hash_text() {
    let a = "hello world!";
    assert_eq!(hash(a), "1vfqu3h");
}

#[test]
fn hash_of_empty_text_is_zero() {
    assert_eq!(hash(""), "0");
}

#[test]
fn hash_of_one_byte_is_its_value() {
    // 'a' is 97 = 2 * 36 + 25
    assert_eq!(hash("a"), "2p");
}

#[test]
fn hash_wraps_at_32_bits() {
    // 31^7 * 255 exceeds 2^32, so the accumulator has wrapped here.
    let mut a: u32 = 0;
    for b in "ÿÿÿÿÿÿÿÿ".bytes() {
        a = a.wrapping_mul(31).wrapping_add(b as u32);
    }
    let mut digits = vec![];
    loop {
        digits.push(std::char::from_digit(a % 36, 36).unwrap());
        a /= 36;
        if a == 0 {
            break;
        }
    }
    let expected: String = digits.into_iter().rev().collect();
    assert_eq!(hash("ÿÿÿÿÿÿÿÿ"), expected);
}

#[test]
fn test_n2s() {
    let a = n2s(7000);
    // 7000 = (1 * 38 + 25) * 111 + 7, written highest place first
    assert_eq!(a, "\u{fe}\u{f0}\u{10}");
    // the 115/33/3 split, lowest place first, would have given this instead
    assert_ne!(a, "Ìöý");
}

#[test]
fn n2s_first_tier() {
    assert_eq!(n2s(0), "\u{3}");
    assert_eq!(n2s(4), "\u{7}");
    assert_eq!(n2s(5), "\u{e}");
    assert_eq!(n2s(22), "\u{1f}");
    assert_eq!(n2s(23), "\u{7f}");
    assert_eq!(n2s(110), "\u{d6}");
}

#[test]
fn n2s_grows_to_two_symbols_at_111() {
    assert_eq!(n2s(110).chars().count(), 1);
    assert_eq!(n2s(111).chars().count(), 2);
    assert_eq!(n2s(111), "\u{d8}\u{3}");
}

#[test]
fn n2s_grows_to_three_symbols_at_4218() {
    assert_eq!(n2s(4217).chars().count(), 2);
    assert_eq!(n2s(4217), "\u{fc}\u{d6}");
    assert_eq!(n2s(4218).chars().count(), 3);
    assert_eq!(n2s(4218), "\u{fe}\u{d7}\u{3}");
    assert_eq!(n2s(12653), "\u{ff}\u{fc}\u{d6}");
}

#[test]
fn n2s_repeats_no_token() {
    let mut seen = std::collections::HashSet::new();
    for n in 0..12654 {
        assert!(seen.insert(n2s(n)));
    }
}
