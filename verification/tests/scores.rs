use jiebars::error::{render_unexpected, render_unexpected_io, Error};
use jiebars::logscale::{ln_fixed, LN2, LN_MAX};
use jiebars::wordmap::{bytes_eq, hash_bytes, WordMap};

#[test]
fn logarithms_of_small_counts() {
    assert_eq!(ln_fixed(1), 0);
    assert_eq!(ln_fixed(2), 2977044472);
    assert_eq!(ln_fixed(3), 4718503851);
    assert_eq!(ln_fixed(4), 2 * LN2);
    assert_eq!(ln_fixed(10), 9889527671);
    assert_eq!(ln_fixed(15), 11630987050);
    assert_eq!(ln_fixed(100), 19779055342);
    assert_eq!(ln_fixed(1000), 29668583014);
}

#[test]
fn logarithms_of_large_counts() {
    assert_eq!(ln_fixed(1 << 63), 63 * LN2);
    assert_eq!(ln_fixed(u64::MAX), 190530846207);
    assert!(ln_fixed(u64::MAX) <= LN_MAX);
    assert_eq!(LN_MAX, 64 * LN2);
}

#[test]
fn logarithms_keep_close_to_the_real_ones() {
    let scale = (1u64 << 32) as f64;
    let mut x: u64 = 1;
    while x < u64::MAX / 3 {
        for y in [x, x + x / 2, x + x / 3, x + x / 7 + 1] {
            let got = ln_fixed(y) as f64 / scale;
            let want = (y as f64).ln();
            assert!((got - want).abs() < 2e-5, "{} {} {}", y, got, want);
        }
        x = x * 2 + 1;
    }
}

#[test]
fn logarithms_do_not_fall() {
    let mut last = 0;
    for x in 1..5000u64 {
        let now = ln_fixed(x);
        assert!(now >= last);
        last = now;
    }
}

#[test]
fn an_error_from_a_message() {
    let e = Error::from("bad input");
    assert!(matches!(e, Error::Unexpected(_)));
    assert_eq!(e.message(), "Unexpected: bad input");
    let owned = Error::from(String::from("worse"));
    assert_eq!(owned.message(), "Unexpected: worse");
    let text: String = owned.into();
    assert_eq!(text, "Unexpected: worse");
}

#[test]
fn an_error_from_an_io_failure() {
    let io = std::io::Error::new(std::io::ErrorKind::Other, "disk gone");
    let e = Error::from(io);
    assert!(matches!(e, Error::Unexpected(_)));
    assert_eq!(e.message(), "Unexpected: disk gone");
    let io = std::io::Error::new(std::io::ErrorKind::Other, "disk gone");
    let with = Error::from(("reading", io));
    assert!(matches!(with, Error::UnexpectIO(_, _)));
    assert_eq!(with.message(), "Unexpected: reading, disk gone");
    assert_eq!(String::from(with), "Unexpected: reading, disk gone");
}

#[test]
fn the_text_of_an_error() {
    assert_eq!(render_unexpected("x"), "Unexpected: x");
    assert_eq!(render_unexpected(""), "Unexpected: ");
    assert_eq!(render_unexpected_io("a", "b"), "Unexpected: a, b");
}

#[test]
fn a_map_of_byte_strings() {
    let mut m = WordMap::new();
    assert_eq!(m.get(b"a"), None);
    m.set(b"a", 1);
    m.set(b"ab", 2);
    m.set(b"", 3);
    assert_eq!(m.get(b"a"), Some(1));
    assert_eq!(m.get(b"ab"), Some(2));
    assert_eq!(m.get(b""), Some(3));
    assert_eq!(m.get(b"b"), None);
    m.set(b"a", 9);
    assert_eq!(m.get(b"a"), Some(9));
    assert_eq!(m.get(b"ab"), Some(2));
    assert_eq!(m.get_hashed(b"ab", hash_bytes(b"ab")), Some(2));
}

#[test]
fn hashes_and_equality_of_bytes() {
    assert_eq!(hash_bytes(b""), 1469598103934665603);
    assert_ne!(hash_bytes(b"a"), hash_bytes(b"b"));
    assert_eq!(hash_bytes("北京".as_bytes()), hash_bytes("北京".as_bytes()));
    assert!(bytes_eq(b"abc", b"abc"));
    assert!(!bytes_eq(b"abc", b"abd"));
    assert!(!bytes_eq(b"abc", b"ab"));
    assert!(bytes_eq(b"", b""));
}
