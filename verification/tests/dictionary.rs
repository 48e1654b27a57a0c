use jiebars::dictionary::{parse_line, Dictionary};
use jiebars::push_chars;

#[test]
fn test_split_chinese_str() {
    let s = "程序设计艺术";
    let cs = s.chars();
    let ss = cs.collect::<Vec<char>>();
    println!("{:?}", ss);
    let mut pieces: Vec<&str> = Vec::new();
    push_chars(s, &mut pieces);
    assert_eq!(pieces, vec!["程", "序", "设", "计", "艺", "术"]);
    let again: Vec<String> = ss.iter().map(|c| c.to_string()).collect();
    assert_eq!(pieces, again);
}

#[test]
fn test_dictionary() {
    let dict = Dictionary::load("我们 1234 r\n我 20 r\n").unwrap();
    if let Some(freq) = dict.frequency("我们") {
        println!("freq:{}", freq);
    }
    assert_eq!(dict.frequency("我们"), Some(1234));
}

#[test]
fn prefixes_are_entered_with_count_zero() {
    let dict = Dictionary::load("清华大学 5 nt\n").unwrap();
    assert_eq!(dict.frequency("清华大学"), Some(5));
    assert_eq!(dict.frequency("清"), Some(0));
    assert_eq!(dict.frequency("清华"), Some(0));
    assert_eq!(dict.frequency("清华大"), Some(0));
    assert_eq!(dict.frequency("华"), None);
    assert_eq!(dict.frequency("清华大学校"), None);
    assert_eq!(dict.frequency(""), None);
    assert_eq!(dict.total(), 5);
}

#[test]
fn a_word_of_one_character_is_its_own_prefix() {
    let dict = Dictionary::load("我 20 r\n").unwrap();
    assert_eq!(dict.frequency("我"), Some(20));
    assert_eq!(dict.total(), 20);
}

#[test]
fn a_prefix_keeps_the_count_it_has() {
    let dict = Dictionary::load("北京 10 ns\n北京大学 6 nt\n").unwrap();
    assert_eq!(dict.frequency("北京"), Some(10));
    assert_eq!(dict.frequency("北"), Some(0));
    assert_eq!(dict.frequency("北京大"), Some(0));
    let other = Dictionary::load("北京大学 6 nt\n北京 10 ns\n").unwrap();
    assert_eq!(other.frequency("北京"), Some(10));
    assert_eq!(other.total(), 16);
}

#[test]
fn a_word_entered_twice_takes_the_later_count() {
    let dict = Dictionary::load("北京 10 ns\n北京 3 ns\n").unwrap();
    assert_eq!(dict.frequency("北京"), Some(3));
    assert_eq!(dict.total(), 13);
}

#[test]
fn lines_of_another_shape_are_passed_over() {
    let text = "北京 10 ns\n两列 7\n四 列 也 不行\n坏数 x n\n负数 -5 n\n小数 1.5 n\n\n   \n清华 3 nz";
    let dict = Dictionary::load(text).unwrap();
    assert_eq!(dict.total(), 13);
    assert_eq!(dict.frequency("北京"), Some(10));
    assert_eq!(dict.frequency("清华"), Some(3));
    assert_eq!(dict.frequency("两列"), None);
    assert_eq!(dict.frequency("四"), None);
    assert_eq!(dict.frequency("坏数"), None);
    assert_eq!(dict.frequency("负数"), None);
    assert_eq!(dict.frequency("小数"), None);
}

#[test]
fn fields_are_set_apart_by_any_blanks() {
    let dict = Dictionary::load("  北京\t\t10   ns \r\n清华 3 nz\r\n").unwrap();
    assert_eq!(dict.frequency("北京"), Some(10));
    assert_eq!(dict.frequency("清华"), Some(3));
    assert_eq!(dict.total(), 13);
}

#[test]
fn fields_are_set_apart_by_white_space_of_any_script() {
    let text = "北京\u{3000}10\u{3000}ns\n清华\u{a0}3\u{2003}nz\n大学\u{85}\u{1680}8\u{2028}\u{205f}n\u{202f}\n";
    let dict = Dictionary::load(text).unwrap();
    assert_eq!(dict.frequency("北京"), Some(10));
    assert_eq!(dict.frequency("清华"), Some(3));
    assert_eq!(dict.frequency("大学"), Some(8));
    assert_eq!(dict.total(), 21);
    assert_eq!(parse_line("北京\u{3000}10\u{3000}ns".as_bytes()), Some((0, 6, 10)));
    // A zero-width space is no white space.
    assert_eq!(parse_line("北京\u{200b}10 ns".as_bytes()), None);
    for line in ["a\u{3000}1\u{3000}x", "a\u{2000}1\u{200a}x", "a\t1\u{b}x", "a\u{2029}1\u{c}x"] {
        let fields: Vec<&str> = line.split_whitespace().collect();
        assert_eq!(fields, vec!["a", "1", "x"]);
        assert_eq!(parse_line(line.as_bytes()), Some((0, 1, 1)));
    }
}

#[test]
fn a_count_must_fit_64_bits() {
    let dict = Dictionary::load("大 18446744073709551615 a\n").unwrap();
    assert_eq!(dict.frequency("大"), Some(18446744073709551615));
    let over = Dictionary::load("大 18446744073709551616 a\n小 1 a\n").unwrap();
    assert_eq!(over.frequency("大"), None);
    assert_eq!(over.total(), 1);
    // A count that would take the total beyond 64 bits is passed over too.
    let full = Dictionary::load("大 18446744073709551615 a\n小 1 a\n中 0 a\n").unwrap();
    assert_eq!(full.frequency("小"), None);
    assert_eq!(full.frequency("中"), Some(0));
    assert_eq!(full.total(), 18446744073709551615);
}

#[test]
fn a_dictionary_without_counts_is_refused() {
    assert!(Dictionary::load("").is_err());
    assert!(Dictionary::load("北京 0 ns\n").is_err());
    assert!(Dictionary::load("北京 ns\n").is_err());
    match Dictionary::load("\n\n") {
        Err(e) => assert_eq!(e.message(), "Unexpected: the dictionary holds no counts"),
        Ok(_) => panic!("no entries made a dictionary"),
    }
}

#[test]
fn entries_can_be_added_later() {
    let mut dict = Dictionary::new();
    assert_eq!(dict.total(), 0);
    assert_eq!(dict.frequency("北京"), None);
    dict.add_word("北京 10 ns\n");
    dict.add_word("清华大学 5 nt");
    assert_eq!(dict.total(), 15);
    assert_eq!(dict.frequency("北京"), Some(10));
    assert_eq!(dict.frequency("清华"), Some(0));
    assert_eq!(dict.frequency_of("清华大学".as_bytes()), Some(5));
}

#[test]
fn the_logarithm_of_the_total() {
    let dict = Dictionary::load("北京 10 ns\n清华大学 5 nt\n").unwrap();
    assert_eq!(dict.log_total(), 11630987050);
}

#[test]
fn a_line_gives_its_word_and_count() {
    assert_eq!(parse_line("北京 10 ns".as_bytes()), Some((0, 6, 10)));
    assert_eq!(parse_line("  ab   007  x  ".as_bytes()), Some((2, 4, 7)));
    assert_eq!(parse_line("ab 7".as_bytes()), None);
    assert_eq!(parse_line("ab 7 x y".as_bytes()), None);
    assert_eq!(parse_line("ab +7 x".as_bytes()), None);
    assert_eq!(parse_line("".as_bytes()), None);
}

#[test]
fn many_words_find_their_counts() {
    let mut text = String::new();
    for i in 0..2000u64 {
        text.push_str(&format!("词{} {} n\n", i, i + 1));
    }
    let dict = Dictionary::load(&text).unwrap();
    assert_eq!(dict.total(), 2001000);
    for i in 0..2000u64 {
        assert_eq!(dict.frequency(&format!("词{}", i)), Some(i + 1));
    }
    assert_eq!(dict.frequency("词"), Some(0));
    assert_eq!(dict.frequency("词2000"), None);
}
