use jiebars::pattern::Pattern;
use jiebars::segment::{SegmentMatches, SegmentState};

fn split<'t>(re: &Pattern, text: &'t str) -> Vec<(bool, &'t str)> {
    let mut seg = SegmentMatches::new(re, text);
    let mut out = Vec::new();
    while let Some(state) = seg.next() {
        match state {
            SegmentState::Matched(m) => {
                println!("Matched:{:?}", m);
                out.push((true, m));
            }
            SegmentState::Unmatched(s) => {
                println!("Unmatched:{:?}", s);
                out.push((false, s));
            }
        }
    }
    assert!(seg.next().is_none());
    out
}

fn han_default() -> Pattern {
    Pattern::new(jiebars::SPLIT_PATTERN).unwrap()
}

#[test]
fn test_seg_chinese_text() {
    let text = "👪 PS: I have two match the, 我觉得开源有一个好处，就是能够敦促自己不断改进 👪，避免敞帚自珍";
    let got = split(&han_default(), text);
    assert_eq!(
        got,
        vec![
            (false, "👪 "),
            (true, "PS"),
            (false, ": "),
            (true, "I"),
            (false, " "),
            (true, "have"),
            (false, " "),
            (true, "two"),
            (false, " "),
            (true, "match"),
            (false, " "),
            (true, "the"),
            (false, ", "),
            (true, "我觉得开源有一个好处"),
            (false, "，"),
            (true, "就是能够敦促自己不断改进"),
            (false, " 👪，"),
            (true, "避免敞帚自珍"),
        ]
    );
}

#[test]
fn test_re_skip_cut_all() {
    let re = Pattern::new(r"[^[:alnum:]+#\n]").unwrap();
    let got = split(&re, "I have two match the");
    assert_eq!(
        got,
        vec![
            (false, "I"),
            (true, " "),
            (false, "have"),
            (true, " "),
            (false, "two"),
            (true, " "),
            (false, "match"),
            (true, " "),
            (false, "the"),
        ]
    );
}

#[test]
fn pieces_spell_the_text() {
    let re = han_default();
    for text in ["", " ", "abc", "abc ", " abc", "我 have，two。", "👪", "a-b_c.d%e", "一，二，三"] {
        let got = split(&re, text);
        let spelled: String = got.iter().map(|p| p.1).collect();
        assert_eq!(spelled, text);
        for p in got.iter() {
            if !p.0 {
                assert!(!p.1.is_empty());
            }
        }
        // Splitting what the pieces spell gives the same pieces.
        assert_eq!(split(&re, &spelled), got);
    }
}

#[test]
fn the_edges_of_a_text() {
    let re = han_default();
    let none: Vec<(bool, &str)> = Vec::new();
    assert_eq!(split(&re, ""), none);
    assert_eq!(split(&re, "abc"), vec![(true, "abc")]);
    assert_eq!(split(&re, "，"), vec![(false, "，")]);
    assert_eq!(split(&re, "，abc"), vec![(false, "，"), (true, "abc")]);
    assert_eq!(split(&re, "abc，"), vec![(true, "abc"), (false, "，")]);
}

#[test]
fn a_pattern_that_matches_nothing_at_all() {
    let re = Pattern::new("x*").unwrap();
    assert_eq!(
        split(&re, "axxb"),
        vec![(true, ""), (false, "a"), (true, "xx"), (false, "b"), (true, "")]
    );
}

#[test]
fn into_str_gives_the_text_of_either_kind() {
    let re = han_default();
    let mut seg = SegmentMatches::new(&re, "，abc");
    assert_eq!(seg.next().unwrap().into_str(), "，");
    assert_eq!(seg.next().unwrap().into_str(), "abc");
    assert!(seg.next().is_none());
}

#[test]
fn a_pattern_is_compiled_or_refused() {
    assert!(Pattern::new("a+").is_some());
    assert!(Pattern::new("(a").is_none());
    let re = Pattern::new("b+").unwrap();
    assert!(re.is_match("abba"));
    assert!(!re.is_match("aaa"));
    assert_eq!(re.find_all("abba b"), vec![(1, 3), (5, 6)]);
    assert_eq!(Pattern::new("我+").unwrap().find_all("你我我他"), vec![(3, 9)]);
}
