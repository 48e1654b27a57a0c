use jiebars::hmm::{HmmModel, Status, MIN_SCORE};
use jiebars::Jieba;

const SMALL: &str = "北京 10 ns\n清华大学 5 nt\n";

const BIG: &str = "北京 10 ns\n清华大学 5 nt\n大学 8 n\n北京大学 6 nt\n清华 3 nz\n中国 12 ns\n科学 9 n\n科学院 7 n\n中国科学院 4 nt\n计算 6 v\n计算所 2 n\n硕士 5 n\n毕业 6 v\n小明 3 nr\n于 15 p\n我 20 r\n来到 7 v\n";

const UNIT: i64 = 1 << 32;

fn model() -> HmmModel {
    let start = vec![-UNIT, MIN_SCORE, MIN_SCORE, -2 * UNIT];
    let mut trans = vec![MIN_SCORE; 16];
    // B -> E, B -> M
    trans[1] = -UNIT;
    trans[2] = -2 * UNIT;
    // E -> B, E -> S
    trans[4] = -UNIT;
    trans[7] = -UNIT;
    // M -> E, M -> M
    trans[9] = -UNIT;
    trans[10] = -2 * UNIT;
    // S -> B, S -> S
    trans[12] = -UNIT;
    trans[15] = -UNIT;
    let mut m = HmmModel::new(start, trans).unwrap();
    m.set_emission(Status::S, "我", -UNIT).unwrap();
    m.set_emission(Status::B, "我", -5 * UNIT).unwrap();
    m.set_emission(Status::B, "来", -UNIT).unwrap();
    m.set_emission(Status::S, "来", -4 * UNIT).unwrap();
    m.set_emission(Status::E, "到", -UNIT).unwrap();
    m.set_emission(Status::S, "到", -4 * UNIT).unwrap();
    m
}

fn small() -> Jieba {
    Jieba::new(SMALL, model()).unwrap()
}

fn big() -> Jieba {
    Jieba::new(BIG, model()).unwrap()
}

const LONG: &str = "小明硕士毕业于中国科学院计算所";

#[test]
fn lib_test_dag() {
    let jieba = big();
    let dag = jieba.dag("two");
    println!("dag:{:?}", dag);
    let empty: Vec<usize> = Vec::new();
    assert_eq!(dag, vec![empty.clone(), empty.clone(), empty]);
}

#[test]
fn lib_test_cut_all() {
    let jieba = big();
    let words = jieba.cut(LONG, true, false);
    println!("rs:{:?}", words);
    assert_eq!(
        words,
        vec!["小明", "硕士", "毕业", "于", "中国", "中国科学院", "科学", "科学院", "计算", "计算所"]
    );
}

#[test]
fn lib_test_cut_c() {
    let jieba = big();
    let rs = jieba.calc("two");
    println!("rs:{:?}", rs);
    assert_eq!(
        rs,
        vec![
            (-62517933912i128, 1usize),
            (-41678622608i128, 2usize),
            (-20839311304i128, 3usize),
            (0i128, 3usize)
        ]
    );
}

#[test]
fn lib_test_cut_dag_no_hmm() {
    let jieba = big();
    let words = jieba.cut("我来到北京清华大学", false, false);
    println!("rs:{:?}", words);
    assert_eq!(words, vec!["我", "来到", "北京", "清华大学"]);
}

#[test]
fn test_cut_dag_hmm() {
    let jieba = big();
    let words = jieba.cut("I have two ok小明硕士毕业于中国科学院计算所", false, true);
    println!("rs:{:?}", words);
    assert_eq!(
        words,
        vec![
            "I", " ", "have", " ", "two", " ", "ok", "小明", "硕士", "毕业", "于", "中国科学院",
            "计算所"
        ]
    );
}

#[test]
fn test_cut_for_search() {
    let jieba = big();
    let words = jieba.cut_for_search(LONG);
    println!("rs:{:?}", words);
    assert_eq!(
        words,
        vec!["小明", "硕士", "毕业", "于", "中国", "科学", "科学院", "中国科学院", "计算", "计算所"]
    );
}

#[test]
fn precise_without_model_follows_the_dictionary() {
    let jieba = small();
    assert_eq!(jieba.cut("北京清华大学", false, false), vec!["北京", "清华大学"]);
}

#[test]
fn precise_with_model_cuts_the_unknown_run() {
    let jieba = small();
    assert_eq!(
        jieba.cut("我来到北京清华大学", false, true),
        vec!["我", "来到", "北京", "清华大学"]
    );
    assert_eq!(
        jieba.cut("我来到北京清华大学", false, false),
        vec!["我", "来", "到", "北京", "清华大学"]
    );
}

#[test]
fn all_mode_yields_overlapping_words() {
    let jieba = big();
    assert_eq!(jieba.cut("北京大学", true, false), vec!["北京", "北京大学", "大学"]);
    assert_eq!(
        jieba.cut("我来到北京清华大学", true, false),
        vec!["我", "来到", "北京", "清华", "清华大学", "大学"]
    );
}

#[test]
fn empty_text_has_no_tokens() {
    let jieba = small();
    let none: Vec<&str> = Vec::new();
    assert_eq!(jieba.cut("", true, false), none);
    assert_eq!(jieba.cut("", false, false), none);
    assert_eq!(jieba.cut("", false, true), none);
    assert_eq!(jieba.cut_for_search(""), none);
}

#[test]
fn latin_words_come_out_whole() {
    let jieba = small();
    assert_eq!(jieba.cut("hello world", false, false), vec!["hello", " ", "world"]);
    assert_eq!(jieba.cut("hello world", false, true), vec!["hello", " ", "world"]);
    let words: Vec<&str> = jieba
        .cut("hello world", false, true)
        .into_iter()
        .filter(|w| !w.trim().is_empty())
        .collect();
    assert_eq!(words, vec!["hello", "world"]);
    assert_eq!(jieba.cut("hello world", true, false), vec![" "]);
}

#[test]
fn digits_and_signs() {
    let jieba = big();
    assert_eq!(
        jieba.cut("abc123 4.5% x", false, false),
        vec!["abc123", " ", "4", ".", "5", "%", " ", "x"]
    );
    assert_eq!(jieba.cut("abc123 4.5% x", false, true), vec!["abc123", " ", "4.5%", " ", "x"]);
}

#[test]
fn a_character_the_dictionary_lacks_stands_alone() {
    let jieba = small();
    assert_eq!(jieba.cut("北京大", false, true), vec!["北京", "大"]);
    assert_eq!(jieba.cut("北京大", true, false), vec!["北京"]);
}

#[test]
fn precise_tokens_spell_the_text() {
    let jieba = big();
    for text in [
        "我来到北京清华大学",
        "I have two ok小明硕士毕业于中国科学院计算所",
        "👪 PS: I have two match the, 我觉得开源有一个好处，就是能够敦促自己不断改进 👪，避免敞帚自珍",
        "abc123 4.5% x",
        " ",
        "，。",
    ] {
        assert_eq!(jieba.cut(text, false, false).concat(), text);
        assert_eq!(jieba.cut(text, false, true).concat(), text);
    }
}

#[test]
fn search_mode_keeps_the_precise_tokens() {
    let jieba = big();
    let text = "我来到北京清华大学，小明硕士毕业于中国科学院计算所";
    let precise = jieba.cut(text, false, true);
    let search = jieba.cut_for_search(text);
    let mut at = 0;
    for word in precise.iter() {
        while search[at] != *word {
            at += 1;
        }
        at += 1;
    }
    assert!(at <= search.len());
}

#[test]
fn cutting_twice_gives_the_same() {
    let jieba = big();
    let text = "I have two ok小明硕士毕业于中国科学院计算所";
    assert_eq!(jieba.cut(text, false, true), jieba.cut(text, false, true));
    assert_eq!(jieba.cut(text, true, false), jieba.cut(text, true, false));
    assert_eq!(jieba.cut_for_search(text), jieba.cut_for_search(text));
    let other = big();
    assert_eq!(jieba.cut(text, false, true), other.cut(text, false, true));
}

#[test]
fn route_table_of_a_sentence() {
    let jieba = small();
    let rs = jieba.calc("北京清华大学");
    assert_eq!(rs.len(), 19);
    assert_eq!(rs[18], (0i128, 18usize));
    assert_eq!(rs[0], (-6459963230i128, 6usize));
    assert_eq!(rs[3], (-16349490901i128, 6usize));
    assert_eq!(rs[6], (-4718503851i128, 18usize));
    assert_eq!(rs[9], (-34892961150i128, 12usize));
    assert_eq!(rs[12], (-23261974100i128, 15usize));
    assert_eq!(rs[15], (-11630987050i128, 18usize));
    assert_eq!(rs[1], (0i128, 0usize));
    let dag = jieba.dag("北京清华大学");
    assert_eq!(dag[0], vec![6]);
    assert_eq!(dag[6], vec![18]);
    assert!(dag[3].is_empty());
}

#[test]
fn ties_go_to_the_longer_word() {
    // Two ways of equal score: "ab" then "c" (counts 4 and 1) or "a" then
    // "bc" (counts 2 and 2); "abc" is no word. The single letters gather.
    let jieba = Jieba::new("甲乙 4 n\n丙 1 n\n甲 2 n\n乙丙 2 n\n", model()).unwrap();
    let rs = jieba.calc("甲乙丙");
    assert_eq!(rs[0].1, 6);
    assert_eq!(jieba.cut("甲乙丙", false, false), vec!["甲乙", "丙"]);
}

#[test]
fn the_route_table_ends_with_the_end_of_the_sentence() {
    let jieba = big();
    for text in ["", "a", "我", "我来到北京清华大学", "two"] {
        let rs = jieba.calc(text);
        assert_eq!(rs.len(), text.len() + 1);
        assert_eq!(rs[text.len()], (0i128, text.len()));
    }
}

#[test]
fn an_engine_is_made_of_a_dictionary_with_counts() {
    assert!(Jieba::new("我 1 r\n", model()).is_ok());
    assert!(Jieba::new("bad line\n我 1 r", model()).is_ok());
    assert!(Jieba::new(SMALL, model()).is_ok());
}

#[test]
fn an_engine_needs_counts() {
    assert!(Jieba::new("", model()).is_err());
    assert!(Jieba::new("北京 0 ns\n", model()).is_err());
    assert!(Jieba::new("no entries here\nat all\n", model()).is_err());
    match Jieba::new("", model()) {
        Err(e) => assert_eq!(e.message(), "Unexpected: the dictionary holds no counts"),
        Ok(_) => panic!("an empty dictionary made an engine"),
    }
}
