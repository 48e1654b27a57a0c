use jiebars::hmm::{cut, cut_han, viterbi, HmmModel, Status, MIN_SCORE};

const UNIT: i64 = 1 << 32;

fn tables() -> (Vec<i64>, Vec<i64>) {
    let start = vec![-UNIT, MIN_SCORE, MIN_SCORE, -2 * UNIT];
    let mut trans = vec![MIN_SCORE; 16];
    trans[1] = -UNIT;
    trans[2] = -2 * UNIT;
    trans[4] = -UNIT;
    trans[7] = -UNIT;
    trans[9] = -UNIT;
    trans[10] = -2 * UNIT;
    trans[12] = -UNIT;
    trans[15] = -UNIT;
    (start, trans)
}

fn model() -> HmmModel {
    let (start, trans) = tables();
    let mut m = HmmModel::new(start, trans).unwrap();
    m.set_emission(Status::S, "我", -UNIT).unwrap();
    m.set_emission(Status::B, "我", -5 * UNIT).unwrap();
    m.set_emission(Status::B, "来", -UNIT).unwrap();
    m.set_emission(Status::S, "来", -4 * UNIT).unwrap();
    m.set_emission(Status::E, "到", -UNIT).unwrap();
    m.set_emission(Status::S, "到", -4 * UNIT).unwrap();
    m
}

fn letters(path: &[Status]) -> String {
    path.iter()
        .map(|s| match s {
            Status::B => 'B',
            Status::E => 'E',
            Status::M => 'M',
            Status::S => 'S',
        })
        .collect()
}

#[test]
fn test_viterbi() {
    let path = viterbi(&model(), "小明硕士毕业于中国科学院计算所");
    println!("path:{:?}", path);
    assert_eq!(letters(&path), "BESSSSSSSSSSSSS");
}

#[test]
fn test_cut_han() {
    let mut words: Vec<&str> = Vec::with_capacity(64);
    cut_han(&model(), "two", &mut words);
    println!("words:{:?}", words);
    assert_eq!(words, vec!["tw", "o"]);
}

#[test]
fn viterbi_follows_the_emissions() {
    let path = viterbi(&model(), "我来到");
    assert_eq!(path, vec![Status::S, Status::B, Status::E]);
    let mut words: Vec<&str> = Vec::new();
    cut_han(&model(), "我来到", &mut words);
    assert_eq!(words, vec!["我", "来到"]);
}

#[test]
fn viterbi_of_short_runs() {
    let none: Vec<Status> = Vec::new();
    assert_eq!(viterbi(&model(), ""), none);
    assert_eq!(viterbi(&model(), "我"), vec![Status::S]);
    assert_eq!(viterbi(&model(), "到"), vec![Status::S]);
    let mut words: Vec<&str> = Vec::new();
    cut_han(&model(), "", &mut words);
    assert!(words.is_empty());
    cut_han(&model(), "我", &mut words);
    assert_eq!(words, vec!["我"]);
}

#[test]
fn decoded_paths_are_well_formed() {
    let m = model();
    for text in ["我来到", "到来我", "小明硕士毕业于中国科学院计算所", "two", "来来来来", "到到"] {
        let path = viterbi(&m, text);
        assert_eq!(path.len(), text.chars().count());
        let last = *path.last().unwrap();
        assert!(last == Status::E || last == Status::S);
        assert!(path[0] == Status::B || path[0] == Status::S);
        for t in 1..path.len() {
            let ok = match path[t] {
                Status::B | Status::S => path[t - 1] == Status::E || path[t - 1] == Status::S,
                Status::E | Status::M => path[t - 1] == Status::B || path[t - 1] == Status::M,
            };
            assert!(ok);
        }
        let mut words: Vec<&str> = Vec::new();
        cut_han(&m, text, &mut words);
        assert_eq!(words.concat(), text);
    }
}

#[test]
fn ties_go_to_the_state_with_the_higher_number() {
    // With nothing to tell the states apart but their numbers, the last
    // state is S, and so is each state before it.
    let mut trans = vec![MIN_SCORE; 16];
    for i in 0..16 {
        trans[i] = -UNIT;
    }
    let m = HmmModel::new(vec![-UNIT; 4], trans).unwrap();
    assert_eq!(letters(&viterbi(&m, "甲乙丙")), "SSS");
}

#[test]
fn cut_takes_a_han_run_to_the_model() {
    let m = model();
    let mut words: Vec<&str> = Vec::new();
    cut(&m, "我来到", &mut words);
    assert_eq!(words, vec!["我", "来到"]);
    let mut one: Vec<&str> = Vec::new();
    cut(&m, "我", &mut one);
    assert_eq!(one, vec!["我"]);
}

#[test]
fn cut_splits_other_runs_by_letters_and_digits() {
    let m = model();
    let mut words: Vec<&str> = Vec::new();
    cut(&m, "abc+4.5%#x", &mut words);
    assert_eq!(words, vec!["abc+4", ".", "5%", "#", "x"]);
    let mut percent: Vec<&str> = Vec::new();
    cut(&m, "4.5%", &mut percent);
    assert_eq!(percent, vec!["4.5%"]);
    let mut none: Vec<&str> = Vec::new();
    cut(&m, "", &mut none);
    assert!(none.is_empty());
    let mut kept: Vec<&str> = vec!["before"];
    cut(&m, "a1", &mut kept);
    assert_eq!(kept, vec!["before", "a1"]);
}

#[test]
fn tables_out_of_shape_are_refused() {
    let (start, trans) = tables();
    assert!(HmmModel::new(vec![0; 3], trans.clone()).is_err());
    assert!(HmmModel::new(start.clone(), vec![0; 15]).is_err());
    assert!(HmmModel::new(vec![1, 0, 0, 0], trans.clone()).is_err());
    let mut low = trans.clone();
    low[5] = MIN_SCORE - 1;
    assert!(HmmModel::new(start.clone(), low).is_err());
    assert!(HmmModel::new(start, trans).is_ok());
    match HmmModel::new(vec![0; 3], vec![0; 16]) {
        Err(e) => assert_eq!(e.message(), "Unexpected: a score is out of range"),
        Ok(_) => panic!("three start scores made a model"),
    }
}

#[test]
fn emissions_are_for_single_characters() {
    let mut m = model();
    assert!(m.set_emission(Status::B, "", -UNIT).is_err());
    assert!(m.set_emission(Status::B, "ab", -UNIT).is_err());
    assert!(m.set_emission(Status::B, "我来", -UNIT).is_err());
    assert!(m.set_emission(Status::B, "我", 1).is_err());
    assert!(m.set_emission(Status::B, "我", MIN_SCORE - 1).is_err());
    assert!(m.set_emission(Status::B, "a", 0).is_ok());
    assert!(m.set_emission(Status::B, "é", MIN_SCORE).is_ok());
    assert!(m.set_emission(Status::B, "👪", -UNIT).is_ok());
    // A refused emission changes nothing.
    assert_eq!(viterbi(&m, "我来到"), vec![Status::S, Status::B, Status::E]);
}

#[test]
fn a_new_emission_changes_the_path() {
    let mut m = model();
    assert_eq!(letters(&viterbi(&m, "甲乙")), "BE");
    m.set_emission(Status::S, "甲", -UNIT).unwrap();
    m.set_emission(Status::S, "乙", -UNIT).unwrap();
    assert_eq!(letters(&viterbi(&m, "甲乙")), "SS");
}
