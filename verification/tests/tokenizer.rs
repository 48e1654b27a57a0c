use jiebars::hmm::{HmmModel, MIN_SCORE};
use jiebars::tokenizer::Tokenizer;
use jiebars::Jieba;

const BIG: &str = "北京 10 ns\n清华大学 5 nt\n大学 8 n\n北京大学 6 nt\n清华 3 nz\n中国 12 ns\n科学 9 n\n科学院 7 n\n中国科学院 4 nt\n计算 6 v\n计算所 2 n\n硕士 5 n\n毕业 6 v\n小明 3 nr\n于 15 p\n我 20 r\n来到 7 v\n";

fn model() -> HmmModel {
    HmmModel::new(vec![-1, MIN_SCORE, MIN_SCORE, -2], vec![-1; 16]).unwrap()
}

fn tokenizer() -> Tokenizer {
    Tokenizer::new(BIG, model()).unwrap()
}

#[test]
fn tokenizer_test_dag() {
    let tokenizer = tokenizer();
    let dag = tokenizer.dag("我来到北京清华大学");
    println!("dag:{:?}", dag);
    assert_eq!(dag.len(), 27);
    assert_eq!(dag[0], vec![3]);
    assert_eq!(dag[3], vec![9]);
    assert!(dag[6].is_empty());
    assert_eq!(dag[9], vec![15]);
    assert!(dag[12].is_empty());
    assert_eq!(dag[15], vec![21, 27]);
    assert!(dag[18].is_empty());
    assert_eq!(dag[21], vec![27]);
    assert!(dag[24].is_empty());
    assert!(dag[1].is_empty());
}

#[test]
fn tokenizer_test_cut_all() {
    let tokenizer = tokenizer();
    let words = tokenizer.cut_all("我来到北京清华大学");
    println!("words:{:?}", words.join("/"));
    assert_eq!(words.join("/"), "我/来到/北京/清华/清华大学/大学");
}

#[test]
fn tokenizer_test_cut_c() {
    let tokenizer = tokenizer();
    let rs = tokenizer.calc("我来到北京清华大学");
    println!("rs:{:?}", rs);
    assert_eq!(rs.len(), 28);
    assert_eq!(rs[27], (0i128, 27usize));
    assert_eq!(rs[0], (-45331041751i128, 3usize));
    assert_eq!(rs[3], (-37358302590i128, 9usize));
    assert_eq!(rs[6], (-45715923042i128, 9usize));
    assert_eq!(rs[9], (-24876611738i128, 15usize));
    assert_eq!(rs[12], (-34766139409i128, 15usize));
    assert_eq!(rs[15], (-13926828105i128, 27usize));
    assert_eq!(rs[18], (-32747489192i128, 21usize));
    assert_eq!(rs[21], (-11908177888i128, 27usize));
    assert_eq!(rs[24], (-20839311304i128, 27usize));
    assert_eq!(rs[2], (0i128, 0usize));
}

#[test]
fn tokenizer_test_cut_dag_no_hmm() {
    let tokenizer = tokenizer();
    let words = tokenizer.cut_dag_no_hmm("我来到北京清华大学");
    println!("rs:{:?}", words);
    assert_eq!(words, vec!["我", "来到", "北京", "清华大学"]);
}

#[test]
fn a_tokenizer_needs_counts() {
    assert!(Tokenizer::new("", model()).is_err());
}

#[test]
fn a_tokenizer_cuts_as_the_engine_does() {
    let tokenizer = tokenizer();
    let engine = Jieba::new(BIG, model()).unwrap();
    let text = "I have two ok小明硕士毕业于中国科学院计算所，我来到北京清华大学";
    assert_eq!(tokenizer.cut_dag_no_hmm(text), engine.cut(text, false, false));
    assert_eq!(tokenizer.cut_all(text), engine.cut(text, true, false));
    assert_eq!(tokenizer.cut_dag_no_hmm(text).concat(), text);
}
