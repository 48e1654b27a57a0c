//! A tokenizer for whole texts in the modes that need no model for unknown
//! words: the best division of each span, and every dictionary word.

use crate::error::JResult;
use crate::hmm::HmmModel;
use crate::lattice::{advances, edges};
use crate::text::{boundary, joined, texts};
use crate::Jieba;
use vstd::prelude::*;
use vstd::string::*;

verus! {

/// A tokenizer for the modes that follow the dictionary alone.
pub struct Tokenizer {
    engine: Jieba,
}

impl Tokenizer {
    /// The engine that does the work.
    pub closed spec fn engine(&self) -> Jieba {
        self.engine
    }

    /// The engine is in order.
    pub open spec fn wf(&self) -> bool {
        self.engine().wf()
    }

    /// Makes a tokenizer from the text of a dictionary; the model lends its
    /// pattern for what lies between the spans. It is made where the text
    /// holds an entry with a count above zero and the pattern that splits a
    /// text into spans is accepted.
    pub fn new(dict_text: &str, model: HmmModel) -> (r: JResult<Tokenizer>)
        requires
            model.wf(),
        ensures
            r is Ok <==> crate::dictionary::add_text(
                crate::dictionary::empty_model(),
                dict_text.spec_bytes(),
            ).total >= 1 && crate::pattern::pattern_compiles(crate::SPLIT_PATTERN@),
            r matches Ok(t) ==> t.wf() && t.engine().model() == model && t.engine().dict()@
                == crate::dictionary::add_text(
                crate::dictionary::empty_model(),
                dict_text.spec_bytes(),
            ),
            r matches Err(e) ==> e is Unexpected,
    {
        match Jieba::new(dict_text, model) {
            Ok(engine) => Ok(Tokenizer { engine }),
            Err(e) => Err(e),
        }
    }

    /// The rows of the lattice of a sentence.
    pub fn dag(&self, sentence: &str) -> (rows: Vec<Vec<usize>>)
        ensures
            rows@.len() == sentence.spec_bytes().len(),
            forall|k: int|
                0 <= k < rows@.len() ==> (#[trigger] rows@[k])@ == (if boundary(
                    sentence.spec_bytes(),
                    k,
                ) {
                    edges(self.engine().entries(), sentence.spec_bytes(), k)
                } else {
                    Seq::<usize>::empty()
                }),
    {
        self.engine.dag(sentence)
    }

    /// The route table of a sentence.
    pub fn calc(&self, sentence: &str) -> (rs: Vec<(i128, usize)>)
        requires
            self.wf(),
        ensures
            rs@ == self.engine().routes(sentence.spec_bytes()),
            rs@.len() == sentence.spec_bytes().len() + 1,
            rs@.last() == (0i128, sentence.spec_bytes().len() as usize),
            advances(sentence.spec_bytes(), rs@),
    {
        self.engine.calc(sentence)
    }

    /// The best division of each span of a text into words; what lies
    /// between the spans is handed on as it is.
    pub fn cut_dag_no_hmm<'a>(&self, text: &'a str) -> (words: Vec<&'a str>)
        requires
            self.wf(),
        ensures
            texts(words@) == self.engine().cut_spec(text, false, false),
            joined(texts(words@)) == text.spec_bytes(),
    {
        self.engine.cut(text, false, false)
    }

    /// Every dictionary word of each span of a text; what lies between the
    /// spans is handed on as it is.
    pub fn cut_all<'a>(&self, text: &'a str) -> (words: Vec<&'a str>)
        requires
            self.wf(),
        ensures
            texts(words@) == self.engine().cut_spec(text, true, false),
    {
        self.engine.cut(text, true, false)
    }
}

} // verus!
