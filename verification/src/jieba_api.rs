//! The trusted interface to the external word segmenter.  The segmenter
//! tokenizes a chunk of text deterministically; the one fact the
//! pipeline's proofs rest on is that the tokens concatenate back to the
//! chunk, which the segmenter's cut guarantees by construction.

use jieba_rs::Jieba;
use jieba_rs::KeywordExtract;
use vstd::prelude::*;

verus! {

#[verifier::external_type_specification]
#[verifier::external_body]
pub struct ExJieba(Jieba);

/// The token sequence that the segmenter produces for `chunk` under the
/// given HMM flag: a function of the segmenter value and its arguments
/// alone.
pub uninterp spec fn cut_of(jieba: Jieba, chunk: Seq<char>, hmm: bool) -> Seq<Seq<char>>;

/// Relies on `Jieba::cut`: the returned words are consecutive slices of
/// the chunk, so they concatenate to the chunk in order, and the cut of
/// a fixed segmenter is a function of the chunk and the HMM flag.
#[verifier::external_body]
pub(crate) fn cut_chunk(jieba: &Jieba, chunk: &str, hmm: bool) -> (r: Vec<String>)
    ensures
        r@.map_values(|t: String| t@) == cut_of(*jieba, chunk@, hmm),
        r@.map_values(|t: String| t@).flatten() == chunk@,
{
    jieba.cut(chunk, hmm).into_iter().map(|w| w.to_owned()).collect()
}

/// Relies on `Jieba::new`: a segmenter over the bundled default
/// dictionary.
#[verifier::external_body]
pub(crate) fn new_jieba() -> Jieba {
    Jieba::new()
}

/// Relies on `TextRank::extract_keywords`: the candidates are exactly
/// the distinct words of the segmenter's cut of the text (the tagger
/// runs over that cut, without HMM, and an empty part-of-speech filter
/// admits every word), every candidate is ranked, and up to `top_k` of
/// them come back.  The ranking itself sums floating-point edge weights
/// in a hash-map walk order, so which words win is not a function of
/// the arguments alone and is not named; only what holds of every
/// outcome is stated.
#[verifier::external_body]
pub(crate) fn textrank_keywords(jieba: &Jieba, text: &str, top_k: usize) -> (r: Vec<String>)
    ensures
        r@.len() <= top_k,
        r@.len() as int == (if top_k as int <= cut_of(*jieba, text@, false).to_set().len() {
            top_k as int
        } else {
            cut_of(*jieba, text@, false).to_set().len() as int
        }),
        forall|i: int|
            0 <= i < r@.len() ==> cut_of(*jieba, text@, false).contains(#[trigger] r@[i]@),
        forall|i: int, j: int|
            0 <= i < r@.len() && 0 <= j < r@[i]@.len() ==> text@.contains(#[trigger] r@[i]@[j]),
{
    let extractor = jieba_rs::TextRank::default();
    let ranked = extractor.extract_keywords(jieba, text, top_k, Vec::new());
    ranked.into_iter().map(|k| k.keyword).collect()
}

/// The ranked word list that TF-IDF extraction yields for `text` and
/// `top_k`: a function of the segmenter value and its arguments alone.
pub uninterp spec fn tfidf_of(jieba: Jieba, text: Seq<char>, top_k: int) -> Seq<Seq<char>>;

/// Relies on `TfIdf::extract_keywords`: candidates and weights come
/// from the segmenter's cut and a fixed embedded frequency table, and
/// the winners are selected and ordered under a strict total order on
/// weight and word, so the result is a function of the segmenter, the
/// text and the count alone.  At most `top_k` words come back, each a
/// word of the text.
#[verifier::external_body]
pub(crate) fn tfidf_keywords(jieba: &Jieba, text: &str, top_k: usize) -> (r: Vec<String>)
    ensures
        r@.map_values(|t: String| t@) == tfidf_of(*jieba, text@, top_k as int),
        r@.len() <= top_k,
        forall|i: int, j: int|
            0 <= i < r@.len() && 0 <= j < r@[i]@.len() ==> text@.contains(#[trigger] r@[i]@[j]),
{
    let extractor = jieba_rs::TfIdf::default();
    let ranked = extractor.extract_keywords(jieba, text, top_k, Vec::new());
    ranked.into_iter().map(|k| k.keyword).collect()
}

} // verus!
