//! The phrase-first converter and its router.  Text splits into chunks
//! at delimiters, each chunk is tokenized by the segmenter, and every
//! token is emitted by the first matching rule: a single delimiter
//! passes verbatim, a whole-token phrase match wins over everything
//! else, and otherwise each character falls back to the first dictionary
//! that maps it.

use jieba_rs::Jieba;
use std::sync::Arc;
use vstd::prelude::*;
use vstd::string::StrSliceExecFns;
use vstd::string::StringExecFns;

use crate::dictionary_lib::DictMap;
use crate::dictionary_lib::Dictionary;
use crate::delimiter::is_delim;
use crate::delimiter::is_delimiter;
use crate::jieba_api::cut_chunk;
use crate::jieba_api::cut_of;
use crate::jieba_api::new_jieba;
use crate::jieba_api::textrank_keywords;
use crate::jieba_api::tfidf_keywords;
use crate::jieba_api::tfidf_of;
use crate::laws::delim_clean;
use crate::laws::dictionary_delim_clean;
use crate::laws::dictionary_keys_avoid;
use crate::laws::keys_avoid;
use crate::laws::lemma_delim_clean1;
use crate::laws::lemma_delim_clean2;
use crate::laws::lemma_delim_clean3;
use crate::laws::lemma_delimiters_preserved;
use crate::laws::lemma_keys_avoid1;
use crate::laws::lemma_keys_avoid2;
use crate::laws::lemma_keys_avoid3;
use crate::laws::delimiter_in_place;
use crate::laws::lemma_unmapped_tokens_identity;
use crate::opencc_config::ascii_lower;
use crate::opencc_config::config_from_chars;
use crate::opencc_config::config_of_name;
use crate::opencc_config::OpenccConfig;
use crate::punctuation::convert_punctuation;
use crate::punctuation::punct_out;
use crate::split_text::chunks_of;
use crate::split_text::lemma_split_content;
use crate::split_text::lemma_split_partition;
use crate::split_text::split_ranges_from;
use crate::split_text::split_points;
use crate::split_text::split_ranges;
use crate::split_text::split_string_ranges_text;
use crate::text::byte_off;
use crate::text::chars_to_string;
use crate::text::chars_vec;
use crate::text::clip_count;
use crate::text::clip_prefix;
use crate::text::lower_of;
use crate::text::push_char;
use crate::text::unicode_lowercase;

use core::ops::Range;

verus! {

/// The tables of a dictionary stack, in precedence order.
pub open spec fn dict_views(ds: Seq<&DictMap>) -> Seq<Map<Seq<char>, Seq<char>>> {
    ds.map_values(|d: &DictMap| d@)
}

/// The value of `key` in the first table of the stack that holds it.
pub open spec fn lookup_chain(ds: Seq<Map<Seq<char>, Seq<char>>>, key: Seq<char>) -> Option<
    Seq<char>,
>
    decreases ds.len(),
{
    if ds.len() == 0 {
        None
    } else if ds[0].contains_key(key) {
        Some(ds[0][key])
    } else {
        lookup_chain(ds.drop_first(), key)
    }
}

/// What the converter emits for the single character `c`: its mapping in
/// the first table that has one, else the character itself.
pub open spec fn convert_char_out(ds: Seq<Map<Seq<char>, Seq<char>>>, c: char) -> Seq<char> {
    match lookup_chain(ds, seq![c]) {
        Some(v) => v,
        None => seq![c],
    }
}

/// The character-by-character fallback emission for `t`.
pub open spec fn char_fallback(ds: Seq<Map<Seq<char>, Seq<char>>>, t: Seq<char>) -> Seq<char>
    decreases t.len(),
{
    if t.len() == 0 {
        Seq::empty()
    } else {
        convert_char_out(ds, t[0]) + char_fallback(ds, t.drop_first())
    }
}

/// What the converter emits for one token: an empty token emits
/// nothing, a single delimiter passes verbatim, a whole-token match in
/// the first table that has one wins, and otherwise each character
/// falls back on its own.
pub open spec fn token_out(ds: Seq<Map<Seq<char>, Seq<char>>>, t: Seq<char>) -> Seq<char> {
    if t.len() == 0 {
        Seq::empty()
    } else if t.len() == 1 && is_delim(t[0]) {
        t
    } else {
        match lookup_chain(ds, t) {
            Some(v) => v,
            None => char_fallback(ds, t),
        }
    }
}

/// The concatenated emissions for a token sequence, in order.
pub open spec fn tokens_out(ds: Seq<Map<Seq<char>, Seq<char>>>, ts: Seq<Seq<char>>) -> Seq<char>
    decreases ts.len(),
{
    if ts.len() == 0 {
        Seq::empty()
    } else {
        token_out(ds, ts[0]) + tokens_out(ds, ts.drop_first())
    }
}

/// The tokens of `s`: each chunk of the inclusive delimiter split,
/// tokenized by the segmenter, in order.
pub open spec fn segment_tokens(jieba: Jieba, s: Seq<char>, hmm: bool) -> Seq<Seq<char>> {
    chunks_of(s).map_values(|c: Seq<char>| cut_of(jieba, c, hmm)).flatten()
}

/// One conversion pass over `s` with the dictionary stack `ds`.
pub open spec fn pass_out(jieba: Jieba, s: Seq<char>, ds: Seq<Map<Seq<char>, Seq<char>>>, hmm: bool) -> Seq<char> {
    tokens_out(ds, segment_tokens(jieba, s, hmm))
}

/// The emission for one chunk: its tokens, converted in order.
pub open spec fn chunk_out(
    jieba: Jieba,
    chunk: Seq<char>,
    ds: Seq<Map<Seq<char>, Seq<char>>>,
    hmm: bool,
) -> Seq<char> {
    tokens_out(ds, cut_of(jieba, chunk, hmm))
}

/// The concatenated per-chunk emissions, in chunk order.
pub open spec fn chunks_out(
    jieba: Jieba,
    cs: Seq<Seq<char>>,
    ds: Seq<Map<Seq<char>, Seq<char>>>,
    hmm: bool,
) -> Seq<char>
    decreases cs.len(),
{
    if cs.len() == 0 {
        Seq::empty()
    } else {
        chunk_out(jieba, cs[0], ds, hmm) + chunks_out(jieba, cs.drop_first(), ds, hmm)
    }
}

/// A pass is the concatenation of its per-chunk emissions.
pub proof fn lemma_pass_is_chunks(
    jieba: &Jieba,
    cs: Seq<Seq<char>>,
    ds: Seq<Map<Seq<char>, Seq<char>>>,
    hmm: bool,
)
    ensures
        tokens_out(ds, cs.map_values(|c: Seq<char>| cut_of(*jieba, c, hmm)).flatten())
            == chunks_out(*jieba, cs, ds, hmm),
    decreases cs.len(),
{
    let m = cs.map_values(|c: Seq<char>| cut_of(*jieba, c, hmm));
    if cs.len() == 0 {
        assert(m.flatten() =~= Seq::<Seq<char>>::empty());
        assert(tokens_out(ds, m.flatten()) =~= Seq::<char>::empty());
    } else {
        assert(m.drop_first() =~= cs.drop_first().map_values(|c: Seq<char>| cut_of(
            *jieba,
            c,
            hmm,
        )));
        assert(m.flatten() == m[0] + m.drop_first().flatten());
        lemma_tokens_out_concat(ds, m[0], m.drop_first().flatten());
        lemma_pass_is_chunks(jieba, cs.drop_first(), ds, hmm);
        assert(m[0] == cut_of(*jieba, cs[0], hmm));
    }
}

/// Emissions concatenate over concatenated token sequences.
pub proof fn lemma_tokens_out_concat(
    ds: Seq<Map<Seq<char>, Seq<char>>>,
    a: Seq<Seq<char>>,
    b: Seq<Seq<char>>,
)
    ensures
        tokens_out(ds, a + b) == tokens_out(ds, a) + tokens_out(ds, b),
    decreases a.len(),
{
    if a.len() == 0 {
        assert(a + b =~= b);
        assert(tokens_out(ds, a) =~= Seq::<char>::empty());
        assert(tokens_out(ds, a) + tokens_out(ds, b) =~= tokens_out(ds, b));
    } else {
        assert((a + b).drop_first() =~= a.drop_first() + b);
        assert((a + b)[0] == a[0]);
        assert((a + b).len() > 0);
        lemma_tokens_out_concat(ds, a.drop_first(), b);
        assert(tokens_out(ds, a + b) =~= tokens_out(ds, a) + tokens_out(ds, b));
    }
}

/// The fallback emission concatenates over concatenated character
/// sequences.
pub proof fn lemma_char_fallback_concat(
    ds: Seq<Map<Seq<char>, Seq<char>>>,
    a: Seq<char>,
    b: Seq<char>,
)
    ensures
        char_fallback(ds, a + b) == char_fallback(ds, a) + char_fallback(ds, b),
    decreases a.len(),
{
    if a.len() == 0 {
        assert(a + b =~= b);
        assert(char_fallback(ds, a) =~= Seq::<char>::empty());
        assert(char_fallback(ds, a) + char_fallback(ds, b) =~= char_fallback(ds, b));
    } else {
        assert((a + b).drop_first() =~= a.drop_first() + b);
        assert((a + b)[0] == a[0]);
        assert((a + b).len() > 0);
        lemma_char_fallback_concat(ds, a.drop_first(), b);
        assert(char_fallback(ds, a + b) =~= char_fallback(ds, a) + char_fallback(ds, b));
    }
}

/// Flattening distributes over a final element.
pub proof fn lemma_flatten_push(m: Seq<Seq<Seq<char>>>, y: Seq<Seq<char>>)
    ensures
        (m.push(y)).flatten() == m.flatten() + y,
    decreases m.len(),
{
    if m.len() == 0 {
        assert(m.push(y).drop_first() =~= Seq::<Seq<Seq<char>>>::empty());
        assert(m.push(y)[0] == y);
        assert(Seq::<Seq<Seq<char>>>::empty().flatten() =~= Seq::<Seq<char>>::empty());
        assert(m.push(y).flatten() =~= y + Seq::<Seq<char>>::empty());
        assert(m.flatten() =~= Seq::<Seq<char>>::empty());
        assert(m.push(y).flatten() =~= m.flatten() + y);
    } else {
        assert(m.push(y).drop_first() =~= m.drop_first().push(y));
        assert(m.push(y)[0] == m[0]);
        lemma_flatten_push(m.drop_first(), y);
        assert(m.push(y).flatten() =~= m[0] + (m.drop_first().flatten() + y));
        assert(m.flatten() + y =~= m[0] + (m.drop_first().flatten() + y));
    }
}

/// Character-level flattening distributes over concatenation of token
/// sequences.
pub proof fn lemma_flatten_concat_chars(a: Seq<Seq<char>>, b: Seq<Seq<char>>)
    ensures
        (a + b).flatten() == a.flatten() + b.flatten(),
    decreases a.len(),
{
    if a.len() == 0 {
        assert(a + b =~= b);
        assert(a.flatten() =~= Seq::<char>::empty());
        assert(a.flatten() + b.flatten() =~= b.flatten());
    } else {
        assert((a + b).drop_first() =~= a.drop_first() + b);
        assert((a + b)[0] == a[0]);
        assert((a + b).len() > 0);
        lemma_flatten_concat_chars(a.drop_first(), b);
        assert((a + b).flatten() =~= a.flatten() + b.flatten());
    }
}

/// Every character of every token occurs in the flattening.
pub proof fn lemma_flatten_elem_contains(ts: Seq<Seq<char>>, ti: int, i: int)
    requires
        0 <= ti < ts.len(),
        0 <= i < ts[ti].len(),
    ensures
        ts.flatten().contains(ts[ti][i]),
    decreases ti,
{
    if ti == 0 {
        assert(ts.flatten() == ts[0] + ts.drop_first().flatten());
        assert(ts.flatten()[i] == ts[0][i]);
    } else {
        lemma_flatten_elem_contains(ts.drop_first(), ti - 1, i);
        assert(ts.drop_first()[ti - 1] == ts[ti]);
        let w = choose|w: int|
            0 <= w < ts.drop_first().flatten().len() && ts.drop_first().flatten()[w] == ts[ti][i];
        assert(ts.flatten() == ts[0] + ts.drop_first().flatten());
        assert(ts.flatten()[ts[0].len() + w] == ts[ti][i]);
    }
}

/// A first match at position `d`, with no match before it, is the value
/// of the whole chain.
pub proof fn lemma_lookup_chain_hit(ds: Seq<Map<Seq<char>, Seq<char>>>, key: Seq<char>, d: int)
    requires
        0 <= d < ds.len(),
        forall|j: int| 0 <= j < d ==> !(#[trigger] ds[j]).contains_key(key),
        ds[d].contains_key(key),
    ensures
        lookup_chain(ds, key) == Some(ds[d][key]),
    decreases d,
{
    if d > 0 {
        assert(ds.drop_first()[d - 1] == ds[d]);
        assert(forall|j: int| 0 <= j < d - 1 ==> ds.drop_first()[j] == ds[j + 1]);
        lemma_lookup_chain_hit(ds.drop_first(), key, d - 1);
    }
}

/// With no match in any table, the chain yields nothing.
pub proof fn lemma_lookup_chain_none(ds: Seq<Map<Seq<char>, Seq<char>>>, key: Seq<char>)
    requires
        forall|j: int| 0 <= j < ds.len() ==> !(#[trigger] ds[j]).contains_key(key),
    ensures
        lookup_chain(ds, key) is None,
    decreases ds.len(),
{
    if ds.len() > 0 {
        assert(forall|j: int| 0 <= j < ds.len() - 1 ==> ds.drop_first()[j] == ds[j + 1]);
        lemma_lookup_chain_none(ds.drop_first(), key);
    }
}

/// The value of `key` in the first dictionary of the stack that holds
/// it, if any.
fn lookup_dicts<'a>(dictionaries: &'a Vec<&'a DictMap>, key: &str) -> (r: Option<&'a str>)
    requires
        forall|k: int| 0 <= k < dictionaries@.len() ==> (#[trigger] dictionaries@[k]).wf(),
    ensures
        match r {
            Some(v) => lookup_chain(dict_views(dictionaries@), key@) == Some(v@),
            None => lookup_chain(dict_views(dictionaries@), key@) is None,
        },
{
    let n = dictionaries.len();
    let mut d: usize = 0;
    while d < n
        invariant
            n == dictionaries@.len(),
            d <= n,
            forall|k: int| 0 <= k < n ==> (#[trigger] dictionaries@[k]).wf(),
            forall|j: int|
                0 <= j < d ==> !(#[trigger] dict_views(dictionaries@)[j]).contains_key(key@),
        decreases n - d,
    {
        let dict: &DictMap = dictionaries[d];
        match dict.get(key) {
            Some(v) => {
                proof {
                    assert(dict_views(dictionaries@)[d as int] == dict@);
                    lemma_lookup_chain_hit(dict_views(dictionaries@), key@, d as int);
                }
                return Some(v);
            },
            None => {
                proof {
                    assert(dict_views(dictionaries@)[d as int] == dict@);
                }
            },
        }
        d += 1;
    }
    proof {
        lemma_lookup_chain_none(dict_views(dictionaries@), key@);
    }
    None
}

/// Appends to `out` the character-by-character fallback conversion of
/// `s` against the dictionary stack, in precedence order.
fn convert_by_char(s: &str, dictionaries: &Vec<&DictMap>, out: &mut String)
    requires
        forall|k: int| 0 <= k < dictionaries@.len() ==> (#[trigger] dictionaries@[k]).wf(),
    ensures
        final(out)@ == old(out)@ + char_fallback(dict_views(dictionaries@), s@),
{
    let ghost ds = dict_views(dictionaries@);
    let ghost base = out@;
    let chars = chars_vec(s);
    let n = chars.len();
    let mut i: usize = 0;
    proof {
        assert(s@.take(0) =~= Seq::<char>::empty());
        assert(char_fallback(ds, s@.take(0)) =~= Seq::<char>::empty());
        assert(out@ =~= base + char_fallback(ds, s@.take(0)));
    }
    while i < n
        invariant
            chars@ == s@,
            n == s@.len(),
            i <= n,
            ds == dict_views(dictionaries@),
            forall|k: int| 0 <= k < dictionaries@.len() ==> (#[trigger] dictionaries@[k]).wf(),
            out@ == base + char_fallback(ds, s@.take(i as int)),
        decreases n - i,
    {
        let c = chars[i];
        let mut key = String::new();
        push_char(&mut key, c);
        proof {
            assert(key@ =~= seq![c]);
        }
        let hit = lookup_dicts(dictionaries, key.as_str());
        match hit {
            Some(v) => {
                out.append(v);
            },
            None => {
                push_char(out, c);
            },
        }
        proof {
            assert(s@.take(i + 1) =~= s@.take(i as int).push(s@[i as int]));
            assert(s@.take(i as int).push(s@[i as int]) =~= s@.take(i as int) + seq![
                s@[i as int],
            ]);
            lemma_char_fallback_concat(ds, s@.take(i as int), seq![s@[i as int]]);
            assert(seq![s@[i as int]].drop_first() =~= Seq::<char>::empty());
            assert(char_fallback(ds, Seq::<char>::empty()) =~= Seq::<char>::empty());
            assert(char_fallback(ds, seq![s@[i as int]]) =~= convert_char_out(ds, s@[i as int])
                + Seq::<char>::empty());
            assert(char_fallback(ds, seq![s@[i as int]]) =~= convert_char_out(ds, s@[i as int]));
            assert(out@ =~= base + char_fallback(ds, s@.take(i + 1)));
        }
        i += 1;
    }
    proof {
        assert(s@.take(n as int) =~= s@);
    }
}

/// The output of the conversion named by `cfg` on `s`: one to three
/// phrase-first passes over the configuration's dictionary stacks,
/// followed by punctuation mapping where the configuration supports it
/// and `punct` asks for it.
pub open spec fn convert_spec(cc: OpenCC, s: Seq<char>, cfg: OpenccConfig, punct: bool) -> Seq<
    char,
> {
    match cfg {
        OpenccConfig::S2t => if punct {
            punct_out(pass_out(*cc.jieba, s, cc.st_stack(), true), true)
        } else {
            pass_out(*cc.jieba, s, cc.st_stack(), true)
        },
        OpenccConfig::S2tw => if punct {
            punct_out(pass_out(*cc.jieba, pass_out(*cc.jieba, s, cc.st_stack(), true), cc.tw_variants_stack(), true), true)
        } else {
            pass_out(*cc.jieba, pass_out(*cc.jieba, s, cc.st_stack(), true), cc.tw_variants_stack(), true)
        },
        OpenccConfig::S2twp => if punct {
            punct_out(pass_out(*cc.jieba, pass_out(*cc.jieba, pass_out(*cc.jieba, s, cc.st_stack(), true), cc.tw_phrases_stack(), true), cc.tw_variants_stack(), true), true)
        } else {
            pass_out(*cc.jieba, pass_out(*cc.jieba, pass_out(*cc.jieba, s, cc.st_stack(), true), cc.tw_phrases_stack(), true), cc.tw_variants_stack(), true)
        },
        OpenccConfig::S2hk => if punct {
            punct_out(pass_out(*cc.jieba, pass_out(*cc.jieba, s, cc.st_stack(), true), cc.hk_variants_stack(), true), true)
        } else {
            pass_out(*cc.jieba, pass_out(*cc.jieba, s, cc.st_stack(), true), cc.hk_variants_stack(), true)
        },
        OpenccConfig::T2s => if punct {
            punct_out(pass_out(*cc.jieba, s, cc.ts_stack(), true), false)
        } else {
            pass_out(*cc.jieba, s, cc.ts_stack(), true)
        },
        OpenccConfig::T2tw => pass_out(*cc.jieba, s, cc.tw_variants_stack(), true),
        OpenccConfig::T2twp => pass_out(*cc.jieba, pass_out(*cc.jieba, s, cc.tw_phrases_stack(), true), cc.tw_variants_stack(), true),
        OpenccConfig::T2hk => pass_out(*cc.jieba, s, cc.hk_variants_stack(), true),
        OpenccConfig::Tw2s => if punct {
            punct_out(pass_out(*cc.jieba, pass_out(*cc.jieba, s, cc.tw_rev_stack(), true), cc.ts_stack(), true), false)
        } else {
            pass_out(*cc.jieba, pass_out(*cc.jieba, s, cc.tw_rev_stack(), true), cc.ts_stack(), true)
        },
        OpenccConfig::Tw2sp => if punct {
            punct_out(pass_out(*cc.jieba, pass_out(*cc.jieba, pass_out(*cc.jieba, s, cc.tw_rev_stack(), true), cc.tw_phrases_rev_stack(), true), cc.ts_stack(), true), false)
        } else {
            pass_out(*cc.jieba, pass_out(*cc.jieba, pass_out(*cc.jieba, s, cc.tw_rev_stack(), true), cc.tw_phrases_rev_stack(), true), cc.ts_stack(), true)
        },
        OpenccConfig::Tw2t => pass_out(*cc.jieba, s, cc.tw_rev_stack(), true),
        OpenccConfig::Tw2tp => pass_out(*cc.jieba, pass_out(*cc.jieba, s, cc.tw_rev_stack(), true), cc.tw_phrases_rev_stack(), true),
        OpenccConfig::Hk2s => if punct {
            punct_out(pass_out(*cc.jieba, pass_out(*cc.jieba, s, cc.hk_rev_stack(), true), cc.ts_stack(), true), false)
        } else {
            pass_out(*cc.jieba, pass_out(*cc.jieba, s, cc.hk_rev_stack(), true), cc.ts_stack(), true)
        },
        OpenccConfig::Hk2t => pass_out(*cc.jieba, s, cc.hk_rev_stack(), true),
        OpenccConfig::Jp2t => pass_out(*cc.jieba, s, cc.jps_stack(), true),
        OpenccConfig::T2jp => pass_out(*cc.jieba, s, cc.jp_variants_stack(), true),
    }
}


/// The punctuation direction of a configuration: toward Traditional
/// corner brackets for the Simplified-to-Traditional family, toward
/// Simplified curly quotes for the reverse family, and none for the
/// configurations that never map punctuation.
pub open spec fn punct_direction(cfg: OpenccConfig) -> Option<bool> {
    match cfg {
        OpenccConfig::S2t => Some(true),
        OpenccConfig::S2tw => Some(true),
        OpenccConfig::S2twp => Some(true),
        OpenccConfig::S2hk => Some(true),
        OpenccConfig::T2s => Some(false),
        OpenccConfig::Tw2s => Some(false),
        OpenccConfig::Tw2sp => Some(false),
        OpenccConfig::Hk2s => Some(false),
        OpenccConfig::T2tw => None,
        OpenccConfig::T2twp => None,
        OpenccConfig::T2hk => None,
        OpenccConfig::Tw2t => None,
        OpenccConfig::Tw2tp => None,
        OpenccConfig::Hk2t => None,
        OpenccConfig::Jp2t => None,
        OpenccConfig::T2jp => None,
    }
}

/// The dictionary stack of a single-pass configuration, for which the
/// output is one pass and decomposes chunk by chunk over the input; a
/// multi-pass configuration has none, its chunk structure belonging to
/// the intermediate strings.
pub open spec fn single_pass_stack(cc: OpenCC, cfg: OpenccConfig) -> Option<
    Seq<Map<Seq<char>, Seq<char>>>,
> {
    match cfg {
        OpenccConfig::S2t => Some(cc.st_stack()),
        OpenccConfig::T2s => Some(cc.ts_stack()),
        OpenccConfig::T2tw => Some(cc.tw_variants_stack()),
        OpenccConfig::T2hk => Some(cc.hk_variants_stack()),
        OpenccConfig::Tw2t => Some(cc.tw_rev_stack()),
        OpenccConfig::Hk2t => Some(cc.hk_rev_stack()),
        OpenccConfig::Jp2t => Some(cc.jps_stack()),
        OpenccConfig::T2jp => Some(cc.jp_variants_stack()),
        _ => None,
    }
}

/// Whether the variant detector strips `c` before classification: ASCII
/// control whitespace, printable ASCII, or the single character
/// standing in both scripts that would bias the check.
pub open spec fn is_zho_stripped(c: char) -> bool {
    ('\u{9}' <= c && c <= '\u{d}') || (' ' <= c && c <= '~') || c == '\u{8457}'
}

fn is_zho_stripped_exec(c: char) -> (r: bool)
    ensures
        r == is_zho_stripped(c),
{
    ('\u{9}' <= c && c <= '\u{d}') || (' ' <= c && c <= '~') || c == '\u{8457}'
}

/// `s` with every stripped character removed.
pub open spec fn zho_strip(s: Seq<char>) -> Seq<char> {
    s.filter(|c: char| !is_zho_stripped(c))
}

/// The classification of `s`: a prefix of at most one thousand bytes is
/// stripped and cut to at most two hundred bytes; the result is one when
/// the Traditional-to-Simplified character conversion changes it, else
/// two when the Simplified-to-Traditional conversion changes it, else
/// zero.
pub open spec fn zho_check_spec(cc: OpenCC, s: Seq<char>) -> int {
    if s.len() == 0 {
        0
    } else {
        let t1 = s.take(clip_count(s, 1000));
        let t2 = zho_strip(t1).take(clip_count(zho_strip(t1), 200));
        if char_fallback(seq![cc.dictionary.ts_characters@], t2) != t2 {
            1
        } else if char_fallback(seq![cc.dictionary.st_characters@], t2) != t2 {
            2
        } else {
            0
        }
    }
}

/// Appending a string appends its view to the sequence of views.
proof fn lemma_map_views_push(s: Seq<String>, x: String)
    ensures
        (s.push(x)).map_values(|t: String| t@) == s.map_values(|t: String| t@).push(x@),
{
    let f = |t: String| t@;
    let a = (s.push(x)).map_values(f);
    let b = s.map_values(f).push(x@);
    assert forall|k: int| 0 <= k < a.len() implies a[k] == b[#[trigger] (k + 0)] by {
        if k < s.len() {
            assert(s.push(x)[k] == s[k]);
        } else {
            assert(s.push(x)[k] == x);
        }
    }
    assert(a =~= b);
}

/// The token texts joined by `d`, in order.
pub open spec fn join_with(ts: Seq<Seq<char>>, d: Seq<char>) -> Seq<char>
    decreases ts.len(),
{
    if ts.len() == 0 {
        Seq::empty()
    } else if ts.len() == 1 {
        ts[0]
    } else {
        ts[0] + d + join_with(ts.drop_first(), d)
    }
}

/// Joining one more token appends a separator and the token, except at
/// the front.
pub proof fn lemma_join_push(ts: Seq<Seq<char>>, t: Seq<char>, d: Seq<char>)
    ensures
        join_with(ts.push(t), d) == (if ts.len() == 0 {
            t
        } else {
            join_with(ts, d) + d + t
        }),
    decreases ts.len(),
{
    if ts.len() == 0 {
        assert(ts.push(t).len() == 1);
        assert(ts.push(t)[0] == t);
    } else if ts.len() == 1 {
        assert(ts.push(t).drop_first() =~= seq![t]);
        assert(ts.push(t)[0] == ts[0]);
        assert(join_with(seq![t], d) == t);
        assert(join_with(ts.push(t), d) =~= ts[0] + d + t);
        assert(join_with(ts, d) + d + t =~= ts[0] + d + t);
    } else {
        assert(ts.push(t).drop_first() =~= ts.drop_first().push(t));
        assert(ts.push(t)[0] == ts[0]);
        lemma_join_push(ts.drop_first(), t, d);
        assert(join_with(ts.push(t), d) =~= ts[0] + d + (join_with(ts.drop_first(), d) + d + t));
        assert(join_with(ts, d) + d + t =~= ts[0] + d + (join_with(ts.drop_first(), d) + d + t));
    }
}

/// Keywords drawn from newline-free text hold no newline or carriage
/// return.
proof fn lemma_keywords_newline_free(ks: Seq<String>, cleaned: Seq<char>, source: Seq<char>)
    requires
        cleaned == source.filter(|c: char| c != '\n' && c != '\r'),
        forall|i: int, j: int|
            0 <= i < ks.len() && 0 <= j < ks[i]@.len() ==> cleaned.contains(#[trigger] ks[i]@[j]),
    ensures
        forall|i: int, j: int|
            0 <= i < ks.len() && 0 <= j < ks[i]@.len() ==> #[trigger] ks[i]@[j] != '\n'
                && ks[i]@[j] != '\r',
{
    broadcast use vstd::seq_lib::group_seq_lib_default;

    assert forall|i: int, j: int|
        0 <= i < ks.len() && 0 <= j < ks[i]@.len() implies #[trigger] ks[i]@[j] != '\n'
        && ks[i]@[j] != '\r' by {
        let c = ks[i]@[j];
        assert(cleaned.contains(c));
        let idx = choose|idx: int| 0 <= idx < cleaned.len() && cleaned[idx] == c;
        source.lemma_filter_pred(|c2: char| c2 != '\n' && c2 != '\r', idx);
    }
}

/// `s` with every newline and carriage return removed.
fn remove_newlines(s: &str) -> (r: String)
    ensures
        r@ == s@.filter(|c: char| c != '\n' && c != '\r'),
{
    let ghost g = s@;
    let chars = chars_vec(s);
    let n = chars.len();
    let mut out: Vec<char> = Vec::new();
    let mut i: usize = 0;
    proof {
        reveal(Seq::filter);
        assert(g.take(0) =~= Seq::<char>::empty());
        assert(g.take(0).filter(|c: char| c != '\n' && c != '\r') =~= Seq::<char>::empty());
    }
    while i < n
        invariant
            chars@ == g,
            n == g.len(),
            i <= n,
            out@ == g.take(i as int).filter(|c: char| c != '\n' && c != '\r'),
        decreases n - i,
    {
        let c = chars[i];
        proof {
            reveal(Seq::filter);
            assert(g.take(i as int + 1) =~= g.take(i as int).push(g[i as int]));
            assert(g.take(i as int + 1).drop_last() =~= g.take(i as int));
        }
        if c != '\n' && c != '\r' {
            out.push(c);
        }
        proof {
            reveal(Seq::filter);
            assert(out@ =~= g.take(i as int + 1).filter(|c: char| c != '\n' && c != '\r'));
        }
        i += 1;
    }
    proof {
        assert(g.take(n as int) =~= g);
    }
    chars_to_string(&out)
}

/// The main struct for Chinese text conversion and segmentation: a
/// segmenter handle together with the dictionary bundle.
pub struct OpenCC {
    /// The segmenter.
    pub jieba: Arc<Jieba>,
    /// The conversion dictionary bundle.
    pub dictionary: Dictionary,
}

impl OpenCC {
    /// The dictionary bundle is well formed.
    pub open spec fn wf(self) -> bool {
        self.dictionary.wf()
    }

    /// Simplified-to-Traditional pass: phrases before characters.
    pub open spec fn st_stack(self) -> Seq<Map<Seq<char>, Seq<char>>> {
        seq![self.dictionary.st_phrases@, self.dictionary.st_characters@]
    }

    /// Traditional-to-Simplified pass: phrases before characters.
    pub open spec fn ts_stack(self) -> Seq<Map<Seq<char>, Seq<char>>> {
        seq![self.dictionary.ts_phrases@, self.dictionary.ts_characters@]
    }

    /// Taiwan variant pass.
    pub open spec fn tw_variants_stack(self) -> Seq<Map<Seq<char>, Seq<char>>> {
        seq![self.dictionary.tw_variants@]
    }

    /// Taiwan phrase pass.
    pub open spec fn tw_phrases_stack(self) -> Seq<Map<Seq<char>, Seq<char>>> {
        seq![self.dictionary.tw_phrases@]
    }

    /// Reverse Taiwan phrase pass.
    pub open spec fn tw_phrases_rev_stack(self) -> Seq<Map<Seq<char>, Seq<char>>> {
        seq![self.dictionary.tw_phrases_rev@]
    }

    /// Reverse Taiwan pass: variants before variant phrases.
    pub open spec fn tw_rev_stack(self) -> Seq<Map<Seq<char>, Seq<char>>> {
        seq![self.dictionary.tw_variants_rev@, self.dictionary.tw_variants_rev_phrases@]
    }

    /// Hong Kong variant pass.
    pub open spec fn hk_variants_stack(self) -> Seq<Map<Seq<char>, Seq<char>>> {
        seq![self.dictionary.hk_variants@]
    }

    /// Reverse Hong Kong pass: variant phrases before variants.
    pub open spec fn hk_rev_stack(self) -> Seq<Map<Seq<char>, Seq<char>>> {
        seq![self.dictionary.hk_variants_rev_phrases@, self.dictionary.hk_variants_rev@]
    }

    /// Japanese-to-Traditional pass: Shinjitai phrases, characters,
    /// then reverse variants.
    pub open spec fn jps_stack(self) -> Seq<Map<Seq<char>, Seq<char>>> {
        seq![self.dictionary.jps_phrases@, self.dictionary.jps_characters@, self.dictionary.jp_variants_rev@]
    }

    /// Japanese variant pass.
    pub open spec fn jp_variants_stack(self) -> Seq<Map<Seq<char>, Seq<char>>> {
        seq![self.dictionary.jp_variants@]
    }

    /// A segmentation-only instance: the segmenter's bundled dictionary
    /// and an empty conversion dictionary, under which every conversion
    /// is provably the identity (up to punctuation mapping).  For a
    /// converting instance, load tables and use [`OpenCC::with_parts`];
    /// there is deliberately no argumentless constructor that pretends
    /// to convert, since this crate ships no table data.
    pub fn without_dictionary() -> (r: OpenCC)
        ensures
            r.wf(),
            r.dictionary.schema_version == 0,
            r.dictionary.st_characters@ == Map::<Seq<char>, Seq<char>>::empty(),
            r.dictionary.st_phrases@ == Map::<Seq<char>, Seq<char>>::empty(),
            r.dictionary.ts_characters@ == Map::<Seq<char>, Seq<char>>::empty(),
            r.dictionary.ts_phrases@ == Map::<Seq<char>, Seq<char>>::empty(),
            r.dictionary.tw_phrases@ == Map::<Seq<char>, Seq<char>>::empty(),
            r.dictionary.tw_phrases_rev@ == Map::<Seq<char>, Seq<char>>::empty(),
            r.dictionary.tw_variants@ == Map::<Seq<char>, Seq<char>>::empty(),
            r.dictionary.tw_variants_rev@ == Map::<Seq<char>, Seq<char>>::empty(),
            r.dictionary.tw_variants_rev_phrases@ == Map::<Seq<char>, Seq<char>>::empty(),
            r.dictionary.hk_variants@ == Map::<Seq<char>, Seq<char>>::empty(),
            r.dictionary.hk_variants_rev@ == Map::<Seq<char>, Seq<char>>::empty(),
            r.dictionary.hk_variants_rev_phrases@ == Map::<Seq<char>, Seq<char>>::empty(),
            r.dictionary.jps_characters@ == Map::<Seq<char>, Seq<char>>::empty(),
            r.dictionary.jps_phrases@ == Map::<Seq<char>, Seq<char>>::empty(),
            r.dictionary.jp_variants@ == Map::<Seq<char>, Seq<char>>::empty(),
            r.dictionary.jp_variants_rev@ == Map::<Seq<char>, Seq<char>>::empty(),
    {
        OpenCC { jieba: Arc::new(new_jieba()), dictionary: Dictionary::default() }
    }

    /// A converter over the given segmenter and dictionary bundle.
    pub fn with_parts(jieba: Jieba, dictionary: Dictionary) -> (r: OpenCC)
        requires
            dictionary.wf(),
        ensures
            r.wf(),
            r.dictionary == dictionary,
            r.jieba == jieba,
    {
        OpenCC { jieba: Arc::new(jieba), dictionary }
    }

    /// Phrase-first conversion of `input` against the dictionary stack:
    /// the input splits into chunks at delimiters, the segmenter
    /// tokenizes each chunk, and every token is emitted by the first
    /// matching rule.
    fn phrases_cut_convert(&self, input: &str, dictionaries: &Vec<&DictMap>, hmm: bool) -> (r:
        String)
        requires
            forall|k: int| 0 <= k < dictionaries@.len() ==> (#[trigger] dictionaries@[k]).wf(),
        ensures
            r@ == pass_out(*self.jieba, input@, dict_views(dictionaries@), hmm),
            r@ == chunks_out(*self.jieba, chunks_of(input@), dict_views(dictionaries@), hmm),
            delim_clean(dict_views(dictionaries@)) ==> r@.filter(|c: char| is_delim(c))
                == input@.filter(|c: char| is_delim(c)),
            delim_clean(dict_views(dictionaries@)) ==> forall|k: int|
                0 <= k < chunks_of(input@).len() ==> delimiter_in_place(
                    #[trigger] chunks_of(input@)[k],
                    chunk_out(*self.jieba, chunks_of(input@)[k], dict_views(dictionaries@), hmm),
                ),
            keys_avoid(dict_views(dictionaries@), input@) ==> r@ == input@,
    {
        let ghost s = input@;
        let ghost ds = dict_views(dictionaries@);
        let ghost cs = chunks_of(s);
        let ghost m = cs.map_values(|c: Seq<char>| cut_of(*self.jieba, c, hmm));
        let chars = chars_vec(input);
        let points = split_points(&chars, true);
        proof {
            lemma_split_partition(s, 0, 0, true);
            assert forall|j: int| 0 <= j < points@.len() implies 0 <= (#[trigger] points@[j]).0
                && points@[j].0 < points@[j].1 && points@[j].1 <= s.len() by {
                let mapped = points@.map_values(|q: (usize, usize)| (q.0 as int, q.1 as int));
                assert(mapped[j] == (points@[j].0 as int, points@[j].1 as int));
                assert(split_ranges(s, true)[j].0 < split_ranges(s, true)[j].1);
                assert(split_ranges(s, true)[j].1 <= s.len());
            }
            assert forall|j: int| 0 <= j < points@.len() - 1 implies (#[trigger] points@[j]).1
                == points@[j + 1].0 by {
                let mapped = points@.map_values(|q: (usize, usize)| (q.0 as int, q.1 as int));
                assert(mapped[j] == (points@[j].0 as int, points@[j].1 as int));
                assert(mapped[j + 1] == (points@[j + 1].0 as int, points@[j + 1].1 as int));
                assert(split_ranges(s, true)[j].1 == split_ranges(s, true)[j + 1].0);
            }
            if points@.len() > 0 {
                let mapped = points@.map_values(|q: (usize, usize)| (q.0 as int, q.1 as int));
                assert(mapped[0] == (points@[0].0 as int, points@[0].1 as int));
                let last = points@.len() - 1;
                assert(mapped[last] == (points@[last].0 as int, points@[last].1 as int));
                assert(points@[0].0 == 0 && points@[points@.len() - 1].1 == s.len());
            } else {
                assert(s.len() == 0);
            }
            assert(m.take(0) =~= Seq::<Seq<Seq<char>>>::empty());
            assert(m.take(0).flatten() =~= Seq::<Seq<char>>::empty());
            assert(m.take(0).flatten().flatten() =~= Seq::<char>::empty());
            assert(s.take(0) =~= Seq::<char>::empty());
        }
        let mut out = String::new();
        let pn = points.len();
        let mut p: usize = 0;
        while p < pn
            invariant
                s == input@,
                ds == dict_views(dictionaries@),
                forall|k: int| 0 <= k < dictionaries@.len() ==> (#[trigger] dictionaries@[k]).wf(),
                cs == chunks_of(s),
                m == cs.map_values(|c: Seq<char>| cut_of(*self.jieba, c, hmm)),
                pn == points@.len(),
                points@.map_values(|q: (usize, usize)| (q.0 as int, q.1 as int)) == split_ranges(
                    s,
                    true,
                ),
                pn == cs.len(),
                forall|j: int|
                    0 <= j < pn ==> 0 <= (#[trigger] points@[j]).0 && points@[j].0 < points@[j].1
                        && points@[j].1 <= s.len(),
                forall|j: int|
                    0 <= j < pn - 1 ==> (#[trigger] points@[j]).1 == points@[j + 1].0,
                pn > 0 ==> points@[0].0 == 0 && points@[pn - 1].1 == s.len(),
                pn == 0 ==> s.len() == 0,
                p <= pn,
                out@ == tokens_out(ds, m.take(p as int).flatten()),
                m.take(p as int).flatten().flatten() == s.take(
                    if p < pn {
                        points@[p as int].0 as int
                    } else {
                        s.len() as int
                    },
                ),
                forall|k: int| 0 <= k < p ==> (#[trigger] m[k]).flatten() == cs[k],
            decreases pn - p,
        {
            let (a, b) = points[p];
            proof {
                assert(points@.map_values(|q: (usize, usize)| (q.0 as int, q.1 as int))[p as int]
                    == (a as int, b as int));
                assert(cs[p as int] == s.subrange(a as int, b as int));
            }
            let chunk = input.substring_char(a, b);
            let tokens = cut_chunk(&self.jieba, chunk, hmm);
            let ghost tokvs = tokens@.map_values(|t: String| t@);
            proof {
                assert(tokvs == cut_of(*self.jieba, cs[p as int], hmm));
                assert(m[p as int] == tokvs);
                assert(m[p as int].flatten() == cs[p as int]);
                assert(tokvs.take(0) =~= Seq::<Seq<char>>::empty());
                assert(tokens_out(ds, tokvs.take(0)) =~= Seq::<char>::empty());
            }
            let ghost done = m.take(p as int).flatten();
            let tn = tokens.len();
            let mut q: usize = 0;
            while q < tn
                invariant
                    ds == dict_views(dictionaries@),
                    forall|k: int|
                        0 <= k < dictionaries@.len() ==> (#[trigger] dictionaries@[k]).wf(),
                    tn == tokens@.len(),
                    q <= tn,
                    tokvs == tokens@.map_values(|t: String| t@),
                    out@ == tokens_out(ds, done) + tokens_out(ds, tokvs.take(q as int)),
                decreases tn - q,
            {
                let t = &tokens[q];
                let ghost tv = tokvs[q as int];
                proof {
                    assert(tv == t@);
                }
                if !t.as_str().is_empty() {
                    let mut handled = false;
                    if t.as_str().unicode_len() == 1 {
                        let c = t.as_str().get_char(0);
                        if is_delimiter(c) {
                            out.append(t.as_str());
                            handled = true;
                            proof {
                                assert(tv =~= seq![tv[0]]);
                                assert(token_out(ds, tv) == tv);
                            }
                        }
                    }
                    if !handled {
                        let hit = lookup_dicts(dictionaries, t.as_str());
                        match hit {
                            Some(v) => {
                                out.append(v);
                                proof {
                                    assert(token_out(ds, tv) == v@);
                                }
                            },
                            None => {
                                convert_by_char(t.as_str(), dictionaries, &mut out);
                                proof {
                                    assert(token_out(ds, tv) == char_fallback(ds, tv));
                                }
                            },
                        }
                    }
                } else {
                    proof {
                        assert(token_out(ds, tv) =~= Seq::<char>::empty());
                    }
                }
                proof {
                    assert(tokvs.take(q + 1) =~= tokvs.take(q as int).push(tv));
                    assert(tokvs.take(q as int).push(tv) =~= tokvs.take(q as int) + seq![tv]);
                    lemma_tokens_out_concat(ds, tokvs.take(q as int), seq![tv]);
                    assert(seq![tv].drop_first() =~= Seq::<Seq<char>>::empty());
                    assert(tokens_out(ds, Seq::<Seq<char>>::empty()) =~= Seq::<char>::empty());
                    assert(tokens_out(ds, seq![tv]) =~= token_out(ds, tv) + Seq::<char>::empty());
                    assert(tokens_out(ds, seq![tv]) =~= token_out(ds, tv));
                    assert(out@ =~= tokens_out(ds, done) + tokens_out(ds, tokvs.take(q + 1)));
                }
                q += 1;
            }
            proof {
                assert(tokvs.take(tn as int) =~= tokvs);
                assert(m.take(p + 1) =~= m.take(p as int).push(tokvs));
                lemma_flatten_push(m.take(p as int), tokvs);
                lemma_tokens_out_concat(ds, done, tokvs);
                assert(out@ =~= tokens_out(ds, m.take(p + 1).flatten()));
                lemma_flatten_concat_chars(done, tokvs);
                assert(tokvs.flatten() == s.subrange(a as int, b as int));
                assert(s.take(a as int) + s.subrange(a as int, b as int) =~= s.take(b as int));
                assert(m.take(p + 1).flatten().flatten() == s.take(b as int));
                if p + 1 < pn {
                    assert(points@[p as int].1 == points@[p as int + 1].0);
                } else {
                    assert(points@[pn - 1].1 == s.len());
                }
            }
            p += 1;
        }
        proof {
            assert(m.take(pn as int) =~= m);
            let all = m.flatten();
            assert(s.take(s.len() as int) =~= s);
            assert(all.flatten() == s);
            lemma_pass_is_chunks(&*self.jieba, cs, ds, hmm);
            if delim_clean(ds) {
                lemma_delimiters_preserved(ds, all);
                lemma_split_content(s, 0, 0);
                assert forall|k: int| 0 <= k < cs.len() implies delimiter_in_place(
                    #[trigger] cs[k],
                    chunk_out(*self.jieba, cs[k], ds, hmm),
                ) by {
                    let (ca, cb) = (points@[k].0 as int, points@[k].1 as int);
                    assert(split_ranges(s, true)[k] == (ca, cb)) by {
                        let mapped = points@.map_values(
                            |q: (usize, usize)| (q.0 as int, q.1 as int),
                        );
                        assert(mapped[k] == (points@[k].0 as int, points@[k].1 as int));
                    }
                    let ck = cs[k];
                    assert(ck == s.subrange(ca, cb));
                    assert forall|pos: int| 0 <= pos < ck.len() - 1 implies !is_delim(
                        #[trigger] ck[pos],
                    ) by {
                        assert(ck[pos] == s[ca + pos]);
                        assert(split_ranges_from(s, 0, 0, true)[k].0 <= ca + pos
                            < split_ranges_from(s, 0, 0, true)[k].1 - 1);
                    }
                    assert(m[k].flatten() == ck);
                    assert(ck.len() > 0);
                    if is_delim(ck.last()) {
                        crate::laws::lemma_chunk_emission_in_place(ds, m[k], ck);
                    } else {
                        assert forall|pos: int| 0 <= pos < ck.len() implies !is_delim(
                            #[trigger] ck[pos],
                        ) by {}
                        crate::laws::lemma_tokens_no_delims(ds, m[k]);
                    }
                }
            }
            if keys_avoid(ds, s) {
                assert forall|ti: int, i: int|
                    0 <= ti < all.len() && 0 <= i < all[ti].len() implies s.contains(
                    #[trigger] all[ti][i],
                ) by {
                    lemma_flatten_elem_contains(all, ti, i);
                }
                lemma_unmapped_tokens_identity(ds, all, s);
            }
        }
        out
    }

    /// Converts Simplified Chinese to Traditional Chinese.
    pub fn s2t(&self, input: &str, punctuation: bool) -> (r: String)
        requires
            self.wf(),
        ensures
            r@ == convert_spec(*self, input@, OpenccConfig::S2t, punctuation),
            !punctuation ==> r@ == chunks_out(*self.jieba, chunks_of(input@), self.st_stack(), true),
            !punctuation && delim_clean(self.st_stack()) ==> forall|k: int|
                0 <= k < chunks_of(input@).len() ==> delimiter_in_place(
                    #[trigger] chunks_of(input@)[k],
                    chunk_out(*self.jieba, chunks_of(input@)[k], self.st_stack(), true),
                ),
            !punctuation && delim_clean(self.st_stack()) ==> r@.filter(|c: char| is_delim(c)) == input@.filter(
                |c: char| is_delim(c),
            ),
            keys_avoid(self.st_stack(), input@) ==> r@ == (if punctuation {
                punct_out(input@, true)
            } else {
                input@
            }),
    {
        let mut dict_refs_0: Vec<&DictMap> = Vec::new();
        dict_refs_0.push(&self.dictionary.st_phrases);
        dict_refs_0.push(&self.dictionary.st_characters);
        proof {
            assert(dict_views(dict_refs_0@) =~= self.st_stack());
        }
        let r0 = self.phrases_cut_convert(input, &dict_refs_0, true);
        if punctuation {
            proof {
                reveal_strlit("s");
            }
            convert_punctuation(r0.as_str(), "s")
        } else {
            r0
        }
    }

    /// Converts Simplified Chinese to Traditional Chinese, Taiwan standard.
    pub fn s2tw(&self, input: &str, punctuation: bool) -> (r: String)
        requires
            self.wf(),
        ensures
            r@ == convert_spec(*self, input@, OpenccConfig::S2tw, punctuation),
            !punctuation ==> r@ == chunks_out(
                *self.jieba,
                chunks_of(pass_out(*self.jieba, input@, self.st_stack(), true)),
                self.tw_variants_stack(),
                true,
            ),
            delim_clean(self.st_stack()) ==> forall|k: int|
                0 <= k < chunks_of(input@).len() ==> delimiter_in_place(
                    #[trigger] chunks_of(input@)[k],
                    chunk_out(*self.jieba, chunks_of(input@)[k], self.st_stack(), true),
                ),
            delim_clean(self.tw_variants_stack()) ==> forall|k: int|
                0 <= k < chunks_of(pass_out(*self.jieba, input@, self.st_stack(), true)).len() ==> delimiter_in_place(
                    #[trigger] chunks_of(pass_out(*self.jieba, input@, self.st_stack(), true))[k],
                    chunk_out(*self.jieba, chunks_of(pass_out(*self.jieba, input@, self.st_stack(), true))[k], self.tw_variants_stack(), true),
                ),
            !punctuation && delim_clean(self.st_stack()) && delim_clean(self.tw_variants_stack()) ==> r@.filter(|c: char| is_delim(c)) == input@.filter(
                |c: char| is_delim(c),
            ),
            keys_avoid(self.st_stack(), input@) && keys_avoid(self.tw_variants_stack(), input@) ==> r@ == (if punctuation {
                punct_out(input@, true)
            } else {
                input@
            }),
    {
        let mut dict_refs_0: Vec<&DictMap> = Vec::new();
        dict_refs_0.push(&self.dictionary.st_phrases);
        dict_refs_0.push(&self.dictionary.st_characters);
        proof {
            assert(dict_views(dict_refs_0@) =~= self.st_stack());
        }
        let r0 = self.phrases_cut_convert(input, &dict_refs_0, true);
        let mut dict_refs_1: Vec<&DictMap> = Vec::new();
        dict_refs_1.push(&self.dictionary.tw_variants);
        proof {
            assert(dict_views(dict_refs_1@) =~= self.tw_variants_stack());
        }
        let r1 = self.phrases_cut_convert(r0.as_str(), &dict_refs_1, true);
        if punctuation {
            proof {
                reveal_strlit("s");
            }
            convert_punctuation(r1.as_str(), "s")
        } else {
            r1
        }
    }

    /// Converts Simplified Chinese to Traditional Chinese, Taiwan standard,
    /// applying Taiwan phrase mappings.
    pub fn s2twp(&self, input: &str, punctuation: bool) -> (r: String)
        requires
            self.wf(),
        ensures
            r@ == convert_spec(*self, input@, OpenccConfig::S2twp, punctuation),
            !punctuation ==> r@ == chunks_out(
                *self.jieba,
                chunks_of(pass_out(*self.jieba, pass_out(*self.jieba, input@, self.st_stack(), true), self.tw_phrases_stack(), true)),
                self.tw_variants_stack(),
                true,
            ),
            delim_clean(self.st_stack()) ==> forall|k: int|
                0 <= k < chunks_of(input@).len() ==> delimiter_in_place(
                    #[trigger] chunks_of(input@)[k],
                    chunk_out(*self.jieba, chunks_of(input@)[k], self.st_stack(), true),
                ),
            delim_clean(self.tw_phrases_stack()) ==> forall|k: int|
                0 <= k < chunks_of(pass_out(*self.jieba, input@, self.st_stack(), true)).len() ==> delimiter_in_place(
                    #[trigger] chunks_of(pass_out(*self.jieba, input@, self.st_stack(), true))[k],
                    chunk_out(*self.jieba, chunks_of(pass_out(*self.jieba, input@, self.st_stack(), true))[k], self.tw_phrases_stack(), true),
                ),
            delim_clean(self.tw_variants_stack()) ==> forall|k: int|
                0 <= k < chunks_of(pass_out(*self.jieba, pass_out(*self.jieba, input@, self.st_stack(), true), self.tw_phrases_stack(), true)).len() ==> delimiter_in_place(
                    #[trigger] chunks_of(pass_out(*self.jieba, pass_out(*self.jieba, input@, self.st_stack(), true), self.tw_phrases_stack(), true))[k],
                    chunk_out(*self.jieba, chunks_of(pass_out(*self.jieba, pass_out(*self.jieba, input@, self.st_stack(), true), self.tw_phrases_stack(), true))[k], self.tw_variants_stack(), true),
                ),
            !punctuation && delim_clean(self.st_stack()) && delim_clean(self.tw_phrases_stack()) && delim_clean(self.tw_variants_stack()) ==> r@.filter(|c: char| is_delim(c)) == input@.filter(
                |c: char| is_delim(c),
            ),
            keys_avoid(self.st_stack(), input@) && keys_avoid(self.tw_phrases_stack(), input@) && keys_avoid(self.tw_variants_stack(), input@) ==> r@ == (if punctuation {
                punct_out(input@, true)
            } else {
                input@
            }),
    {
        let mut dict_refs_0: Vec<&DictMap> = Vec::new();
        dict_refs_0.push(&self.dictionary.st_phrases);
        dict_refs_0.push(&self.dictionary.st_characters);
        proof {
            assert(dict_views(dict_refs_0@) =~= self.st_stack());
        }
        let r0 = self.phrases_cut_convert(input, &dict_refs_0, true);
        let mut dict_refs_1: Vec<&DictMap> = Vec::new();
        dict_refs_1.push(&self.dictionary.tw_phrases);
        proof {
            assert(dict_views(dict_refs_1@) =~= self.tw_phrases_stack());
        }
        let r1 = self.phrases_cut_convert(r0.as_str(), &dict_refs_1, true);
        let mut dict_refs_2: Vec<&DictMap> = Vec::new();
        dict_refs_2.push(&self.dictionary.tw_variants);
        proof {
            assert(dict_views(dict_refs_2@) =~= self.tw_variants_stack());
        }
        let r2 = self.phrases_cut_convert(r1.as_str(), &dict_refs_2, true);
        if punctuation {
            proof {
                reveal_strlit("s");
            }
            convert_punctuation(r2.as_str(), "s")
        } else {
            r2
        }
    }

    /// Converts Simplified Chinese to Traditional Chinese, Hong Kong standard.
    pub fn s2hk(&self, input: &str, punctuation: bool) -> (r: String)
        requires
            self.wf(),
        ensures
            r@ == convert_spec(*self, input@, OpenccConfig::S2hk, punctuation),
            !punctuation ==> r@ == chunks_out(
                *self.jieba,
                chunks_of(pass_out(*self.jieba, input@, self.st_stack(), true)),
                self.hk_variants_stack(),
                true,
            ),
            delim_clean(self.st_stack()) ==> forall|k: int|
                0 <= k < chunks_of(input@).len() ==> delimiter_in_place(
                    #[trigger] chunks_of(input@)[k],
                    chunk_out(*self.jieba, chunks_of(input@)[k], self.st_stack(), true),
                ),
            delim_clean(self.hk_variants_stack()) ==> forall|k: int|
                0 <= k < chunks_of(pass_out(*self.jieba, input@, self.st_stack(), true)).len() ==> delimiter_in_place(
                    #[trigger] chunks_of(pass_out(*self.jieba, input@, self.st_stack(), true))[k],
                    chunk_out(*self.jieba, chunks_of(pass_out(*self.jieba, input@, self.st_stack(), true))[k], self.hk_variants_stack(), true),
                ),
            !punctuation && delim_clean(self.st_stack()) && delim_clean(self.hk_variants_stack()) ==> r@.filter(|c: char| is_delim(c)) == input@.filter(
                |c: char| is_delim(c),
            ),
            keys_avoid(self.st_stack(), input@) && keys_avoid(self.hk_variants_stack(), input@) ==> r@ == (if punctuation {
                punct_out(input@, true)
            } else {
                input@
            }),
    {
        let mut dict_refs_0: Vec<&DictMap> = Vec::new();
        dict_refs_0.push(&self.dictionary.st_phrases);
        dict_refs_0.push(&self.dictionary.st_characters);
        proof {
            assert(dict_views(dict_refs_0@) =~= self.st_stack());
        }
        let r0 = self.phrases_cut_convert(input, &dict_refs_0, true);
        let mut dict_refs_1: Vec<&DictMap> = Vec::new();
        dict_refs_1.push(&self.dictionary.hk_variants);
        proof {
            assert(dict_views(dict_refs_1@) =~= self.hk_variants_stack());
        }
        let r1 = self.phrases_cut_convert(r0.as_str(), &dict_refs_1, true);
        if punctuation {
            proof {
                reveal_strlit("s");
            }
            convert_punctuation(r1.as_str(), "s")
        } else {
            r1
        }
    }

    /// Converts Traditional Chinese to Simplified Chinese.
    pub fn t2s(&self, input: &str, punctuation: bool) -> (r: String)
        requires
            self.wf(),
        ensures
            r@ == convert_spec(*self, input@, OpenccConfig::T2s, punctuation),
            !punctuation ==> r@ == chunks_out(*self.jieba, chunks_of(input@), self.ts_stack(), true),
            !punctuation && delim_clean(self.ts_stack()) ==> forall|k: int|
                0 <= k < chunks_of(input@).len() ==> delimiter_in_place(
                    #[trigger] chunks_of(input@)[k],
                    chunk_out(*self.jieba, chunks_of(input@)[k], self.ts_stack(), true),
                ),
            !punctuation && delim_clean(self.ts_stack()) ==> r@.filter(|c: char| is_delim(c)) == input@.filter(
                |c: char| is_delim(c),
            ),
            keys_avoid(self.ts_stack(), input@) ==> r@ == (if punctuation {
                punct_out(input@, false)
            } else {
                input@
            }),
    {
        let mut dict_refs_0: Vec<&DictMap> = Vec::new();
        dict_refs_0.push(&self.dictionary.ts_phrases);
        dict_refs_0.push(&self.dictionary.ts_characters);
        proof {
            assert(dict_views(dict_refs_0@) =~= self.ts_stack());
        }
        let r0 = self.phrases_cut_convert(input, &dict_refs_0, true);
        if punctuation {
            proof {
                reveal_strlit("t");
            }
            convert_punctuation(r0.as_str(), "t")
        } else {
            r0
        }
    }

    /// Converts Traditional Chinese to the Taiwan standard.
    pub fn t2tw(&self, input: &str) -> (r: String)
        requires
            self.wf(),
        ensures
            r@ == convert_spec(*self, input@, OpenccConfig::T2tw, false),
            r@ == chunks_out(*self.jieba, chunks_of(input@), self.tw_variants_stack(), true),
            delim_clean(self.tw_variants_stack()) ==> forall|k: int|
                0 <= k < chunks_of(input@).len() ==> delimiter_in_place(
                    #[trigger] chunks_of(input@)[k],
                    chunk_out(*self.jieba, chunks_of(input@)[k], self.tw_variants_stack(), true),
                ),
            delim_clean(self.tw_variants_stack()) ==> r@.filter(|c: char| is_delim(c)) == input@.filter(
                |c: char| is_delim(c),
            ),
            keys_avoid(self.tw_variants_stack(), input@) ==> r@ == input@,
    {
        let mut dict_refs_0: Vec<&DictMap> = Vec::new();
        dict_refs_0.push(&self.dictionary.tw_variants);
        proof {
            assert(dict_views(dict_refs_0@) =~= self.tw_variants_stack());
        }
        let r0 = self.phrases_cut_convert(input, &dict_refs_0, true);
        r0
    }

    /// Converts Traditional Chinese to the Taiwan standard, applying Taiwan
    /// phrase mappings.
    pub fn t2twp(&self, input: &str) -> (r: String)
        requires
            self.wf(),
        ensures
            r@ == convert_spec(*self, input@, OpenccConfig::T2twp, false),
            r@ == chunks_out(
                *self.jieba,
                chunks_of(pass_out(*self.jieba, input@, self.tw_phrases_stack(), true)),
                self.tw_variants_stack(),
                true,
            ),
            delim_clean(self.tw_phrases_stack()) ==> forall|k: int|
                0 <= k < chunks_of(input@).len() ==> delimiter_in_place(
                    #[trigger] chunks_of(input@)[k],
                    chunk_out(*self.jieba, chunks_of(input@)[k], self.tw_phrases_stack(), true),
                ),
            delim_clean(self.tw_variants_stack()) ==> forall|k: int|
                0 <= k < chunks_of(pass_out(*self.jieba, input@, self.tw_phrases_stack(), true)).len() ==> delimiter_in_place(
                    #[trigger] chunks_of(pass_out(*self.jieba, input@, self.tw_phrases_stack(), true))[k],
                    chunk_out(*self.jieba, chunks_of(pass_out(*self.jieba, input@, self.tw_phrases_stack(), true))[k], self.tw_variants_stack(), true),
                ),
            delim_clean(self.tw_phrases_stack()) && delim_clean(self.tw_variants_stack()) ==> r@.filter(|c: char| is_delim(c)) == input@.filter(
                |c: char| is_delim(c),
            ),
            keys_avoid(self.tw_phrases_stack(), input@) && keys_avoid(self.tw_variants_stack(), input@) ==> r@ == input@,
    {
        let mut dict_refs_0: Vec<&DictMap> = Vec::new();
        dict_refs_0.push(&self.dictionary.tw_phrases);
        proof {
            assert(dict_views(dict_refs_0@) =~= self.tw_phrases_stack());
        }
        let r0 = self.phrases_cut_convert(input, &dict_refs_0, true);
        let mut dict_refs_1: Vec<&DictMap> = Vec::new();
        dict_refs_1.push(&self.dictionary.tw_variants);
        proof {
            assert(dict_views(dict_refs_1@) =~= self.tw_variants_stack());
        }
        let r1 = self.phrases_cut_convert(r0.as_str(), &dict_refs_1, true);
        r1
    }

    /// Converts Traditional Chinese to the Hong Kong standard.
    pub fn t2hk(&self, input: &str) -> (r: String)
        requires
            self.wf(),
        ensures
            r@ == convert_spec(*self, input@, OpenccConfig::T2hk, false),
            r@ == chunks_out(*self.jieba, chunks_of(input@), self.hk_variants_stack(), true),
            delim_clean(self.hk_variants_stack()) ==> forall|k: int|
                0 <= k < chunks_of(input@).len() ==> delimiter_in_place(
                    #[trigger] chunks_of(input@)[k],
                    chunk_out(*self.jieba, chunks_of(input@)[k], self.hk_variants_stack(), true),
                ),
            delim_clean(self.hk_variants_stack()) ==> r@.filter(|c: char| is_delim(c)) == input@.filter(
                |c: char| is_delim(c),
            ),
            keys_avoid(self.hk_variants_stack(), input@) ==> r@ == input@,
    {
        let mut dict_refs_0: Vec<&DictMap> = Vec::new();
        dict_refs_0.push(&self.dictionary.hk_variants);
        proof {
            assert(dict_views(dict_refs_0@) =~= self.hk_variants_stack());
        }
        let r0 = self.phrases_cut_convert(input, &dict_refs_0, true);
        r0
    }

    /// Converts Taiwan-standard Traditional Chinese to Simplified Chinese.
    pub fn tw2s(&self, input: &str, punctuation: bool) -> (r: String)
        requires
            self.wf(),
        ensures
            r@ == convert_spec(*self, input@, OpenccConfig::Tw2s, punctuation),
            !punctuation ==> r@ == chunks_out(
                *self.jieba,
                chunks_of(pass_out(*self.jieba, input@, self.tw_rev_stack(), true)),
                self.ts_stack(),
                true,
            ),
            delim_clean(self.tw_rev_stack()) ==> forall|k: int|
                0 <= k < chunks_of(input@).len() ==> delimiter_in_place(
                    #[trigger] chunks_of(input@)[k],
                    chunk_out(*self.jieba, chunks_of(input@)[k], self.tw_rev_stack(), true),
                ),
            delim_clean(self.ts_stack()) ==> forall|k: int|
                0 <= k < chunks_of(pass_out(*self.jieba, input@, self.tw_rev_stack(), true)).len() ==> delimiter_in_place(
                    #[trigger] chunks_of(pass_out(*self.jieba, input@, self.tw_rev_stack(), true))[k],
                    chunk_out(*self.jieba, chunks_of(pass_out(*self.jieba, input@, self.tw_rev_stack(), true))[k], self.ts_stack(), true),
                ),
            !punctuation && delim_clean(self.tw_rev_stack()) && delim_clean(self.ts_stack()) ==> r@.filter(|c: char| is_delim(c)) == input@.filter(
                |c: char| is_delim(c),
            ),
            keys_avoid(self.tw_rev_stack(), input@) && keys_avoid(self.ts_stack(), input@) ==> r@ == (if punctuation {
                punct_out(input@, false)
            } else {
                input@
            }),
    {
        let mut dict_refs_0: Vec<&DictMap> = Vec::new();
        dict_refs_0.push(&self.dictionary.tw_variants_rev);
        dict_refs_0.push(&self.dictionary.tw_variants_rev_phrases);
        proof {
            assert(dict_views(dict_refs_0@) =~= self.tw_rev_stack());
        }
        let r0 = self.phrases_cut_convert(input, &dict_refs_0, true);
        let mut dict_refs_1: Vec<&DictMap> = Vec::new();
        dict_refs_1.push(&self.dictionary.ts_phrases);
        dict_refs_1.push(&self.dictionary.ts_characters);
        proof {
            assert(dict_views(dict_refs_1@) =~= self.ts_stack());
        }
        let r1 = self.phrases_cut_convert(r0.as_str(), &dict_refs_1, true);
        if punctuation {
            proof {
                reveal_strlit("t");
            }
            convert_punctuation(r1.as_str(), "t")
        } else {
            r1
        }
    }

    /// Converts Taiwan-standard Traditional Chinese to Simplified Chinese,
    /// reversing Taiwan phrase mappings.
    pub fn tw2sp(&self, input: &str, punctuation: bool) -> (r: String)
        requires
            self.wf(),
        ensures
            r@ == convert_spec(*self, input@, OpenccConfig::Tw2sp, punctuation),
            !punctuation ==> r@ == chunks_out(
                *self.jieba,
                chunks_of(pass_out(*self.jieba, pass_out(*self.jieba, input@, self.tw_rev_stack(), true), self.tw_phrases_rev_stack(), true)),
                self.ts_stack(),
                true,
            ),
            delim_clean(self.tw_rev_stack()) ==> forall|k: int|
                0 <= k < chunks_of(input@).len() ==> delimiter_in_place(
                    #[trigger] chunks_of(input@)[k],
                    chunk_out(*self.jieba, chunks_of(input@)[k], self.tw_rev_stack(), true),
                ),
            delim_clean(self.tw_phrases_rev_stack()) ==> forall|k: int|
                0 <= k < chunks_of(pass_out(*self.jieba, input@, self.tw_rev_stack(), true)).len() ==> delimiter_in_place(
                    #[trigger] chunks_of(pass_out(*self.jieba, input@, self.tw_rev_stack(), true))[k],
                    chunk_out(*self.jieba, chunks_of(pass_out(*self.jieba, input@, self.tw_rev_stack(), true))[k], self.tw_phrases_rev_stack(), true),
                ),
            delim_clean(self.ts_stack()) ==> forall|k: int|
                0 <= k < chunks_of(pass_out(*self.jieba, pass_out(*self.jieba, input@, self.tw_rev_stack(), true), self.tw_phrases_rev_stack(), true)).len() ==> delimiter_in_place(
                    #[trigger] chunks_of(pass_out(*self.jieba, pass_out(*self.jieba, input@, self.tw_rev_stack(), true), self.tw_phrases_rev_stack(), true))[k],
                    chunk_out(*self.jieba, chunks_of(pass_out(*self.jieba, pass_out(*self.jieba, input@, self.tw_rev_stack(), true), self.tw_phrases_rev_stack(), true))[k], self.ts_stack(), true),
                ),
            !punctuation && delim_clean(self.tw_rev_stack()) && delim_clean(self.tw_phrases_rev_stack()) && delim_clean(self.ts_stack()) ==> r@.filter(|c: char| is_delim(c)) == input@.filter(
                |c: char| is_delim(c),
            ),
            keys_avoid(self.tw_rev_stack(), input@) && keys_avoid(self.tw_phrases_rev_stack(), input@) && keys_avoid(self.ts_stack(), input@) ==> r@ == (if punctuation {
                punct_out(input@, false)
            } else {
                input@
            }),
    {
        let mut dict_refs_0: Vec<&DictMap> = Vec::new();
        dict_refs_0.push(&self.dictionary.tw_variants_rev);
        dict_refs_0.push(&self.dictionary.tw_variants_rev_phrases);
        proof {
            assert(dict_views(dict_refs_0@) =~= self.tw_rev_stack());
        }
        let r0 = self.phrases_cut_convert(input, &dict_refs_0, true);
        let mut dict_refs_1: Vec<&DictMap> = Vec::new();
        dict_refs_1.push(&self.dictionary.tw_phrases_rev);
        proof {
            assert(dict_views(dict_refs_1@) =~= self.tw_phrases_rev_stack());
        }
        let r1 = self.phrases_cut_convert(r0.as_str(), &dict_refs_1, true);
        let mut dict_refs_2: Vec<&DictMap> = Vec::new();
        dict_refs_2.push(&self.dictionary.ts_phrases);
        dict_refs_2.push(&self.dictionary.ts_characters);
        proof {
            assert(dict_views(dict_refs_2@) =~= self.ts_stack());
        }
        let r2 = self.phrases_cut_convert(r1.as_str(), &dict_refs_2, true);
        if punctuation {
            proof {
                reveal_strlit("t");
            }
            convert_punctuation(r2.as_str(), "t")
        } else {
            r2
        }
    }

    /// Converts Taiwan-standard Traditional Chinese to Traditional Chinese.
    pub fn tw2t(&self, input: &str) -> (r: String)
        requires
            self.wf(),
        ensures
            r@ == convert_spec(*self, input@, OpenccConfig::Tw2t, false),
            r@ == chunks_out(*self.jieba, chunks_of(input@), self.tw_rev_stack(), true),
            delim_clean(self.tw_rev_stack()) ==> forall|k: int|
                0 <= k < chunks_of(input@).len() ==> delimiter_in_place(
                    #[trigger] chunks_of(input@)[k],
                    chunk_out(*self.jieba, chunks_of(input@)[k], self.tw_rev_stack(), true),
                ),
            delim_clean(self.tw_rev_stack()) ==> r@.filter(|c: char| is_delim(c)) == input@.filter(
                |c: char| is_delim(c),
            ),
            keys_avoid(self.tw_rev_stack(), input@) ==> r@ == input@,
    {
        let mut dict_refs_0: Vec<&DictMap> = Vec::new();
        dict_refs_0.push(&self.dictionary.tw_variants_rev);
        dict_refs_0.push(&self.dictionary.tw_variants_rev_phrases);
        proof {
            assert(dict_views(dict_refs_0@) =~= self.tw_rev_stack());
        }
        let r0 = self.phrases_cut_convert(input, &dict_refs_0, true);
        r0
    }

    /// Converts Taiwan-standard Traditional Chinese to Traditional Chinese,
    /// reversing Taiwan phrase mappings.
    pub fn tw2tp(&self, input: &str) -> (r: String)
        requires
            self.wf(),
        ensures
            r@ == convert_spec(*self, input@, OpenccConfig::Tw2tp, false),
            r@ == chunks_out(
                *self.jieba,
                chunks_of(pass_out(*self.jieba, input@, self.tw_rev_stack(), true)),
                self.tw_phrases_rev_stack(),
                true,
            ),
            delim_clean(self.tw_rev_stack()) ==> forall|k: int|
                0 <= k < chunks_of(input@).len() ==> delimiter_in_place(
                    #[trigger] chunks_of(input@)[k],
                    chunk_out(*self.jieba, chunks_of(input@)[k], self.tw_rev_stack(), true),
                ),
            delim_clean(self.tw_phrases_rev_stack()) ==> forall|k: int|
                0 <= k < chunks_of(pass_out(*self.jieba, input@, self.tw_rev_stack(), true)).len() ==> delimiter_in_place(
                    #[trigger] chunks_of(pass_out(*self.jieba, input@, self.tw_rev_stack(), true))[k],
                    chunk_out(*self.jieba, chunks_of(pass_out(*self.jieba, input@, self.tw_rev_stack(), true))[k], self.tw_phrases_rev_stack(), true),
                ),
            delim_clean(self.tw_rev_stack()) && delim_clean(self.tw_phrases_rev_stack()) ==> r@.filter(|c: char| is_delim(c)) == input@.filter(
                |c: char| is_delim(c),
            ),
            keys_avoid(self.tw_rev_stack(), input@) && keys_avoid(self.tw_phrases_rev_stack(), input@) ==> r@ == input@,
    {
        let mut dict_refs_0: Vec<&DictMap> = Vec::new();
        dict_refs_0.push(&self.dictionary.tw_variants_rev);
        dict_refs_0.push(&self.dictionary.tw_variants_rev_phrases);
        proof {
            assert(dict_views(dict_refs_0@) =~= self.tw_rev_stack());
        }
        let r0 = self.phrases_cut_convert(input, &dict_refs_0, true);
        let mut dict_refs_1: Vec<&DictMap> = Vec::new();
        dict_refs_1.push(&self.dictionary.tw_phrases_rev);
        proof {
            assert(dict_views(dict_refs_1@) =~= self.tw_phrases_rev_stack());
        }
        let r1 = self.phrases_cut_convert(r0.as_str(), &dict_refs_1, true);
        r1
    }

    /// Converts Hong Kong-standard Traditional Chinese to Simplified Chinese.
    pub fn hk2s(&self, input: &str, punctuation: bool) -> (r: String)
        requires
            self.wf(),
        ensures
            r@ == convert_spec(*self, input@, OpenccConfig::Hk2s, punctuation),
            !punctuation ==> r@ == chunks_out(
                *self.jieba,
                chunks_of(pass_out(*self.jieba, input@, self.hk_rev_stack(), true)),
                self.ts_stack(),
                true,
            ),
            delim_clean(self.hk_rev_stack()) ==> forall|k: int|
                0 <= k < chunks_of(input@).len() ==> delimiter_in_place(
                    #[trigger] chunks_of(input@)[k],
                    chunk_out(*self.jieba, chunks_of(input@)[k], self.hk_rev_stack(), true),
                ),
            delim_clean(self.ts_stack()) ==> forall|k: int|
                0 <= k < chunks_of(pass_out(*self.jieba, input@, self.hk_rev_stack(), true)).len() ==> delimiter_in_place(
                    #[trigger] chunks_of(pass_out(*self.jieba, input@, self.hk_rev_stack(), true))[k],
                    chunk_out(*self.jieba, chunks_of(pass_out(*self.jieba, input@, self.hk_rev_stack(), true))[k], self.ts_stack(), true),
                ),
            !punctuation && delim_clean(self.hk_rev_stack()) && delim_clean(self.ts_stack()) ==> r@.filter(|c: char| is_delim(c)) == input@.filter(
                |c: char| is_delim(c),
            ),
            keys_avoid(self.hk_rev_stack(), input@) && keys_avoid(self.ts_stack(), input@) ==> r@ == (if punctuation {
                punct_out(input@, false)
            } else {
                input@
            }),
    {
        let mut dict_refs_0: Vec<&DictMap> = Vec::new();
        dict_refs_0.push(&self.dictionary.hk_variants_rev_phrases);
        dict_refs_0.push(&self.dictionary.hk_variants_rev);
        proof {
            assert(dict_views(dict_refs_0@) =~= self.hk_rev_stack());
        }
        let r0 = self.phrases_cut_convert(input, &dict_refs_0, true);
        let mut dict_refs_1: Vec<&DictMap> = Vec::new();
        dict_refs_1.push(&self.dictionary.ts_phrases);
        dict_refs_1.push(&self.dictionary.ts_characters);
        proof {
            assert(dict_views(dict_refs_1@) =~= self.ts_stack());
        }
        let r1 = self.phrases_cut_convert(r0.as_str(), &dict_refs_1, true);
        if punctuation {
            proof {
                reveal_strlit("t");
            }
            convert_punctuation(r1.as_str(), "t")
        } else {
            r1
        }
    }

    /// Converts Hong Kong-standard Traditional Chinese to Traditional Chinese.
    pub fn hk2t(&self, input: &str) -> (r: String)
        requires
            self.wf(),
        ensures
            r@ == convert_spec(*self, input@, OpenccConfig::Hk2t, false),
            r@ == chunks_out(*self.jieba, chunks_of(input@), self.hk_rev_stack(), true),
            delim_clean(self.hk_rev_stack()) ==> forall|k: int|
                0 <= k < chunks_of(input@).len() ==> delimiter_in_place(
                    #[trigger] chunks_of(input@)[k],
                    chunk_out(*self.jieba, chunks_of(input@)[k], self.hk_rev_stack(), true),
                ),
            delim_clean(self.hk_rev_stack()) ==> r@.filter(|c: char| is_delim(c)) == input@.filter(
                |c: char| is_delim(c),
            ),
            keys_avoid(self.hk_rev_stack(), input@) ==> r@ == input@,
    {
        let mut dict_refs_0: Vec<&DictMap> = Vec::new();
        dict_refs_0.push(&self.dictionary.hk_variants_rev_phrases);
        dict_refs_0.push(&self.dictionary.hk_variants_rev);
        proof {
            assert(dict_views(dict_refs_0@) =~= self.hk_rev_stack());
        }
        let r0 = self.phrases_cut_convert(input, &dict_refs_0, true);
        r0
    }

    /// Converts Japanese Shinjitai to Traditional Chinese.
    pub fn jp2t(&self, input: &str) -> (r: String)
        requires
            self.wf(),
        ensures
            r@ == convert_spec(*self, input@, OpenccConfig::Jp2t, false),
            r@ == chunks_out(*self.jieba, chunks_of(input@), self.jps_stack(), true),
            delim_clean(self.jps_stack()) ==> forall|k: int|
                0 <= k < chunks_of(input@).len() ==> delimiter_in_place(
                    #[trigger] chunks_of(input@)[k],
                    chunk_out(*self.jieba, chunks_of(input@)[k], self.jps_stack(), true),
                ),
            delim_clean(self.jps_stack()) ==> r@.filter(|c: char| is_delim(c)) == input@.filter(
                |c: char| is_delim(c),
            ),
            keys_avoid(self.jps_stack(), input@) ==> r@ == input@,
    {
        let mut dict_refs_0: Vec<&DictMap> = Vec::new();
        dict_refs_0.push(&self.dictionary.jps_phrases);
        dict_refs_0.push(&self.dictionary.jps_characters);
        dict_refs_0.push(&self.dictionary.jp_variants_rev);
        proof {
            assert(dict_views(dict_refs_0@) =~= self.jps_stack());
        }
        let r0 = self.phrases_cut_convert(input, &dict_refs_0, true);
        r0
    }

    /// Converts Traditional Chinese to Japanese Shinjitai.
    pub fn t2jp(&self, input: &str) -> (r: String)
        requires
            self.wf(),
        ensures
            r@ == convert_spec(*self, input@, OpenccConfig::T2jp, false),
            r@ == chunks_out(*self.jieba, chunks_of(input@), self.jp_variants_stack(), true),
            delim_clean(self.jp_variants_stack()) ==> forall|k: int|
                0 <= k < chunks_of(input@).len() ==> delimiter_in_place(
                    #[trigger] chunks_of(input@)[k],
                    chunk_out(*self.jieba, chunks_of(input@)[k], self.jp_variants_stack(), true),
                ),
            delim_clean(self.jp_variants_stack()) ==> r@.filter(|c: char| is_delim(c)) == input@.filter(
                |c: char| is_delim(c),
            ),
            keys_avoid(self.jp_variants_stack(), input@) ==> r@ == input@,
    {
        let mut dict_refs_0: Vec<&DictMap> = Vec::new();
        dict_refs_0.push(&self.dictionary.jp_variants);
        proof {
            assert(dict_views(dict_refs_0@) =~= self.jp_variants_stack());
        }
        let r0 = self.phrases_cut_convert(input, &dict_refs_0, true);
        r0
    }

    /// Converts `input` under the configuration named by `config`,
    /// folded through full Unicode lowercasing.  An unknown name yields
    /// the diagnostic `Invalid config: ` followed by the name as given.
    ///
    /// Whatever the configuration: with delimiter-clean tables the
    /// delimiter characters of the input come through verbatim wherever
    /// no punctuation mapping runs, and on text whose characters no
    /// table key uses, conversion is the identity up to the punctuation
    /// mapping.
    pub fn convert(&self, input: &str, config: &str, punctuation: bool) -> (r: String)
        requires
            self.wf(),
        ensures
            match config_of_name(lower_of(config@)) {
                Some(cfg) => r@ == convert_spec(*self, input@, cfg, punctuation),
                None => r@ == "Invalid config: "@ + config@,
            },
            match config_of_name(lower_of(config@)) {
                Some(cfg) => dictionary_delim_clean(self.dictionary) && !(punctuation
                    && punct_direction(cfg) is Some) ==> r@.filter(|c: char| is_delim(c))
                    == input@.filter(|c: char| is_delim(c)),
                None => true,
            },
            match config_of_name(lower_of(config@)) {
                Some(cfg) => dictionary_keys_avoid(self.dictionary, input@) ==> r@ == (
                match punct_direction(cfg) {
                    Some(d) => if punctuation {
                        punct_out(input@, d)
                    } else {
                        input@
                    },
                    None => input@,
                }),
                None => true,
            },
            vstd::utf8::is_ascii_chars(config@) ==> lower_of(config@) == ascii_lower(config@),
            match config_of_name(lower_of(config@)) {
                Some(cfg) => match single_pass_stack(*self, cfg) {
                    Some(st) => dictionary_delim_clean(self.dictionary) && !(punctuation
                        && punct_direction(cfg) is Some) ==> r@ == chunks_out(
                        *self.jieba,
                        chunks_of(input@),
                        st,
                        true,
                    ) && (forall|k: int|
                        0 <= k < chunks_of(input@).len() ==> delimiter_in_place(
                            #[trigger] chunks_of(input@)[k],
                            chunk_out(*self.jieba, chunks_of(input@)[k], st, true),
                        )),
                    None => true,
                },
                None => true,
            },
    {
        proof {
            let d = self.dictionary;
            if dictionary_delim_clean(d) {
                lemma_delim_clean2(d.st_phrases@, d.st_characters@);
                lemma_delim_clean2(d.ts_phrases@, d.ts_characters@);
                lemma_delim_clean1(d.tw_variants@);
                lemma_delim_clean1(d.tw_phrases@);
                lemma_delim_clean1(d.tw_phrases_rev@);
                lemma_delim_clean2(d.tw_variants_rev@, d.tw_variants_rev_phrases@);
                lemma_delim_clean1(d.hk_variants@);
                lemma_delim_clean2(d.hk_variants_rev_phrases@, d.hk_variants_rev@);
                lemma_delim_clean1(d.jp_variants@);
                lemma_delim_clean3(d.jps_phrases@, d.jps_characters@, d.jp_variants_rev@);
            }
            if dictionary_keys_avoid(d, input@) {
                lemma_keys_avoid2(d.st_phrases@, d.st_characters@, input@);
                lemma_keys_avoid2(d.ts_phrases@, d.ts_characters@, input@);
                lemma_keys_avoid1(d.tw_variants@, input@);
                lemma_keys_avoid1(d.tw_phrases@, input@);
                lemma_keys_avoid1(d.tw_phrases_rev@, input@);
                lemma_keys_avoid2(d.tw_variants_rev@, d.tw_variants_rev_phrases@, input@);
                lemma_keys_avoid1(d.hk_variants@, input@);
                lemma_keys_avoid2(d.hk_variants_rev_phrases@, d.hk_variants_rev@, input@);
                lemma_keys_avoid1(d.jp_variants@, input@);
                lemma_keys_avoid3(d.jps_phrases@, d.jps_characters@, d.jp_variants_rev@, input@);
            }
        }
        let lowered = unicode_lowercase(config);
        let lower_chars = chars_vec(lowered.as_str());
        match config_from_chars(&lower_chars) {
            Some(cfg) => match cfg {
                OpenccConfig::S2t => self.s2t(input, punctuation),
                OpenccConfig::S2tw => self.s2tw(input, punctuation),
                OpenccConfig::S2twp => self.s2twp(input, punctuation),
                OpenccConfig::S2hk => self.s2hk(input, punctuation),
                OpenccConfig::T2s => self.t2s(input, punctuation),
                OpenccConfig::T2tw => self.t2tw(input),
                OpenccConfig::T2twp => self.t2twp(input),
                OpenccConfig::T2hk => self.t2hk(input),
                OpenccConfig::Tw2s => self.tw2s(input, punctuation),
                OpenccConfig::Tw2sp => self.tw2sp(input, punctuation),
                OpenccConfig::Tw2t => self.tw2t(input),
                OpenccConfig::Tw2tp => self.tw2tp(input),
                OpenccConfig::Hk2s => self.hk2s(input, punctuation),
                OpenccConfig::Hk2t => self.hk2t(input),
                OpenccConfig::Jp2t => self.jp2t(input),
                OpenccConfig::T2jp => self.t2jp(input),
            },
            None => {
                let mut msg = String::from_str("Invalid config: ");
                msg.append(config);
                msg
            },
        }
    }

    /// Character-level Simplified-to-Traditional conversion of `input`
    /// against the character table alone.
    fn st(&self, input: &str) -> (r: String)
        requires
            self.wf(),
        ensures
            r@ == char_fallback(seq![self.dictionary.st_characters@], input@),
    {
        let mut dict_refs: Vec<&DictMap> = Vec::new();
        dict_refs.push(&self.dictionary.st_characters);
        proof {
            assert(dict_views(dict_refs@) =~= seq![self.dictionary.st_characters@]);
        }
        let mut out = String::new();
        convert_by_char(input, &dict_refs, &mut out);
        out
    }

    /// Character-level Traditional-to-Simplified conversion of `input`
    /// against the character table alone.
    fn ts(&self, input: &str) -> (r: String)
        requires
            self.wf(),
        ensures
            r@ == char_fallback(seq![self.dictionary.ts_characters@], input@),
    {
        let mut dict_refs: Vec<&DictMap> = Vec::new();
        dict_refs.push(&self.dictionary.ts_characters);
        proof {
            assert(dict_views(dict_refs@) =~= seq![self.dictionary.ts_characters@]);
        }
        let mut out = String::new();
        convert_by_char(input, &dict_refs, &mut out);
        out
    }

    /// Classifies `input` as Traditional (one), Simplified (two) or
    /// neither (zero): a bounded prefix is stripped of ASCII text and
    /// punctuation, and the classification asks which character-level
    /// conversion changes what remains.
    pub fn zho_check(&self, input: &str) -> (r: i32)
        requires
            self.wf(),
        ensures
            r == zho_check_spec(*self, input@),
    {
        if input.is_empty() {
            return 0;
        }
        let chars = chars_vec(input);
        let k1 = clip_prefix(&chars, 1000);
        let ghost t1 = input@.take(k1 as int);
        let mut stripped: Vec<char> = Vec::new();
        let mut i: usize = 0;
        proof {
            reveal(Seq::filter);
            assert(t1.take(0) =~= Seq::<char>::empty());
            assert(zho_strip(t1.take(0)) =~= Seq::<char>::empty());
        }
        while i < k1
            invariant
                chars@ == input@,
                k1 <= input@.len(),
                t1 == input@.take(k1 as int),
                i <= k1,
                stripped@ == zho_strip(t1.take(i as int)),
            decreases k1 - i,
        {
            let c = chars[i];
            proof {
                reveal(Seq::filter);
                assert(t1.take(i as int + 1) =~= t1.take(i as int).push(t1[i as int]));
                assert(t1.take(i as int + 1).drop_last() =~= t1.take(i as int));
                assert(t1[i as int] == input@[i as int]);
            }
            if !is_zho_stripped_exec(c) {
                stripped.push(c);
            }
            proof {
                reveal(Seq::filter);
                assert(stripped@ =~= zho_strip(t1.take(i as int + 1)));
            }
            i += 1;
        }
        proof {
            assert(t1.take(k1 as int) =~= t1);
        }
        let k2 = clip_prefix(&stripped, 200);
        stripped.truncate(k2);
        proof {
            assert(stripped@ =~= zho_strip(t1).take(k2 as int));
        }
        let strip_text = chars_to_string(&stripped);
        let conv_ts = self.ts(strip_text.as_str());
        if !(strip_text == conv_ts) {
            return 1;
        }
        let conv_st = self.st(strip_text.as_str());
        if !(strip_text == conv_st) {
            return 2;
        }
        0
    }

    /// Splits `input` into non-overlapping byte ranges at the delimiter
    /// set; see [`crate::split_text::split_ranges`] for the ranges and
    /// their byte spans.
    pub fn split_string_ranges(&self, text: &str, inclusive: bool) -> (r: Vec<Range<usize>>)
        ensures
            r@.len() == split_ranges(text@, inclusive).len(),
            forall|k: int|
                0 <= k < r@.len() ==> (#[trigger] r@[k]).start == byte_off(
                    text@,
                    split_ranges(text@, inclusive)[k].0,
                ) && r@[k].end == byte_off(text@, split_ranges(text@, inclusive)[k].1),
    {
        split_string_ranges_text(text, inclusive)
    }

    /// Segments `input`: each delimiter-bounded chunk is tokenized by
    /// the segmenter and the tokens are returned in order.
    pub fn jieba_cut(&self, input: &str, hmm: bool) -> (r: Vec<String>)
        ensures
            r@.map_values(|t: String| t@) == segment_tokens(*self.jieba, input@, hmm),
            r@.map_values(|t: String| t@).flatten() == input@,
    {
        let ghost s = input@;
        let ghost cs = chunks_of(s);
        let ghost m = cs.map_values(|c: Seq<char>| cut_of(*self.jieba, c, hmm));
        let chars = chars_vec(input);
        let points = split_points(&chars, true);
        proof {
            lemma_split_partition(s, 0, 0, true);
            assert forall|j: int| 0 <= j < points@.len() implies 0 <= (#[trigger] points@[j]).0
                && points@[j].0 < points@[j].1 && points@[j].1 <= s.len() by {
                let mapped = points@.map_values(|q: (usize, usize)| (q.0 as int, q.1 as int));
                assert(mapped[j] == (points@[j].0 as int, points@[j].1 as int));
                assert(split_ranges(s, true)[j].0 < split_ranges(s, true)[j].1);
                assert(split_ranges(s, true)[j].1 <= s.len());
            }
            assert forall|j: int| 0 <= j < points@.len() - 1 implies (#[trigger] points@[j]).1
                == points@[j + 1].0 by {
                let mapped = points@.map_values(|q: (usize, usize)| (q.0 as int, q.1 as int));
                assert(mapped[j] == (points@[j].0 as int, points@[j].1 as int));
                assert(mapped[j + 1] == (points@[j + 1].0 as int, points@[j + 1].1 as int));
                assert(split_ranges(s, true)[j].1 == split_ranges(s, true)[j + 1].0);
            }
            if points@.len() > 0 {
                let mapped = points@.map_values(|q: (usize, usize)| (q.0 as int, q.1 as int));
                assert(mapped[0] == (points@[0].0 as int, points@[0].1 as int));
                let last = points@.len() - 1;
                assert(mapped[last] == (points@[last].0 as int, points@[last].1 as int));
                assert(points@[0].0 == 0 && points@[last].1 == s.len());
            } else {
                assert(s.len() == 0);
            }
            assert(m.take(0) =~= Seq::<Seq<Seq<char>>>::empty());
            assert(m.take(0).flatten() =~= Seq::<Seq<char>>::empty());
            assert(m.take(0).flatten().flatten() =~= Seq::<char>::empty());
            assert(s.take(0) =~= Seq::<char>::empty());
        }
        let mut out: Vec<String> = Vec::new();
        proof {
            assert(out@.map_values(|t: String| t@) =~= Seq::<Seq<char>>::empty());
        }
        let pn = points.len();
        let mut p: usize = 0;
        while p < pn
            invariant
                s == input@,
                cs == chunks_of(s),
                m == cs.map_values(|c: Seq<char>| cut_of(*self.jieba, c, hmm)),
                pn == points@.len(),
                points@.map_values(|q: (usize, usize)| (q.0 as int, q.1 as int)) == split_ranges(
                    s,
                    true,
                ),
                pn == cs.len(),
                forall|j: int|
                    0 <= j < pn ==> 0 <= (#[trigger] points@[j]).0 && points@[j].0 < points@[j].1
                        && points@[j].1 <= s.len(),
                forall|j: int|
                    0 <= j < pn - 1 ==> (#[trigger] points@[j]).1 == points@[j + 1].0,
                pn > 0 ==> points@[0].0 == 0 && points@[pn - 1].1 == s.len(),
                pn == 0 ==> s.len() == 0,
                p <= pn,
                out@.map_values(|t: String| t@) == m.take(p as int).flatten(),
                m.take(p as int).flatten().flatten() == s.take(
                    if p < pn {
                        points@[p as int].0 as int
                    } else {
                        s.len() as int
                    },
                ),
            decreases pn - p,
        {
            let (a, b) = points[p];
            proof {
                assert(points@.map_values(|q: (usize, usize)| (q.0 as int, q.1 as int))[p as int]
                    == (a as int, b as int));
                assert(cs[p as int] == s.subrange(a as int, b as int));
            }
            let chunk = input.substring_char(a, b);
            let tokens = cut_chunk(&self.jieba, chunk, hmm);
            let ghost tokvs = tokens@.map_values(|t: String| t@);
            proof {
                assert(tokvs == cut_of(*self.jieba, cs[p as int], hmm));
                assert(m[p as int] == tokvs);
            }
            let ghost done = out@.map_values(|t: String| t@);
            let tn = tokens.len();
            let mut q: usize = 0;
            while q < tn
                invariant
                    tn == tokens@.len(),
                    q <= tn,
                    tokvs == tokens@.map_values(|t: String| t@),
                    out@.map_values(|t: String| t@) == done + tokvs.take(q as int),
                decreases tn - q,
            {
                let tok = tokens[q].clone();
                proof {
                    assert(tok@ == tokvs[q as int]);
                }
                let ghost old_out = out@;
                out.push(tok);
                proof {
                    assert(tokvs.take(q as int + 1) =~= tokvs.take(q as int).push(
                        tokvs[q as int],
                    ));
                    assert(out@ =~= old_out.push(tok));
                    lemma_map_views_push(old_out, tok);
                    assert(done + tokvs.take(q as int).push(tokvs[q as int]) =~= done
                        + tokvs.take(q as int + 1));
                    assert(out@.map_values(|t: String| t@) =~= done + tokvs.take(q as int + 1));
                }
                q += 1;
            }
            proof {
                assert(tokvs.take(tn as int) =~= tokvs);
                assert(m.take(p as int + 1) =~= m.take(p as int).push(tokvs));
                lemma_flatten_push(m.take(p as int), tokvs);
                assert(out@.map_values(|t: String| t@) =~= m.take(p as int + 1).flatten());
                lemma_flatten_concat_chars(m.take(p as int).flatten(), tokvs);
                assert(tokvs.flatten() == s.subrange(a as int, b as int));
                assert(s.take(a as int) + s.subrange(a as int, b as int) =~= s.take(b as int));
                assert(m.take(p as int + 1).flatten().flatten() == s.take(b as int));
                if p + 1 < pn {
                    assert(points@[p as int].1 == points@[p as int + 1].0);
                } else {
                    assert(points@[pn - 1].1 == s.len());
                }
            }
            p += 1;
        }
        proof {
            assert(m.take(pn as int) =~= m);
            assert(s.take(s.len() as int) =~= s);
        }
        out
    }

    /// Segments `input` and joins the tokens with `delimiter`.
    pub fn jieba_cut_and_join(&self, input: &str, hmm: bool, delimiter: &str) -> (r: String)
        ensures
            r@ == join_with(segment_tokens(*self.jieba, input@, hmm), delimiter@),
    {
        let tokens = self.jieba_cut(input, hmm);
        let ghost tv = tokens@.map_values(|t: String| t@);
        let mut out = String::new();
        let n = tokens.len();
        let mut i: usize = 0;
        proof {
            assert(tv.take(0) =~= Seq::<Seq<char>>::empty());
            assert(join_with(tv.take(0), delimiter@) =~= Seq::<char>::empty());
        }
        while i < n
            invariant
                n == tokens@.len(),
                tv == tokens@.map_values(|t: String| t@),
                i <= n,
                out@ == join_with(tv.take(i as int), delimiter@),
            decreases n - i,
        {
            if i > 0 {
                out.append(delimiter);
            }
            out.append(tokens[i].as_str());
            proof {
                assert(tv.take(i as int + 1) =~= tv.take(i as int).push(tv[i as int]));
                lemma_join_push(tv.take(i as int), tv[i as int], delimiter@);
            }
            i += 1;
        }
        proof {
            assert(tv.take(n as int) =~= tv);
        }
        out
    }

    /// Extracts keywords from `input` with the segmenter's TextRank
    /// engine, newlines removed beforehand.  The candidates are the
    /// distinct words of the segmenter's cut of the cleaned input: as
    /// many of them come back as fit in `tok_k`, each one of those
    /// words, none holding a newline or carriage return.  Which words
    /// win is the engine's own ranking.
    pub fn keyword_extract_textrank(&self, input: &str, tok_k: usize) -> (r: Vec<String>)
        ensures
            r@.len() <= tok_k,
            r@.len() as int == (if tok_k as int <= cut_of(
                *self.jieba,
                input@.filter(|c: char| c != '\n' && c != '\r'),
                false,
            ).to_set().len() {
                tok_k as int
            } else {
                cut_of(
                    *self.jieba,
                    input@.filter(|c: char| c != '\n' && c != '\r'),
                    false,
                ).to_set().len() as int
            }),
            forall|i: int|
                0 <= i < r@.len() ==> cut_of(
                    *self.jieba,
                    input@.filter(|c: char| c != '\n' && c != '\r'),
                    false,
                ).contains(#[trigger] r@[i]@),
            forall|i: int, j: int|
                0 <= i < r@.len() && 0 <= j < r@[i]@.len() ==> #[trigger] r@[i]@[j] != '\n'
                    && r@[i]@[j] != '\r',
    {
        let cleaned = remove_newlines(input);
        let r = textrank_keywords(&self.jieba, cleaned.as_str(), tok_k);
        proof {
            lemma_keywords_newline_free(r@, cleaned@, input@);
        }
        r
    }

    /// Extracts the top `top_k` keywords of `input` under the
    /// segmenter's TF-IDF ranking, newlines removed beforehand: the
    /// result is exactly that ranked list, so no keyword holds a
    /// newline or carriage return.
    pub fn keyword_extract_tfidf(&self, input: &str, top_k: usize) -> (r: Vec<String>)
        ensures
            r@.map_values(|t: String| t@) == tfidf_of(
                *self.jieba,
                input@.filter(|c: char| c != '\n' && c != '\r'),
                top_k as int,
            ),
            r@.len() <= top_k,
            forall|i: int, j: int|
                0 <= i < r@.len() && 0 <= j < r@[i]@.len() ==> #[trigger] r@[i]@[j] != '\n'
                    && r@[i]@[j] != '\r',
    {
        let cleaned = remove_newlines(input);
        let r = tfidf_keywords(&self.jieba, cleaned.as_str(), top_k);
        proof {
            lemma_keywords_newline_free(r@, cleaned@, input@);
        }
        r
    }

}

} // verus!
