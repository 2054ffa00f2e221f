//! The library's general guarantees, stated and proved once over the
//! conversion model: every output is valid UTF-8, conversion is a
//! function of its inputs alone, a whole-token phrase match always wins,
//! delimiters pass through conversion verbatim, and text that no table
//! mentions comes back unchanged.

use vstd::prelude::*;
use vstd::seq_lib::group_seq_lib_default;
use vstd::utf8::encode_utf8;
use vstd::utf8::encode_utf8_valid_utf8;
use vstd::utf8::valid_utf8;

use crate::core_conv::char_fallback;
use crate::core_conv::convert_spec;
use crate::core_conv::lookup_chain;
use crate::core_conv::token_out;
use crate::core_conv::tokens_out;
use crate::core_conv::OpenCC;
use crate::delimiter::is_delim;
use crate::dictionary_lib::Dictionary;
use crate::opencc_config::OpenccConfig;

verus! {

/// Every conversion result is valid UTF-8: the output is a character
/// sequence, and the UTF-8 encoding of any character sequence is valid.
pub proof fn lemma_convert_output_utf8(
    cc: OpenCC,
    s: Seq<char>,
    cfg: OpenccConfig,
    punct: bool,
)
    ensures
        valid_utf8(encode_utf8(convert_spec(cc, s, cfg, punct))),
{
    encode_utf8_valid_utf8(convert_spec(cc, s, cfg, punct));
}

/// Conversion output is a function of the segmenter, the dictionary
/// views, the configuration, the input and the punctuation flag alone:
/// two converters that agree on those produce byte-identical output, on
/// every run and under any execution regime.
pub proof fn lemma_convert_deterministic(
    a: OpenCC,
    b: OpenCC,
    s: Seq<char>,
    cfg: OpenccConfig,
    punct: bool,
)
    requires
        *a.jieba == *b.jieba,
        a.dictionary.st_characters@ == b.dictionary.st_characters@,
        a.dictionary.st_phrases@ == b.dictionary.st_phrases@,
        a.dictionary.ts_characters@ == b.dictionary.ts_characters@,
        a.dictionary.ts_phrases@ == b.dictionary.ts_phrases@,
        a.dictionary.tw_phrases@ == b.dictionary.tw_phrases@,
        a.dictionary.tw_phrases_rev@ == b.dictionary.tw_phrases_rev@,
        a.dictionary.tw_variants@ == b.dictionary.tw_variants@,
        a.dictionary.tw_variants_rev@ == b.dictionary.tw_variants_rev@,
        a.dictionary.tw_variants_rev_phrases@ == b.dictionary.tw_variants_rev_phrases@,
        a.dictionary.hk_variants@ == b.dictionary.hk_variants@,
        a.dictionary.hk_variants_rev@ == b.dictionary.hk_variants_rev@,
        a.dictionary.hk_variants_rev_phrases@ == b.dictionary.hk_variants_rev_phrases@,
        a.dictionary.jps_characters@ == b.dictionary.jps_characters@,
        a.dictionary.jps_phrases@ == b.dictionary.jps_phrases@,
        a.dictionary.jp_variants@ == b.dictionary.jp_variants@,
        a.dictionary.jp_variants_rev@ == b.dictionary.jp_variants_rev@,
    ensures
        convert_spec(a, s, cfg, punct) == convert_spec(b, s, cfg, punct),
{
}

/// Phrase priority: when the token itself is mapped by some table of the
/// stack, the emission for the token is the value from the first such
/// table, whatever any character-level mapping would say.
pub proof fn lemma_phrase_priority(
    ds: Seq<Map<Seq<char>, Seq<char>>>,
    t: Seq<char>,
    i: int,
)
    requires
        0 <= i < ds.len(),
        ds[i].contains_key(t),
        forall|j: int| 0 <= j < i ==> !(#[trigger] ds[j]).contains_key(t),
        t.len() > 0,
        !(t.len() == 1 && is_delim(t[0])),
    ensures
        token_out(ds, t) == ds[i][t],
{
    crate::core_conv::lemma_lookup_chain_hit(ds, t, i);
}

/// No key and no value of any table of the stack contains a delimiter
/// character.
pub open spec fn delim_clean(ds: Seq<Map<Seq<char>, Seq<char>>>) -> bool {
    forall|j: int, k: Seq<char>|
        0 <= j < ds.len() && #[trigger] ds[j].contains_key(k) ==> no_delims(k) && no_delims(
            ds[j][k],
        )
}

/// No character of `s` is a delimiter.
pub open spec fn no_delims(s: Seq<char>) -> bool {
    forall|i: int| 0 <= i < s.len() ==> !is_delim(#[trigger] s[i])
}

/// A successful chain lookup comes from some table of the stack.
proof fn lemma_lookup_chain_some(ds: Seq<Map<Seq<char>, Seq<char>>>, key: Seq<char>)
    requires
        lookup_chain(ds, key) is Some,
    ensures
        exists|j: int|
            0 <= j < ds.len() && (#[trigger] ds[j]).contains_key(key) && lookup_chain(ds, key)
                == Some(ds[j][key]),
    decreases ds.len(),
{
    if ds.len() > 0 {
        if ds[0].contains_key(key) {
        } else {
            lemma_lookup_chain_some(ds.drop_first(), key);
            let j = choose|j: int|
                0 <= j < ds.drop_first().len() && (#[trigger] ds.drop_first()[j]).contains_key(key)
                    && lookup_chain(ds.drop_first(), key) == Some(ds.drop_first()[j][key]);
            assert(ds[j + 1].contains_key(key) && lookup_chain(ds, key) == Some(ds[j + 1][key]));
        }
    }
}

/// The delimiters of a single emission are the delimiters of its token.
proof fn lemma_token_delims(ds: Seq<Map<Seq<char>, Seq<char>>>, t: Seq<char>)
    requires
        delim_clean(ds),
    ensures
        token_out(ds, t).filter(|c: char| is_delim(c)) == t.filter(|c: char| is_delim(c)),
    decreases t.len(),
{
    broadcast use group_seq_lib_default;

    reveal(Seq::filter);
    let p = |c: char| is_delim(c);
    if t.len() == 0 {
    } else if t.len() == 1 && is_delim(t[0]) {
    } else {
        match lookup_chain(ds, t) {
            Some(v) => {
                lemma_lookup_chain_some(ds, t);
                let j = choose|j: int|
                    0 <= j < ds.len() && (#[trigger] ds[j]).contains_key(t) && lookup_chain(ds, t)
                        == Some(ds[j][t]);
                assert(no_delims(t) && no_delims(v));
                lemma_no_delims_filter(t);
                lemma_no_delims_filter(v);
            },
            None => {
                lemma_char_fallback_delims(ds, t);
            },
        }
    }
}

/// A sequence without delimiters filters to nothing.
proof fn lemma_no_delims_filter(s: Seq<char>)
    requires
        no_delims(s),
    ensures
        s.filter(|c: char| is_delim(c)) =~= Seq::<char>::empty(),
    decreases s.len(),
{
    reveal(Seq::filter);
    if s.len() > 0 {
        assert(forall|i: int| 0 <= i < s.len() - 1 ==> s.drop_last()[i] == s[i]);
        lemma_no_delims_filter(s.drop_last());
    }
}

/// The delimiters of a character-fallback emission are those of its
/// input, in order.
proof fn lemma_char_fallback_delims(ds: Seq<Map<Seq<char>, Seq<char>>>, t: Seq<char>)
    requires
        delim_clean(ds),
    ensures
        char_fallback(ds, t).filter(|c: char| is_delim(c)) == t.filter(|c: char| is_delim(c)),
    decreases t.len(),
{
    broadcast use group_seq_lib_default;

    reveal(Seq::filter);
    let p = |c: char| is_delim(c);
    if t.len() == 0 {
    } else {
        let c = t[0];
        let head = crate::core_conv::convert_char_out(ds, c);
        lemma_char_fallback_delims(ds, t.drop_first());
        Seq::filter_distributes_over_add(head, char_fallback(ds, t.drop_first()), p);
        assert(t =~= seq![c] + t.drop_first());
        Seq::filter_distributes_over_add(seq![c], t.drop_first(), p);
        match lookup_chain(ds, seq![c]) {
            Some(v) => {
                lemma_lookup_chain_some(ds, seq![c]);
                assert(no_delims(seq![c]) && no_delims(v));
                lemma_no_delims_filter(seq![c]);
                lemma_no_delims_filter(v);
                assert(head == v);
            },
            None => {
                assert(head == seq![c]);
                assert(seq![c].drop_last() =~= Seq::<char>::empty());
            },
        }
        assert(char_fallback(ds, t).filter(p) =~= t.filter(p));
    }
}

/// Delimiter preservation: over any token sequence, conversion against
/// a delimiter-clean stack keeps the delimiter characters, in order and
/// in their relative position among the emissions, exactly as they stand
/// in the tokens.
pub proof fn lemma_delimiters_preserved(
    ds: Seq<Map<Seq<char>, Seq<char>>>,
    ts: Seq<Seq<char>>,
)
    requires
        delim_clean(ds),
    ensures
        tokens_out(ds, ts).filter(|c: char| is_delim(c)) == ts.flatten().filter(
            |c: char| is_delim(c),
        ),
    decreases ts.len(),
{
    broadcast use group_seq_lib_default;

    reveal(Seq::filter);
    let p = |c: char| is_delim(c);
    if ts.len() == 0 {
        assert(ts.flatten() =~= Seq::<char>::empty());
    } else {
        lemma_delimiters_preserved(ds, ts.drop_first());
        lemma_token_delims(ds, ts[0]);
        Seq::filter_distributes_over_add(token_out(ds, ts[0]), tokens_out(ds, ts.drop_first()), p);
        Seq::filter_distributes_over_add(ts[0], ts.drop_first().flatten(), p);
        assert(ts.flatten() == ts[0] + ts.drop_first().flatten());
        assert(tokens_out(ds, ts).filter(p) =~= ts.flatten().filter(p));
    }
}

/// Every non-empty key of every table of the stack uses some character
/// that does not occur in `s`.  An empty key never matches a token or a
/// single character, so it needs no restriction.
pub open spec fn keys_avoid(ds: Seq<Map<Seq<char>, Seq<char>>>, s: Seq<char>) -> bool {
    forall|j: int, k: Seq<char>|
        0 <= j < ds.len() && #[trigger] ds[j].contains_key(k) && k.len() > 0 ==> exists|i: int|
            0 <= i < k.len() && !s.contains(k[i])
}

/// Unmapped text is untouched: when every key of the stack uses some
/// character that the tokens do not, every token passes through
/// conversion unchanged.
pub proof fn lemma_unmapped_tokens_identity(
    ds: Seq<Map<Seq<char>, Seq<char>>>,
    ts: Seq<Seq<char>>,
    s: Seq<char>,
)
    requires
        keys_avoid(ds, s),
        forall|ti: int, i: int|
            0 <= ti < ts.len() && 0 <= i < ts[ti].len() ==> s.contains(#[trigger] ts[ti][i]),
    ensures
        tokens_out(ds, ts) == ts.flatten(),
    decreases ts.len(),
{
    if ts.len() == 0 {
        assert(ts.flatten() =~= Seq::<char>::empty());
    } else {
        lemma_unmapped_token_identity(ds, ts[0], s);
        assert(forall|ti: int, i: int|
            0 <= ti < ts.drop_first().len() && 0 <= i < ts.drop_first()[ti].len() ==> s.contains(
                #[trigger] ts.drop_first()[ti][i],
            ));
        lemma_unmapped_tokens_identity(ds, ts.drop_first(), s);
        assert(ts.flatten() == ts[0] + ts.drop_first().flatten());
        assert(tokens_out(ds, ts) =~= ts.flatten());
    }
}

/// One token of characters that the stack's keys avoid is emitted
/// verbatim.
proof fn lemma_unmapped_token_identity(
    ds: Seq<Map<Seq<char>, Seq<char>>>,
    t: Seq<char>,
    s: Seq<char>,
)
    requires
        keys_avoid(ds, s),
        forall|i: int| 0 <= i < t.len() ==> s.contains(#[trigger] t[i]),
    ensures
        token_out(ds, t) == t,
    decreases t.len(),
{
    if t.len() == 0 {
    } else if t.len() == 1 && is_delim(t[0]) {
    } else {
        assert forall|j: int| 0 <= j < ds.len() implies !(#[trigger] ds[j]).contains_key(t) by {
            if ds[j].contains_key(t) {
                let i = choose|i: int| 0 <= i < t.len() && !s.contains(t[i]);
                assert(s.contains(t[i]));
            }
        }
        crate::core_conv::lemma_lookup_chain_none(ds, t);
        lemma_unmapped_fallback_identity(ds, t, s);
    }
}

/// The character fallback over characters that the stack's keys avoid
/// is the identity.
proof fn lemma_unmapped_fallback_identity(
    ds: Seq<Map<Seq<char>, Seq<char>>>,
    t: Seq<char>,
    s: Seq<char>,
)
    requires
        keys_avoid(ds, s),
        forall|i: int| 0 <= i < t.len() ==> s.contains(#[trigger] t[i]),
    ensures
        char_fallback(ds, t) == t,
    decreases t.len(),
{
    if t.len() > 0 {
        let c = t[0];
        assert forall|j: int| 0 <= j < ds.len() implies !(#[trigger] ds[j]).contains_key(
            seq![c],
        ) by {
            if ds[j].contains_key(seq![c]) {
                let i = choose|i: int| 0 <= i < seq![c].len() && !s.contains(seq![c][i]);
                assert(s.contains(t[0]));
            }
        }
        crate::core_conv::lemma_lookup_chain_none(ds, seq![c]);
        assert(forall|i: int|
            0 <= i < t.drop_first().len() ==> s.contains(#[trigger] t.drop_first()[i]));
        lemma_unmapped_fallback_identity(ds, t.drop_first(), s);
        assert(char_fallback(ds, t) =~= t);
    }
}

/// No key and no value of the single table contains a delimiter
/// character.
pub open spec fn table_delim_clean(m: Map<Seq<char>, Seq<char>>) -> bool {
    forall|k: Seq<char>| #[trigger] m.contains_key(k) ==> no_delims(k) && no_delims(m[k])
}

/// Every non-empty key of the single table uses some character that
/// does not occur in `s`.
pub open spec fn table_keys_avoid(m: Map<Seq<char>, Seq<char>>, s: Seq<char>) -> bool {
    forall|k: Seq<char>|
        #[trigger] m.contains_key(k) && k.len() > 0 ==> exists|i: int|
            0 <= i < k.len() && !s.contains(k[i])
}

/// No key and no value of any of the sixteen tables contains a
/// delimiter character.
pub open spec fn dictionary_delim_clean(d: Dictionary) -> bool {
    &&& table_delim_clean(d.st_characters@)
    &&& table_delim_clean(d.st_phrases@)
    &&& table_delim_clean(d.ts_characters@)
    &&& table_delim_clean(d.ts_phrases@)
    &&& table_delim_clean(d.tw_phrases@)
    &&& table_delim_clean(d.tw_phrases_rev@)
    &&& table_delim_clean(d.tw_variants@)
    &&& table_delim_clean(d.tw_variants_rev@)
    &&& table_delim_clean(d.tw_variants_rev_phrases@)
    &&& table_delim_clean(d.hk_variants@)
    &&& table_delim_clean(d.hk_variants_rev@)
    &&& table_delim_clean(d.hk_variants_rev_phrases@)
    &&& table_delim_clean(d.jps_characters@)
    &&& table_delim_clean(d.jps_phrases@)
    &&& table_delim_clean(d.jp_variants@)
    &&& table_delim_clean(d.jp_variants_rev@)
}

/// Every non-empty key of every one of the sixteen tables uses some
/// character that does not occur in `s`.
pub open spec fn dictionary_keys_avoid(d: Dictionary, s: Seq<char>) -> bool {
    &&& table_keys_avoid(d.st_characters@, s)
    &&& table_keys_avoid(d.st_phrases@, s)
    &&& table_keys_avoid(d.ts_characters@, s)
    &&& table_keys_avoid(d.ts_phrases@, s)
    &&& table_keys_avoid(d.tw_phrases@, s)
    &&& table_keys_avoid(d.tw_phrases_rev@, s)
    &&& table_keys_avoid(d.tw_variants@, s)
    &&& table_keys_avoid(d.tw_variants_rev@, s)
    &&& table_keys_avoid(d.tw_variants_rev_phrases@, s)
    &&& table_keys_avoid(d.hk_variants@, s)
    &&& table_keys_avoid(d.hk_variants_rev@, s)
    &&& table_keys_avoid(d.hk_variants_rev_phrases@, s)
    &&& table_keys_avoid(d.jps_characters@, s)
    &&& table_keys_avoid(d.jps_phrases@, s)
    &&& table_keys_avoid(d.jp_variants@, s)
    &&& table_keys_avoid(d.jp_variants_rev@, s)
}

/// A one-table stack of a clean table is clean.
pub proof fn lemma_delim_clean1(a: Map<Seq<char>, Seq<char>>)
    requires
        table_delim_clean(a),
    ensures
        delim_clean(seq![a]),
{
    let ds = seq![a];
    assert forall|j: int, k: Seq<char>| 0 <= j < ds.len() && #[trigger] ds[j].contains_key(k)
        implies no_delims(k) && no_delims(ds[j][k]) by {
        assert(ds[0] == a);
    }
}

/// A two-table stack of clean tables is clean.
pub proof fn lemma_delim_clean2(a: Map<Seq<char>, Seq<char>>, b: Map<Seq<char>, Seq<char>>)
    requires
        table_delim_clean(a),
        table_delim_clean(b),
    ensures
        delim_clean(seq![a, b]),
{
    let ds = seq![a, b];
    assert forall|j: int, k: Seq<char>| 0 <= j < ds.len() && #[trigger] ds[j].contains_key(k)
        implies no_delims(k) && no_delims(ds[j][k]) by {
        if j == 0 {
            assert(ds[0] == a);
        } else {
            assert(ds[1] == b);
        }
    }
}

/// A three-table stack of clean tables is clean.
pub proof fn lemma_delim_clean3(
    a: Map<Seq<char>, Seq<char>>,
    b: Map<Seq<char>, Seq<char>>,
    c: Map<Seq<char>, Seq<char>>,
)
    requires
        table_delim_clean(a),
        table_delim_clean(b),
        table_delim_clean(c),
    ensures
        delim_clean(seq![a, b, c]),
{
    let ds = seq![a, b, c];
    assert forall|j: int, k: Seq<char>| 0 <= j < ds.len() && #[trigger] ds[j].contains_key(k)
        implies no_delims(k) && no_delims(ds[j][k]) by {
        if j == 0 {
            assert(ds[0] == a);
        } else if j == 1 {
            assert(ds[1] == b);
        } else {
            assert(ds[2] == c);
        }
    }
}

/// A one-table stack of an avoiding table avoids.
pub proof fn lemma_keys_avoid1(a: Map<Seq<char>, Seq<char>>, s: Seq<char>)
    requires
        table_keys_avoid(a, s),
    ensures
        keys_avoid(seq![a], s),
{
    let ds = seq![a];
    assert forall|j: int, k: Seq<char>|
        0 <= j < ds.len() && #[trigger] ds[j].contains_key(k) && k.len() > 0 implies exists|i: int|
        0 <= i < k.len() && !s.contains(k[i]) by {
        assert(ds[0] == a);
    }
}

/// A two-table stack of avoiding tables avoids.
pub proof fn lemma_keys_avoid2(
    a: Map<Seq<char>, Seq<char>>,
    b: Map<Seq<char>, Seq<char>>,
    s: Seq<char>,
)
    requires
        table_keys_avoid(a, s),
        table_keys_avoid(b, s),
    ensures
        keys_avoid(seq![a, b], s),
{
    let ds = seq![a, b];
    assert forall|j: int, k: Seq<char>|
        0 <= j < ds.len() && #[trigger] ds[j].contains_key(k) && k.len() > 0 implies exists|i: int|
        0 <= i < k.len() && !s.contains(k[i]) by {
        if j == 0 {
            assert(ds[0] == a);
        } else {
            assert(ds[1] == b);
        }
    }
}

/// A three-table stack of avoiding tables avoids.
pub proof fn lemma_keys_avoid3(
    a: Map<Seq<char>, Seq<char>>,
    b: Map<Seq<char>, Seq<char>>,
    c: Map<Seq<char>, Seq<char>>,
    s: Seq<char>,
)
    requires
        table_keys_avoid(a, s),
        table_keys_avoid(b, s),
        table_keys_avoid(c, s),
    ensures
        keys_avoid(seq![a, b, c], s),
{
    let ds = seq![a, b, c];
    assert forall|j: int, k: Seq<char>|
        0 <= j < ds.len() && #[trigger] ds[j].contains_key(k) && k.len() > 0 implies exists|i: int|
        0 <= i < k.len() && !s.contains(k[i]) by {
        if j == 0 {
            assert(ds[0] == a);
        } else if j == 1 {
            assert(ds[1] == b);
        } else {
            assert(ds[2] == c);
        }
    }
}

/// The interleaving-preserving shape of one chunk's emission: a chunk
/// closed by a delimiter is emitted as non-delimiter text closed by
/// that same delimiter, and a chunk without delimiters is emitted
/// without delimiters — so every delimiter keeps its place among the
/// non-delimiter characters.
pub open spec fn delimiter_in_place(chunk: Seq<char>, emission: Seq<char>) -> bool {
    if chunk.len() > 0 && is_delim(chunk.last()) {
        emission.len() > 0 && emission.last() == chunk.last() && no_delims(emission.drop_last())
    } else {
        no_delims(emission)
    }
}

/// A sequence whose delimiter filter is empty has no delimiters.
proof fn lemma_empty_filter_no_delims(x: Seq<char>)
    requires
        x.filter(|c: char| is_delim(c)).len() == 0,
    ensures
        no_delims(x),
{
    broadcast use group_seq_lib_default;

    assert forall|i: int| 0 <= i < x.len() implies !is_delim(#[trigger] x[i]) by {
        if is_delim(x[i]) {
            assert(x.filter(|c: char| is_delim(c)).contains(x[i]));
        }
    }
}

/// Against a clean stack, the emission of a delimiter-free token is
/// delimiter-free.
proof fn lemma_emission_no_delims(ds: Seq<Map<Seq<char>, Seq<char>>>, t: Seq<char>)
    requires
        delim_clean(ds),
        no_delims(t),
    ensures
        no_delims(token_out(ds, t)),
{
    lemma_token_delims(ds, t);
    lemma_no_delims_filter(t);
    lemma_empty_filter_no_delims(token_out(ds, t));
}

/// Tokens that flatten to nothing emit nothing.
proof fn lemma_tokens_out_of_empty(ds: Seq<Map<Seq<char>, Seq<char>>>, ts: Seq<Seq<char>>)
    requires
        ts.flatten().len() == 0,
    ensures
        tokens_out(ds, ts) == Seq::<char>::empty(),
    decreases ts.len(),
{
    if ts.len() > 0 {
        assert(ts.flatten() == ts[0] + ts.drop_first().flatten());
        assert(ts[0].len() == 0);
        assert(token_out(ds, ts[0]) =~= Seq::<char>::empty());
        lemma_tokens_out_of_empty(ds, ts.drop_first());
        assert(tokens_out(ds, ts) =~= Seq::<char>::empty());
    }
}

/// Against a clean stack, tokens that flatten to delimiter-free text
/// are emitted as delimiter-free text.
pub proof fn lemma_tokens_no_delims(ds: Seq<Map<Seq<char>, Seq<char>>>, ts: Seq<Seq<char>>)
    requires
        delim_clean(ds),
        no_delims(ts.flatten()),
    ensures
        no_delims(tokens_out(ds, ts)),
    decreases ts.len(),
{
    if ts.len() > 0 {
        let t0 = ts[0];
        let flat = ts.flatten();
        assert(flat == t0 + ts.drop_first().flatten());
        assert forall|i: int| 0 <= i < t0.len() implies !is_delim(#[trigger] t0[i]) by {
            assert(t0[i] == flat[i]);
        }
        lemma_emission_no_delims(ds, t0);
        let restflat = ts.drop_first().flatten();
        assert forall|i: int| 0 <= i < restflat.len() implies !is_delim(#[trigger] restflat[i]) by {
            assert(restflat[i] == flat[t0.len() + i]);
        }
        lemma_tokens_no_delims(ds, ts.drop_first());
        let out = tokens_out(ds, ts);
        let a = token_out(ds, t0);
        let b = tokens_out(ds, ts.drop_first());
        assert(out == a + b);
        assert forall|i: int| 0 <= i < out.len() implies !is_delim(#[trigger] out[i]) by {
            if i < a.len() {
                assert(out[i] == a[i]);
            } else {
                assert(out[i] == b[i - a.len()]);
            }
        }
    } else {
        assert(tokens_out(ds, ts) =~= Seq::<char>::empty());
    }
}

/// The emission of one whole token that is a delimiter-closed chunk —
/// non-delimiter text followed by one delimiter — keeps that shape.
proof fn lemma_single_token_in_place(ds: Seq<Map<Seq<char>, Seq<char>>>, chunk: Seq<char>)
    requires
        delim_clean(ds),
        chunk.len() > 0,
        is_delim(chunk.last()),
        forall|pos: int| 0 <= pos < chunk.len() - 1 ==> !is_delim(#[trigger] chunk[pos]),
    ensures
        delimiter_in_place(chunk, token_out(ds, chunk)),
{
    let d = chunk.last();
    if chunk.len() == 1 {
        assert(chunk =~= seq![d]);
        assert(token_out(ds, chunk) == chunk);
        assert(token_out(ds, chunk).drop_last() =~= Seq::<char>::empty());
    } else {
        match lookup_chain(ds, chunk) {
            Some(v) => {
                lemma_lookup_chain_some(ds, chunk);
                assert(no_delims(chunk));
                assert(false);
            },
            None => {},
        }
        assert(token_out(ds, chunk) == char_fallback(ds, chunk));
        let interior = chunk.drop_last();
        assert(chunk =~= interior + seq![d]);
        crate::core_conv::lemma_char_fallback_concat(ds, interior, seq![d]);
        assert(seq![d].drop_first() =~= Seq::<char>::empty());
        assert(char_fallback(ds, Seq::<char>::empty()) =~= Seq::<char>::empty());
        match lookup_chain(ds, seq![d]) {
            Some(v) => {
                lemma_lookup_chain_some(ds, seq![d]);
                assert(no_delims(seq![d]));
                assert(false);
            },
            None => {},
        }
        assert(crate::core_conv::convert_char_out(ds, d) == seq![d]);
        assert(char_fallback(ds, seq![d]) =~= seq![d]);
        assert(no_delims(interior));
        lemma_char_fallback_delims(ds, interior);
        lemma_no_delims_filter(interior);
        lemma_empty_filter_no_delims(char_fallback(ds, interior));
        let a = char_fallback(ds, interior);
        assert(char_fallback(ds, chunk) =~= a + seq![d]);
        assert((a + seq![d]).last() == d);
        assert((a + seq![d]).drop_last() =~= a);
    }
}

/// The interleaving-preserving law for one chunk: against a clean
/// stack, any tokenization of a delimiter-closed chunk is emitted as
/// non-delimiter text closed by the chunk's own delimiter.
pub proof fn lemma_chunk_emission_in_place(
    ds: Seq<Map<Seq<char>, Seq<char>>>,
    ts: Seq<Seq<char>>,
    chunk: Seq<char>,
)
    requires
        delim_clean(ds),
        ts.flatten() == chunk,
        chunk.len() > 0,
        is_delim(chunk.last()),
        forall|pos: int| 0 <= pos < chunk.len() - 1 ==> !is_delim(#[trigger] chunk[pos]),
    ensures
        delimiter_in_place(chunk, tokens_out(ds, ts)),
    decreases ts.len(),
{
    let d = chunk.last();
    assert(ts.len() > 0) by {
        if ts.len() == 0 {
            assert(ts.flatten() =~= Seq::<char>::empty());
        }
    }
    let t0 = ts[0];
    let rest = ts.drop_first();
    assert(chunk == t0 + rest.flatten());
    assert(forall|i: int| 0 <= i < t0.len() ==> t0[i] == #[trigger] chunk[i]);
    if t0.len() == 0 {
        assert(token_out(ds, t0) =~= Seq::<char>::empty());
        assert(rest.flatten() =~= chunk);
        lemma_chunk_emission_in_place(ds, rest, chunk);
        assert(tokens_out(ds, ts) =~= tokens_out(ds, rest));
    } else if t0.len() == chunk.len() {
        assert(t0 =~= chunk);
        assert(rest.flatten().len() == 0);
        lemma_tokens_out_of_empty(ds, rest);
        lemma_single_token_in_place(ds, chunk);
        assert(tokens_out(ds, ts) =~= token_out(ds, chunk));
    } else {
        assert forall|i: int| 0 <= i < t0.len() implies !is_delim(#[trigger] t0[i]) by {
            assert(t0[i] == chunk[i]);
            assert(i < chunk.len() - 1);
        }
        lemma_emission_no_delims(ds, t0);
        let tail = chunk.skip(t0.len() as int);
        assert(rest.flatten() =~= tail);
        assert(tail.len() > 0);
        assert(tail.last() == d);
        assert forall|pos: int| 0 <= pos < tail.len() - 1 implies !is_delim(
            #[trigger] tail[pos],
        ) by {
            assert(tail[pos] == chunk[t0.len() + pos]);
            assert(t0.len() + pos < chunk.len() - 1);
        }
        lemma_chunk_emission_in_place(ds, rest, tail);
        let a = token_out(ds, t0);
        let b = tokens_out(ds, rest);
        assert(tokens_out(ds, ts) == a + b);
        assert(b.len() > 0 && b.last() == d && no_delims(b.drop_last()));
        assert((a + b).last() == d);
        assert((a + b).drop_last() =~= a + b.drop_last());
        assert forall|i: int| 0 <= i < (a + b.drop_last()).len() implies !is_delim(
            #[trigger] (a + b.drop_last())[i],
        ) by {
            if i < a.len() {
                assert((a + b.drop_last())[i] == a[i]);
            } else {
                assert((a + b.drop_last())[i] == b.drop_last()[i - a.len()]);
            }
        }
    }
}

} // verus!

