//! Bidirectional substitution of the four paired quotation marks:
//! curly quotes on the Simplified side, corner brackets on the
//! Traditional side.  No other character is touched.

use vstd::prelude::*;
use vstd::string::StrSliceExecFns;

use crate::text::chars_to_string;
use crate::text::chars_vec;

verus! {

/// The Traditional form of `c`: curly quotes become corner brackets.
pub open spec fn punct_s2t_char(c: char) -> char {
    if c == '\u{201c}' {
        '\u{300c}'
    } else if c == '\u{201d}' {
        '\u{300d}'
    } else if c == '\u{2018}' {
        '\u{300e}'
    } else if c == '\u{2019}' {
        '\u{300f}'
    } else {
        c
    }
}

/// The Simplified form of `c`: corner brackets become curly quotes.
pub open spec fn punct_t2s_char(c: char) -> char {
    if c == '\u{300c}' {
        '\u{201c}'
    } else if c == '\u{300d}' {
        '\u{201d}'
    } else if c == '\u{300e}' {
        '\u{2018}'
    } else if c == '\u{300f}' {
        '\u{2019}'
    } else {
        c
    }
}

/// `s` with every quotation mark mapped to the other side's form;
/// `to_trad` selects the direction.
pub open spec fn punct_out(s: Seq<char>, to_trad: bool) -> Seq<char> {
    if to_trad {
        s.map_values(|c: char| punct_s2t_char(c))
    } else {
        s.map_values(|c: char| punct_t2s_char(c))
    }
}

fn punct_s2t_char_exec(c: char) -> (r: char)
    ensures
        r == punct_s2t_char(c),
{
    match c {
        '\u{201c}' => '\u{300c}',
        '\u{201d}' => '\u{300d}',
        '\u{2018}' => '\u{300e}',
        '\u{2019}' => '\u{300f}',
        _ => c,
    }
}

fn punct_t2s_char_exec(c: char) -> (r: char)
    ensures
        r == punct_t2s_char(c),
{
    match c {
        '\u{300c}' => '\u{201c}',
        '\u{300d}' => '\u{201d}',
        '\u{300e}' => '\u{2018}',
        '\u{300f}' => '\u{2019}',
        _ => c,
    }
}

/// Substitutes the four paired quotation marks.  A `config` whose first
/// character is `s` maps the Simplified quotes to Traditional corner
/// brackets; any other `config` maps the other way.
pub(crate) fn convert_punctuation(text: &str, config: &str) -> (r: String)
    ensures
        r@ == punct_out(text@, config@.len() > 0 && config@[0] == 's'),
{
    let to_trad = !config.is_empty() && config.get_char(0) == 's';
    let chars = chars_vec(text);
    let mut out: Vec<char> = Vec::new();
    let n = chars.len();
    let mut i: usize = 0;
    while i < n
        invariant
            chars@ == text@,
            n == text@.len(),
            i <= n,
            out@ == punct_out(text@.take(i as int), to_trad),
        decreases n - i,
    {
        let c = chars[i];
        if to_trad {
            out.push(punct_s2t_char_exec(c));
        } else {
            out.push(punct_t2s_char_exec(c));
        }
        proof {
            assert(text@.take(i + 1) =~= text@.take(i as int).push(text@[i as int]));
            assert(punct_out(text@.take(i + 1), to_trad) =~= punct_out(
                text@.take(i as int),
                to_trad,
            ).push(if to_trad {
                punct_s2t_char(text@[i as int])
            } else {
                punct_t2s_char(text@[i as int])
            }));
        }
        i += 1;
    }
    proof {
        assert(text@.take(n as int) =~= text@);
    }
    chars_to_string(&out)
}

/// A punctuation pass changes nothing but the four paired quotation
/// marks: every other character comes through unchanged in place.
pub proof fn lemma_punct_pairs_only(s: Seq<char>, to_trad: bool)
    ensures
        punct_out(s, to_trad).len() == s.len(),
        forall|i: int|
            0 <= i < s.len() ==> (#[trigger] punct_out(s, to_trad)[i]) == s[i] || (s[i]
                == '\u{201c}' || s[i] == '\u{201d}' || s[i] == '\u{2018}' || s[i] == '\u{2019}'
                || s[i] == '\u{300c}' || s[i] == '\u{300d}' || s[i] == '\u{300e}' || s[i]
                == '\u{300f}'),
{
}

} // verus!
