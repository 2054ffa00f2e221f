//! The closed set of conversion configurations and its two entry
//! points: parsing a configuration name (ASCII-case-insensitive) and
//! accepting a numeric configuration code.

use vstd::prelude::*;

verus! {

/// A conversion configuration: the direction and regional standard of
/// one conversion, as accepted by the conversion router.
#[derive(Debug, Clone, Copy, PartialEq, Eq, Structural)]
pub enum OpenccConfig {
    /// Simplified to Traditional.
    S2t,
    /// Simplified to Traditional, Taiwan standard.
    S2tw,
    /// Simplified to Traditional, Taiwan standard, with Taiwan phrases.
    S2twp,
    /// Simplified to Traditional, Hong Kong standard.
    S2hk,
    /// Traditional to Simplified.
    T2s,
    /// Traditional to Taiwan standard.
    T2tw,
    /// Traditional to Taiwan standard, with Taiwan phrases.
    T2twp,
    /// Traditional to Hong Kong standard.
    T2hk,
    /// Taiwan standard to Simplified.
    Tw2s,
    /// Taiwan standard to Simplified, with Taiwan phrases.
    Tw2sp,
    /// Taiwan standard to Traditional.
    Tw2t,
    /// Taiwan standard to Traditional, with Taiwan phrases.
    Tw2tp,
    /// Hong Kong standard to Simplified.
    Hk2s,
    /// Hong Kong standard to Traditional.
    Hk2t,
    /// Japanese Shinjitai to Traditional.
    Jp2t,
    /// Traditional to Japanese Shinjitai.
    T2jp,
}

/// The ASCII lower-case form of `c`.
pub open spec fn ascii_lower_char(c: char) -> char {
    if 'A' <= c <= 'Z' {
        ((c as u8) + 32) as char
    } else {
        c
    }
}

/// `s` with every ASCII upper-case letter replaced by its lower-case
/// form; other characters are unchanged.
pub open spec fn ascii_lower(s: Seq<char>) -> Seq<char> {
    s.map_values(|c: char| ascii_lower_char(c))
}


/// The configuration named by the (already lower-cased) character
/// sequence `s`, if any.
pub open spec fn config_of_name(s: Seq<char>) -> Option<OpenccConfig> {
    if s == seq!['s', '2', 't'] {
        Some(OpenccConfig::S2t)
    } else if s == seq!['s', '2', 't', 'w'] {
        Some(OpenccConfig::S2tw)
    } else if s == seq!['s', '2', 't', 'w', 'p'] {
        Some(OpenccConfig::S2twp)
    } else if s == seq!['s', '2', 'h', 'k'] {
        Some(OpenccConfig::S2hk)
    } else if s == seq!['t', '2', 's'] {
        Some(OpenccConfig::T2s)
    } else if s == seq!['t', '2', 't', 'w'] {
        Some(OpenccConfig::T2tw)
    } else if s == seq!['t', '2', 't', 'w', 'p'] {
        Some(OpenccConfig::T2twp)
    } else if s == seq!['t', '2', 'h', 'k'] {
        Some(OpenccConfig::T2hk)
    } else if s == seq!['t', 'w', '2', 's'] {
        Some(OpenccConfig::Tw2s)
    } else if s == seq!['t', 'w', '2', 's', 'p'] {
        Some(OpenccConfig::Tw2sp)
    } else if s == seq!['t', 'w', '2', 't'] {
        Some(OpenccConfig::Tw2t)
    } else if s == seq!['t', 'w', '2', 't', 'p'] {
        Some(OpenccConfig::Tw2tp)
    } else if s == seq!['h', 'k', '2', 's'] {
        Some(OpenccConfig::Hk2s)
    } else if s == seq!['h', 'k', '2', 't'] {
        Some(OpenccConfig::Hk2t)
    } else if s == seq!['j', 'p', '2', 't'] {
        Some(OpenccConfig::Jp2t)
    } else if s == seq!['t', '2', 'j', 'p'] {
        Some(OpenccConfig::T2jp)
    } else {
        None
    }
}

/// The configuration denoted by the numeric code `v`, if any.
pub open spec fn config_of_code(v: u32) -> Option<OpenccConfig> {
    if v == 1 {
        Some(OpenccConfig::S2t)
    } else if v == 2 {
        Some(OpenccConfig::S2tw)
    } else if v == 3 {
        Some(OpenccConfig::S2twp)
    } else if v == 4 {
        Some(OpenccConfig::S2hk)
    } else if v == 5 {
        Some(OpenccConfig::T2s)
    } else if v == 6 {
        Some(OpenccConfig::T2tw)
    } else if v == 7 {
        Some(OpenccConfig::T2twp)
    } else if v == 8 {
        Some(OpenccConfig::T2hk)
    } else if v == 9 {
        Some(OpenccConfig::Tw2s)
    } else if v == 10 {
        Some(OpenccConfig::Tw2sp)
    } else if v == 11 {
        Some(OpenccConfig::Tw2t)
    } else if v == 12 {
        Some(OpenccConfig::Tw2tp)
    } else if v == 13 {
        Some(OpenccConfig::Hk2s)
    } else if v == 14 {
        Some(OpenccConfig::Hk2t)
    } else if v == 15 {
        Some(OpenccConfig::Jp2t)
    } else if v == 16 {
        Some(OpenccConfig::T2jp)
    } else {
        None
    }
}

fn ascii_lower_char_exec(c: char) -> (r: char)
    ensures
        r == ascii_lower_char(c),
{
    if c >= 'A' && c <= 'Z' {
        (((c as u8) + 32) as char)
    } else {
        c
    }
}

/// Lower-cases the ASCII letters of `s`, character by character.
pub(crate) fn ascii_lower_chars(s: &Vec<char>) -> (v: Vec<char>)
    ensures
        v@ == ascii_lower(s@),
{
    let mut v: Vec<char> = Vec::new();
    let n = s.len();
    let mut i: usize = 0;
    while i < n
        invariant
            n == s@.len(),
            i <= n,
            v@ == ascii_lower(s@.take(i as int)),
        decreases n - i,
    {
        v.push(ascii_lower_char_exec(s[i]));
        proof {
            assert(s@.take(i + 1) =~= s@.take(i as int).push(s@[i as int]));
            assert(ascii_lower(s@.take(i + 1)) =~= ascii_lower(s@.take(i as int)).push(
                ascii_lower_char(s@[i as int]),
            ));
        }
        i += 1;
    }
    proof {
        assert(s@.take(n as int) =~= s@);
    }
    v
}

/// The configuration named by the already lower-cased characters `v`.
pub(crate) fn config_from_chars(v: &Vec<char>) -> (r: Option<OpenccConfig>)
    ensures
        r == config_of_name(v@),
{
    if v.len() == 3 && v[0] == 's' && v[1] == '2' && v[2] == 't' {
        proof {
            assert(v@ =~= seq!['s', '2', 't']);
        }
        return Some(OpenccConfig::S2t);
    }
    if v.len() == 4 && v[0] == 's' && v[1] == '2' && v[2] == 't' && v[3] == 'w' {
        proof {
            assert(v@ =~= seq!['s', '2', 't', 'w']);
        }
        return Some(OpenccConfig::S2tw);
    }
    if v.len() == 5 && v[0] == 's' && v[1] == '2' && v[2] == 't' && v[3] == 'w' && v[4] == 'p' {
        proof {
            assert(v@ =~= seq!['s', '2', 't', 'w', 'p']);
        }
        return Some(OpenccConfig::S2twp);
    }
    if v.len() == 4 && v[0] == 's' && v[1] == '2' && v[2] == 'h' && v[3] == 'k' {
        proof {
            assert(v@ =~= seq!['s', '2', 'h', 'k']);
        }
        return Some(OpenccConfig::S2hk);
    }
    if v.len() == 3 && v[0] == 't' && v[1] == '2' && v[2] == 's' {
        proof {
            assert(v@ =~= seq!['t', '2', 's']);
        }
        return Some(OpenccConfig::T2s);
    }
    if v.len() == 4 && v[0] == 't' && v[1] == '2' && v[2] == 't' && v[3] == 'w' {
        proof {
            assert(v@ =~= seq!['t', '2', 't', 'w']);
        }
        return Some(OpenccConfig::T2tw);
    }
    if v.len() == 5 && v[0] == 't' && v[1] == '2' && v[2] == 't' && v[3] == 'w' && v[4] == 'p' {
        proof {
            assert(v@ =~= seq!['t', '2', 't', 'w', 'p']);
        }
        return Some(OpenccConfig::T2twp);
    }
    if v.len() == 4 && v[0] == 't' && v[1] == '2' && v[2] == 'h' && v[3] == 'k' {
        proof {
            assert(v@ =~= seq!['t', '2', 'h', 'k']);
        }
        return Some(OpenccConfig::T2hk);
    }
    if v.len() == 4 && v[0] == 't' && v[1] == 'w' && v[2] == '2' && v[3] == 's' {
        proof {
            assert(v@ =~= seq!['t', 'w', '2', 's']);
        }
        return Some(OpenccConfig::Tw2s);
    }
    if v.len() == 5 && v[0] == 't' && v[1] == 'w' && v[2] == '2' && v[3] == 's' && v[4] == 'p' {
        proof {
            assert(v@ =~= seq!['t', 'w', '2', 's', 'p']);
        }
        return Some(OpenccConfig::Tw2sp);
    }
    if v.len() == 4 && v[0] == 't' && v[1] == 'w' && v[2] == '2' && v[3] == 't' {
        proof {
            assert(v@ =~= seq!['t', 'w', '2', 't']);
        }
        return Some(OpenccConfig::Tw2t);
    }
    if v.len() == 5 && v[0] == 't' && v[1] == 'w' && v[2] == '2' && v[3] == 't' && v[4] == 'p' {
        proof {
            assert(v@ =~= seq!['t', 'w', '2', 't', 'p']);
        }
        return Some(OpenccConfig::Tw2tp);
    }
    if v.len() == 4 && v[0] == 'h' && v[1] == 'k' && v[2] == '2' && v[3] == 's' {
        proof {
            assert(v@ =~= seq!['h', 'k', '2', 's']);
        }
        return Some(OpenccConfig::Hk2s);
    }
    if v.len() == 4 && v[0] == 'h' && v[1] == 'k' && v[2] == '2' && v[3] == 't' {
        proof {
            assert(v@ =~= seq!['h', 'k', '2', 't']);
        }
        return Some(OpenccConfig::Hk2t);
    }
    if v.len() == 4 && v[0] == 'j' && v[1] == 'p' && v[2] == '2' && v[3] == 't' {
        proof {
            assert(v@ =~= seq!['j', 'p', '2', 't']);
        }
        return Some(OpenccConfig::Jp2t);
    }
    if v.len() == 4 && v[0] == 't' && v[1] == '2' && v[2] == 'j' && v[3] == 'p' {
        proof {
            assert(v@ =~= seq!['t', '2', 'j', 'p']);
        }
        return Some(OpenccConfig::T2jp);
    }
    proof {
        assert(v@ != seq!['s', '2', 't']);
        assert(v@ != seq!['s', '2', 't', 'w']);
        assert(v@ != seq!['s', '2', 't', 'w', 'p']);
        assert(v@ != seq!['s', '2', 'h', 'k']);
        assert(v@ != seq!['t', '2', 's']);
        assert(v@ != seq!['t', '2', 't', 'w']);
        assert(v@ != seq!['t', '2', 't', 'w', 'p']);
        assert(v@ != seq!['t', '2', 'h', 'k']);
        assert(v@ != seq!['t', 'w', '2', 's']);
        assert(v@ != seq!['t', 'w', '2', 's', 'p']);
        assert(v@ != seq!['t', 'w', '2', 't']);
        assert(v@ != seq!['t', 'w', '2', 't', 'p']);
        assert(v@ != seq!['h', 'k', '2', 's']);
        assert(v@ != seq!['h', 'k', '2', 't']);
        assert(v@ != seq!['j', 'p', '2', 't']);
        assert(v@ != seq!['t', '2', 'j', 'p']);
    }
    None
}

impl OpenccConfig {
    /// The configuration denoted by the numeric code `v`, if any; the
    /// codes run from one to sixteen in the order of the variants.
    pub fn from_ffi(v: u32) -> (r: Option<OpenccConfig>)
        ensures
            r == config_of_code(v),
    {
        match v {
        1 => Some(OpenccConfig::S2t),
        2 => Some(OpenccConfig::S2tw),
        3 => Some(OpenccConfig::S2twp),
        4 => Some(OpenccConfig::S2hk),
        5 => Some(OpenccConfig::T2s),
        6 => Some(OpenccConfig::T2tw),
        7 => Some(OpenccConfig::T2twp),
        8 => Some(OpenccConfig::T2hk),
        9 => Some(OpenccConfig::Tw2s),
        10 => Some(OpenccConfig::Tw2sp),
        11 => Some(OpenccConfig::Tw2t),
        12 => Some(OpenccConfig::Tw2tp),
        13 => Some(OpenccConfig::Hk2s),
        14 => Some(OpenccConfig::Hk2t),
        15 => Some(OpenccConfig::Jp2t),
        16 => Some(OpenccConfig::T2jp),
            _ => None,
        }
    }
}

} // verus!
