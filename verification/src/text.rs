//! Character-level text utilities shared by the conversion pipeline:
//! conversion between `&str` and `Vec<char>`, UTF-8 byte accounting,
//! newline and BOM handling, and decimal formatting.

use vstd::prelude::*;
use vstd::string::StrSliceExecFns;
use vstd::utf8::{encode_scalar, encode_utf8};

verus! {

/// Appends one character to a string.
///
/// Relies on `String::push`: the character is appended at the end.
#[verifier::external_body]
pub(crate) fn push_char(s: &mut String, c: char)
    ensures
        final(s)@ == old(s)@.push(c),
{
    s.push(c);
}

/// What `str::to_lowercase` returns for `s`: full Unicode lowercasing,
/// a function of the characters alone.
pub uninterp spec fn lower_of(s: Seq<char>) -> Seq<char>;

/// Relies on `str::to_lowercase`: the result depends on the characters
/// alone, and a string of ASCII characters lowercases to its ASCII
/// lower-case form.
#[verifier::external_body]
pub(crate) fn unicode_lowercase(s: &str) -> (r: String)
    ensures
        r@ == lower_of(s@),
        vstd::utf8::is_ascii_chars(s@) ==> r@ == crate::opencc_config::ascii_lower(s@),
{
    s.to_lowercase()
}

/// The characters of `s`, as a vector.
pub(crate) fn chars_vec(s: &str) -> (v: Vec<char>)
    ensures
        v@ == s@,
{
    let n = s.unicode_len();
    let mut v: Vec<char> = Vec::new();
    let mut i: usize = 0;
    while i < n
        invariant
            n == s@.len(),
            i <= n,
            v@ == s@.take(i as int),
        decreases n - i,
    {
        v.push(s.get_char(i));
        assert(s@.take(i + 1) =~= s@.take(i as int).push(s@[i as int]));
        i += 1;
    }
    assert(v@ =~= s@);
    v
}

/// A string holding exactly the characters of `v`.
pub(crate) fn chars_to_string(v: &Vec<char>) -> (s: String)
    ensures
        s@ == v@,
{
    let mut s = String::new();
    let mut i: usize = 0;
    while i < v.len()
        invariant
            i <= v@.len(),
            s@ == v@.take(i as int),
        decreases v@.len() - i,
    {
        push_char(&mut s, v[i]);
        assert(v@.take(i + 1) =~= v@.take(i as int).push(v@[i as int]));
        i += 1;
    }
    assert(s@ =~= v@);
    s
}

/// Number of bytes of the UTF-8 encoding of the first `i` characters of `s`.
pub open spec fn byte_off(s: Seq<char>, i: int) -> int {
    encode_utf8(s.take(i)).len() as int
}

/// The UTF-8 encoding of a longer prefix extends that of a shorter one.
pub proof fn lemma_encode_utf8_take_step(s: Seq<char>, i: int)
    requires
        0 <= i < s.len(),
    ensures
        encode_utf8(s.take(i + 1)) == encode_utf8(s.take(i)) + encode_scalar(s[i] as u32),
    decreases i,
{
    if i == 0 {
        assert(s.take(1) =~= seq![s[0]]);
        assert(s.take(1).drop_first() =~= s.take(0));
        assert(encode_utf8(s.take(0)) =~= Seq::<u8>::empty());
        assert(encode_utf8(s.take(1)) =~= encode_scalar(s[0] as u32) + encode_utf8(s.take(0)));
        assert(encode_utf8(s.take(1)) =~= encode_utf8(s.take(0)) + encode_scalar(s[0] as u32));
    } else {
        let t = s.drop_first();
        assert(s.take(i + 1).drop_first() =~= t.take(i));
        assert(s.take(i).drop_first() =~= t.take(i - 1));
        assert(s.take(i + 1)[0] == s[0]);
        assert(s.take(i)[0] == s[0]);
        lemma_encode_utf8_take_step(t, i - 1);
        assert(t[i - 1] == s[i]);
        assert(encode_utf8(s.take(i + 1)) =~= encode_scalar(s[0] as u32) + encode_utf8(t.take(i)));
        assert(encode_utf8(s.take(i)) =~= encode_scalar(s[0] as u32) + encode_utf8(t.take(i - 1)));
        assert(encode_utf8(s.take(i + 1)) =~= encode_utf8(s.take(i)) + encode_scalar(s[i] as u32));
    }
}

/// Number of bytes of the UTF-8 encoding of the single character `c`.
pub(crate) fn char_utf8_len(c: char) -> (w: usize)
    ensures
        w == encode_scalar(c as u32).len(),
        1 <= w <= 4,
{
    let u = c as u32;
    if u < 0x80 {
        1
    } else if u < 0x800 {
        2
    } else if u < 0x10000 {
        3
    } else {
        4
    }
}

/// Count of leading characters of `s` whose UTF-8 encoding fits in
/// `max_bytes` bytes, taking characters greedily from the left.
pub open spec fn clip_count(s: Seq<char>, max_bytes: int) -> int
    decreases s.len(),
{
    if s.len() == 0 {
        0
    } else if encode_scalar(s[0] as u32).len() <= max_bytes {
        1 + clip_count(s.drop_first(), max_bytes - encode_scalar(s[0] as u32).len())
    } else {
        0
    }
}

proof fn lemma_clip_count_bounds(s: Seq<char>, max_bytes: int)
    ensures
        0 <= clip_count(s, max_bytes) <= s.len(),
    decreases s.len(),
{
    if s.len() > 0 && encode_scalar(s[0] as u32).len() <= max_bytes {
        lemma_clip_count_bounds(s.drop_first(), max_bytes - encode_scalar(s[0] as u32).len());
    }
}

/// Largest byte count not exceeding `max_byte_count` at which `sv` can be
/// cut without splitting a UTF-8 encoded character.
///
/// The result is the byte length of the longest character prefix of `sv`
/// whose encoding fits in `max_byte_count` bytes.
pub fn find_max_utf8_length(sv: &str, max_byte_count: usize) -> (r: usize)
    ensures
        r == byte_off(sv@, clip_count(sv@, max_byte_count as int)),
        r <= max_byte_count || sv@.len() == 0,
{
    let ghost s = sv@;
    let n = sv.unicode_len();
    let mut i: usize = 0;
    let mut bytes: usize = 0;
    proof {
        lemma_clip_count_bounds(s, max_byte_count as int);
        assert(s.take(0) =~= Seq::<char>::empty());
        assert(s.skip(0) =~= s);
    }
    while i < n
        invariant
            s == sv@,
            n == s.len(),
            i <= n,
            bytes == byte_off(s, i as int),
            bytes <= max_byte_count,
            clip_count(s, max_byte_count as int) == i + clip_count(
                s.skip(i as int),
                max_byte_count - bytes,
            ),
            clip_count(s.skip(i as int), max_byte_count - bytes) >= 0,
        decreases n - i,
    {
        let c = sv.get_char(i);
        let w = char_utf8_len(c);
        proof {
            lemma_encode_utf8_take_step(s, i as int);
            assert(s.skip(i as int)[0] == s[i as int]);
            assert(s.skip(i as int).len() == n - i);
        }
        if max_byte_count - bytes < w {
            proof {
                assert(clip_count(s.skip(i as int), max_byte_count - bytes) == 0);
                assert(clip_count(s, max_byte_count as int) == i);
            }
            return bytes;
        }
        proof {
            assert(clip_count(s.skip(i as int), max_byte_count - bytes) == 1 + clip_count(
                s.skip(i as int).drop_first(),
                max_byte_count - bytes - w,
            ));
            assert(s.skip(i as int).drop_first() =~= s.skip(i as int + 1));
            assert(encode_utf8(s.take(i as int + 1)).len() == encode_utf8(s.take(i as int)).len()
                + encode_scalar(s[i as int] as u32).len());
            lemma_clip_count_bounds(s.skip(i as int + 1), max_byte_count - bytes - w);
        }
        bytes = bytes + w;
        i = i + 1;
    }
    proof {
        assert(s.skip(n as int) =~= Seq::<char>::empty());
        assert(clip_count(Seq::<char>::empty(), max_byte_count - bytes) == 0);
        assert(clip_count(s, max_byte_count as int) == n);
    }
    bytes
}

/// Digits of `n` in decimal, most significant first.
pub open spec fn dec_digits(n: nat) -> Seq<char>
    decreases n,
{
    if n < 10 {
        seq![digit_char(n)]
    } else {
        dec_digits(n / 10).push(digit_char(n % 10))
    }
}

/// The decimal digit `d` as a character; `d` must be below ten.
pub open spec fn digit_char(d: nat) -> char {
    if d == 0 {
        '0'
    } else if d == 1 {
        '1'
    } else if d == 2 {
        '2'
    } else if d == 3 {
        '3'
    } else if d == 4 {
        '4'
    } else if d == 5 {
        '5'
    } else if d == 6 {
        '6'
    } else if d == 7 {
        '7'
    } else if d == 8 {
        '8'
    } else {
        '9'
    }
}

/// `ds` with a comma inserted before every group of three characters,
/// counted from the right.
pub open spec fn with_commas(ds: Seq<char>) -> Seq<char>
    decreases ds.len(),
{
    if ds.len() <= 3 {
        ds
    } else {
        with_commas(ds.take(ds.len() - 3)) + seq![','] + ds.skip(ds.len() - 3)
    }
}

fn digit_char_exec(d: usize) -> (c: char)
    requires
        d < 10,
    ensures
        c == digit_char(d as nat),
{
    if d == 0 {
        '0'
    } else if d == 1 {
        '1'
    } else if d == 2 {
        '2'
    } else if d == 3 {
        '3'
    } else if d == 4 {
        '4'
    } else if d == 5 {
        '5'
    } else if d == 6 {
        '6'
    } else if d == 7 {
        '7'
    } else if d == 8 {
        '8'
    } else {
        '9'
    }
}

fn digits_of(n: usize) -> (v: Vec<char>)
    ensures
        v@ == dec_digits(n as nat),
    decreases n,
{
    if n < 10 {
        let mut v: Vec<char> = Vec::new();
        v.push(digit_char_exec(n));
        assert(v@ =~= dec_digits(n as nat));
        v
    } else {
        let mut v = digits_of(n / 10);
        v.push(digit_char_exec(n % 10));
        v
    }
}

fn commas_to(ds: &Vec<char>, end: usize) -> (v: Vec<char>)
    requires
        end <= ds@.len(),
    ensures
        v@ == with_commas(ds@.take(end as int)),
    decreases end,
{
    if end <= 3 {
        let mut v: Vec<char> = Vec::new();
        let mut i: usize = 0;
        while i < end
            invariant
                i <= end <= ds@.len(),
                v@ == ds@.take(end as int).take(i as int),
            decreases end - i,
        {
            v.push(ds[i]);
            assert(ds@.take(end as int).take(i + 1) =~= ds@.take(end as int).take(i as int).push(
                ds@[i as int],
            ));
            i += 1;
        }
        assert(v@ =~= ds@.take(end as int));
        v
    } else {
        let mut v = commas_to(ds, end - 3);
        proof {
            assert(ds@.take(end as int).take(end as int - 3) =~= ds@.take(end as int - 3));
        }
        v.push(',');
        proof {
            assert(ds@.subrange(end as int - 3, end as int - 3) =~= Seq::<char>::empty());
            assert(v@ =~= with_commas(ds@.take(end as int - 3)) + seq![','] + ds@.subrange(
                end as int - 3,
                end as int - 3,
            ));
        }
        let mut i: usize = end - 3;
        while i < end
            invariant
                3 < end,
                end as int - 3 <= i as int <= end as int,
                end <= ds@.len(),
                v@ == with_commas(ds@.take(end as int - 3)) + seq![','] + ds@.subrange(
                    end as int - 3,
                    i as int,
                ),
            decreases end - i,
        {
            v.push(ds[i]);
            proof {
                assert(ds@.subrange(end as int - 3, i as int + 1) =~= ds@.subrange(
                    end as int - 3,
                    i as int,
                ).push(ds@[i as int]));
                assert(v@ =~= with_commas(ds@.take(end as int - 3)) + seq![','] + ds@.subrange(
                    end as int - 3,
                    i as int + 1,
                ));
            }
            i += 1;
        }
        proof {
            assert(ds@.take(end as int).skip(end as int - 3) =~= ds@.subrange(
                end as int - 3,
                end as int,
            ));
            assert(v@ =~= with_commas(ds@.take(end as int)));
        }
        v
    }
}

/// Decimal rendering of `n` with a comma between each group of three
/// digits, counted from the least significant digit.
pub fn format_thousand(n: usize) -> (r: String)
    ensures
        r@ == with_commas(dec_digits(n as nat)),
{
    let digits = digits_of(n);
    let grouped = commas_to(&digits, digits.len());
    proof {
        assert(digits@.take(digits@.len() as int) =~= digits@);
    }
    chars_to_string(&grouped)
}

/// Count of leading characters of `v` whose UTF-8 encoding fits in
/// `max_bytes` bytes.
pub(crate) fn clip_prefix(v: &Vec<char>, max_bytes: usize) -> (cnt: usize)
    ensures
        cnt == clip_count(v@, max_bytes as int),
        cnt <= v@.len(),
{
    let ghost s = v@;
    let n = v.len();
    let mut i: usize = 0;
    let mut bytes: usize = 0;
    proof {
        lemma_clip_count_bounds(s, max_bytes as int);
        assert(s.skip(0) =~= s);
    }
    while i < n
        invariant
            s == v@,
            n == s.len(),
            i <= n,
            bytes <= max_bytes,
            clip_count(s, max_bytes as int) == i + clip_count(
                s.skip(i as int),
                max_bytes - bytes,
            ),
            clip_count(s.skip(i as int), max_bytes - bytes) >= 0,
        decreases n - i,
    {
        let w = char_utf8_len(v[i]);
        proof {
            assert(s.skip(i as int)[0] == s[i as int]);
            assert(s.skip(i as int).len() == n - i);
        }
        if max_bytes - bytes < w {
            proof {
                assert(clip_count(s.skip(i as int), max_bytes - bytes) == 0);
            }
            return i;
        }
        proof {
            assert(clip_count(s.skip(i as int), max_bytes - bytes) == 1 + clip_count(
                s.skip(i as int).drop_first(),
                max_bytes - bytes - w,
            ));
            assert(s.skip(i as int).drop_first() =~= s.skip(i as int + 1));
            lemma_clip_count_bounds(s.skip(i as int + 1), max_bytes - bytes - w);
        }
        bytes = bytes + w;
        i = i + 1;
    }
    proof {
        assert(s.skip(n as int) =~= Seq::<char>::empty());
        assert(clip_count(Seq::<char>::empty(), max_bytes - bytes) == 0);
    }
    n
}

/// `s` with every carriage return alone or before a newline replaced by
/// a single newline.
pub open spec fn norm_newlines(s: Seq<char>) -> Seq<char>
    decreases s.len(),
{
    if s.len() == 0 {
        Seq::empty()
    } else if s[0] == '\r' && s.len() > 1 && s[1] == '\n' {
        seq!['\n'] + norm_newlines(s.skip(2))
    } else if s[0] == '\r' {
        seq!['\n'] + norm_newlines(s.skip(1))
    } else {
        seq![s[0]] + norm_newlines(s.skip(1))
    }
}

/// Replaces every line ending — carriage return plus newline, or a
/// carriage return alone — by a single newline.
pub fn normalize_line_endings(s: &str) -> (r: String)
    ensures
        r@ == norm_newlines(s@),
{
    let ghost g = s@;
    let chars = chars_vec(s);
    let n = chars.len();
    let mut out: Vec<char> = Vec::new();
    let mut i: usize = 0;
    proof {
        assert(g.skip(0) =~= g);
        assert(Seq::<char>::empty() + norm_newlines(g) =~= norm_newlines(g));
    }
    while i < n
        invariant
            g == s@,
            chars@ == g,
            n == g.len(),
            i <= n,
            norm_newlines(g) == out@ + norm_newlines(g.skip(i as int)),
        decreases n - i,
    {
        let ghost rest = g.skip(i as int);
        proof {
            assert(rest[0] == g[i as int]);
            assert(rest.len() == n - i);
            if i + 1 < n {
                assert(rest[1] == g[i as int + 1]);
            }
        }
        let c = chars[i];
        if c == '\r' {
            out.push('\n');
            if i + 1 < n && chars[i + 1] == '\n' {
                proof {
                    assert(rest.skip(2) =~= g.skip(i as int + 2));
                    assert(norm_newlines(rest) =~= seq!['\n'] + norm_newlines(g.skip(i as int + 2)));
                    assert(out@ + norm_newlines(g.skip(i as int + 2)) =~= (out@.drop_last() + (seq![
                        '\n',
                    ] + norm_newlines(g.skip(i as int + 2)))));
                }
                i += 2;
            } else {
                proof {
                    assert(rest.skip(1) =~= g.skip(i as int + 1));
                    assert(norm_newlines(rest) =~= seq!['\n'] + norm_newlines(g.skip(i as int + 1)));
                    assert(out@ + norm_newlines(g.skip(i as int + 1)) =~= (out@.drop_last() + (seq![
                        '\n',
                    ] + norm_newlines(g.skip(i as int + 1)))));
                }
                i += 1;
            }
        } else {
            out.push(c);
            proof {
                assert(rest.skip(1) =~= g.skip(i as int + 1));
                assert(norm_newlines(rest) =~= seq![g[i as int]] + norm_newlines(
                    g.skip(i as int + 1),
                ));
                assert(out@ + norm_newlines(g.skip(i as int + 1)) =~= (out@.drop_last() + (seq![
                    g[i as int],
                ] + norm_newlines(g.skip(i as int + 1)))));
            }
            i += 1;
        }
    }
    proof {
        assert(g.skip(n as int) =~= Seq::<char>::empty());
        assert(norm_newlines(Seq::<char>::empty()) =~= Seq::<char>::empty());
        assert(out@ + Seq::<char>::empty() =~= out@);
    }
    chars_to_string(&out)
}

/// The label sequence `utf-8`, in lower case.
pub open spec fn utf8_label() -> Seq<char> {
    seq!['u', 't', 'f', '-', '8']
}

/// Whether `s` names UTF-8, ignoring ASCII case.
pub open spec fn is_utf8_label(s: Seq<char>) -> bool {
    crate::opencc_config::ascii_lower(s) == utf8_label()
}

fn matches_utf8_label(s: &str) -> (r: bool)
    ensures
        r == is_utf8_label(s@),
{
    let chars = chars_vec(s);
    let lower = crate::opencc_config::ascii_lower_chars(&chars);
    if lower.len() == 5 && lower[0] == 'u' && lower[1] == 't' && lower[2] == 'f' && lower[3] == '-'
        && lower[4] == '8' {
        proof {
            assert(lower@ =~= utf8_label());
        }
        true
    } else {
        proof {
            assert(lower@ != utf8_label());
        }
        false
    }
}

/// Whether a byte-order mark should be removed: the input is UTF-8 and
/// the output is not, comparing the labels without regard to ASCII case.
pub fn should_remove_bom(in_enc: &str, out_enc: &str) -> (r: bool)
    ensures
        r == (is_utf8_label(in_enc@) && !is_utf8_label(out_enc@)),
{
    matches_utf8_label(in_enc) && !matches_utf8_label(out_enc)
}

/// Removes one leading byte-order mark from `s`, if present.
pub fn remove_utf8_bom_str_inplace(s: &mut String)
    ensures
        final(s)@ == (if old(s)@.len() > 0 && old(s)@[0] == '\u{feff}' {
            old(s)@.skip(1)
        } else {
            old(s)@
        }),
{
    if s.as_str().is_empty() {
        return ;
    }
    let first = s.as_str().get_char(0);
    if first == '\u{feff}' {
        let chars = chars_vec(s.as_str());
        let n = chars.len();
        let mut out: Vec<char> = Vec::new();
        let mut i: usize = 1;
        while i < n
            invariant
                chars@ == old(s)@,
                n == chars@.len(),
                1 <= i <= n,
                out@ == chars@.subrange(1, i as int),
            decreases n - i,
        {
            out.push(chars[i]);
            proof {
                assert(chars@.subrange(1, i as int + 1) =~= chars@.subrange(1, i as int).push(
                    chars@[i as int],
                ));
            }
            i += 1;
        }
        proof {
            assert(chars@.subrange(1, n as int) =~= chars@.skip(1));
        }
        *s = chars_to_string(&out);
    }
}

} // verus!
