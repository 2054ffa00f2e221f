//! Splitting text into contiguous ranges at the fixed delimiter set.
//! In inclusive mode each delimiter ends the range it closes; in
//! exclusive mode content and delimiter ranges are separate.  Both modes
//! partition the whole text.

use vstd::prelude::*;
use vstd::string::StrSliceExecFns;
use vstd::string::StringSliceAdditionalSpecFns;
use vstd::utf8::encode_utf8;

use crate::delimiter::is_delim;
use crate::delimiter::is_delimiter;
use crate::text::byte_off;
use crate::text::char_utf8_len;
use crate::text::chars_vec;
use crate::text::lemma_encode_utf8_take_step;

use core::ops::Range;

verus! {

/// Ranges of character indices emitted by the delimiter scan of `s`
/// starting at position `i` with the current segment open since `seg`.
pub open spec fn split_ranges_from(s: Seq<char>, i: int, seg: int, inclusive: bool) -> Seq<
    (int, int),
>
    decreases s.len() - i,
{
    if i >= s.len() {
        if seg < s.len() {
            seq![(seg, s.len() as int)]
        } else {
            Seq::empty()
        }
    } else if is_delim(s[i]) {
        if inclusive {
            seq![(seg, i + 1)] + split_ranges_from(s, i + 1, i + 1, inclusive)
        } else if seg < i {
            seq![(seg, i), (i, i + 1)] + split_ranges_from(s, i + 1, i + 1, inclusive)
        } else {
            seq![(i, i + 1)] + split_ranges_from(s, i + 1, i + 1, inclusive)
        }
    } else {
        split_ranges_from(s, i + 1, seg, inclusive)
    }
}

/// The ranges of character indices into which `s` splits.
pub open spec fn split_ranges(s: Seq<char>, inclusive: bool) -> Seq<(int, int)> {
    split_ranges_from(s, 0, 0, inclusive)
}

/// The chunks of `s`: the text of each range of the inclusive split.
pub open spec fn chunks_of(s: Seq<char>) -> Seq<Seq<char>> {
    split_ranges(s, true).map_values(|p: (int, int)| s.subrange(p.0, p.1))
}

/// The split is a contiguous partition: ranges are non-empty, adjacent,
/// begin at the open segment and end at the end of the text.
pub proof fn lemma_split_partition(s: Seq<char>, i: int, seg: int, inclusive: bool)
    requires
        0 <= seg <= i <= s.len(),
    ensures
        split_ranges_from(s, i, seg, inclusive).len() == 0 ==> seg == s.len(),
        split_ranges_from(s, i, seg, inclusive).len() > 0 ==> split_ranges_from(
            s,
            i,
            seg,
            inclusive,
        )[0].0 == seg && split_ranges_from(s, i, seg, inclusive).last().1 == s.len(),
        forall|k: int|
            0 <= k < split_ranges_from(s, i, seg, inclusive).len() ==> (
            #[trigger] split_ranges_from(s, i, seg, inclusive)[k].0 < split_ranges_from(
                s,
                i,
                seg,
                inclusive,
            )[k].1),
        forall|k: int|
            0 <= k < split_ranges_from(s, i, seg, inclusive).len() - 1 ==> (
            #[trigger] split_ranges_from(s, i, seg, inclusive)[k].1 == split_ranges_from(
                s,
                i,
                seg,
                inclusive,
            )[k + 1].0),
        forall|k: int|
            0 <= k < split_ranges_from(s, i, seg, inclusive).len() ==> seg <= (
            #[trigger] split_ranges_from(s, i, seg, inclusive)[k].0) && split_ranges_from(
                s,
                i,
                seg,
                inclusive,
            )[k].1 <= s.len(),
    decreases s.len() - i,
{
    if i >= s.len() {
    } else if is_delim(s[i]) {
        lemma_split_partition(s, i + 1, i + 1, inclusive);
    } else {
        lemma_split_partition(s, i + 1, seg, inclusive);
    }
}

/// Within each range of the inclusive split, every character before
/// the last is a non-delimiter: ranges close at the delimiter that ends
/// them.
pub proof fn lemma_split_content(s: Seq<char>, i: int, seg: int)
    requires
        0 <= seg <= i <= s.len(),
        forall|x: int| seg <= x < i ==> !is_delim(#[trigger] s[x]),
    ensures
        forall|k: int, pos: int|
            0 <= k < split_ranges_from(s, i, seg, true).len() && (#[trigger] split_ranges_from(
                s,
                i,
                seg,
                true,
            )[k]).0 <= pos < split_ranges_from(s, i, seg, true)[k].1 - 1 ==> !is_delim(
                #[trigger] s[pos],
            ),
    decreases s.len() - i,
{
    let rs = split_ranges_from(s, i, seg, true);
    if i >= s.len() {
        if seg < s.len() {
            assert forall|k: int, pos: int|
                0 <= k < rs.len() && (#[trigger] rs[k]).0 <= pos < rs[k].1 - 1 implies !is_delim(
                #[trigger] s[pos],
            ) by {
                assert(rs[0] == (seg, s.len() as int));
            }
        }
    } else if is_delim(s[i]) {
        lemma_split_content(s, i + 1, i + 1);
        let rest = split_ranges_from(s, i + 1, i + 1, true);
        assert forall|k: int, pos: int|
            0 <= k < rs.len() && (#[trigger] rs[k]).0 <= pos < rs[k].1 - 1 implies !is_delim(
            #[trigger] s[pos],
        ) by {
            if k == 0 {
                assert(rs[0] == (seg, i + 1));
            } else {
                assert(rs[k] == rest[k - 1]);
            }
        }
    } else {
        lemma_split_content(s, i + 1, seg);
        let rest = split_ranges_from(s, i + 1, seg, true);
        assert forall|k: int, pos: int|
            0 <= k < rs.len() && (#[trigger] rs[k]).0 <= pos < rs[k].1 - 1 implies !is_delim(
            #[trigger] s[pos],
        ) by {
            assert(rs[k] == rest[k]);
        }
    }
}

/// Concatenation of the text of each range in `rs`, in order.
pub open spec fn concat_ranges(s: Seq<char>, rs: Seq<(int, int)>) -> Seq<char>
    decreases rs.len(),
{
    if rs.len() == 0 {
        Seq::empty()
    } else {
        s.subrange(rs[0].0, rs[0].1) + concat_ranges(s, rs.drop_first())
    }
}

/// The ranges of the split cover the rest of the text exactly.
pub proof fn lemma_split_cover(s: Seq<char>, i: int, seg: int, inclusive: bool)
    requires
        0 <= seg <= i <= s.len(),
    ensures
        concat_ranges(s, split_ranges_from(s, i, seg, inclusive)) == s.skip(seg),
    decreases s.len() - i,
{
    let rs = split_ranges_from(s, i, seg, inclusive);
    if i >= s.len() {
        if seg < s.len() {
            assert(rs =~= seq![(seg, s.len() as int)]);
            assert(rs.drop_first() =~= Seq::<(int, int)>::empty());
            assert(concat_ranges(s, rs.drop_first()) =~= Seq::<char>::empty());
            assert(concat_ranges(s, rs) =~= s.subrange(seg, s.len() as int) + Seq::<
                char,
            >::empty());
            assert(concat_ranges(s, rs) =~= s.subrange(seg, s.len() as int));
            assert(s.subrange(seg, s.len() as int) =~= s.skip(seg));
        } else {
            assert(s.skip(seg) =~= Seq::<char>::empty());
        }
    } else if is_delim(s[i]) {
        lemma_split_cover(s, i + 1, i + 1, inclusive);
        let rest = split_ranges_from(s, i + 1, i + 1, inclusive);
        if inclusive {
            assert(rs =~= seq![(seg, i + 1)] + rest);
            assert(rs.drop_first() =~= rest);
            assert(concat_ranges(s, rs) =~= s.subrange(seg, i + 1) + s.skip(i + 1));
            assert(s.subrange(seg, i + 1) + s.skip(i + 1) =~= s.skip(seg));
        } else if seg < i {
            assert(rs =~= seq![(seg, i), (i, i + 1)] + rest);
            assert(rs.drop_first() =~= seq![(i, i + 1)] + rest);
            assert(rs.drop_first().drop_first() =~= rest);
            assert(concat_ranges(s, rs.drop_first()) =~= s.subrange(i, i + 1) + concat_ranges(
                s,
                rest,
            ));
            assert(concat_ranges(s, rs) =~= s.subrange(seg, i) + (s.subrange(i, i + 1) + s.skip(
                i + 1,
            )));
            assert(s.subrange(seg, i) + (s.subrange(i, i + 1) + s.skip(i + 1)) =~= s.skip(seg));
        } else {
            assert(rs =~= seq![(i, i + 1)] + rest);
            assert(rs.drop_first() =~= rest);
            assert(concat_ranges(s, rs) =~= s.subrange(i, i + 1) + s.skip(i + 1));
            assert(s.subrange(i, i + 1) + s.skip(i + 1) =~= s.skip(seg));
        }
    } else {
        lemma_split_cover(s, i + 1, seg, inclusive);
    }
}

/// Splits the characters into the ranges of character indices given by
/// [`split_ranges`].
pub(crate) fn split_points(chars: &Vec<char>, inclusive: bool) -> (r: Vec<(usize, usize)>)
    ensures
        r@.map_values(|p: (usize, usize)| (p.0 as int, p.1 as int)) == split_ranges(
            chars@,
            inclusive,
        ),
{
    let ghost s = chars@;
    let n = chars.len();
    let mut r: Vec<(usize, usize)> = Vec::new();
    let mut seg: usize = 0;
    let mut i: usize = 0;
    proof {
        assert(r@.map_values(|p: (usize, usize)| (p.0 as int, p.1 as int)) =~= Seq::<(
            int,
            int,
        )>::empty());
        assert(Seq::<(int, int)>::empty() + split_ranges_from(s, 0, 0, inclusive)
            =~= split_ranges_from(s, 0, 0, inclusive));
    }
    while i < n
        invariant
            s == chars@,
            n == s.len(),
            0 <= seg <= i <= n,
            split_ranges(s, inclusive) == r@.map_values(
                |p: (usize, usize)| (p.0 as int, p.1 as int),
            ) + split_ranges_from(s, i as int, seg as int, inclusive),
        decreases n - i,
    {
        let ghost emitted = r@.map_values(|p: (usize, usize)| (p.0 as int, p.1 as int));
        let c = chars[i];
        if is_delimiter(c) {
            if inclusive {
                r.push((seg, i + 1));
                proof {
                    assert(r@.map_values(|p: (usize, usize)| (p.0 as int, p.1 as int))
                        =~= emitted.push((seg as int, i + 1)));
                    assert(emitted.push((seg as int, i + 1)) + split_ranges_from(
                        s,
                        i + 1,
                        i + 1,
                        inclusive,
                    ) =~= emitted + (seq![(seg as int, i + 1)] + split_ranges_from(
                        s,
                        i + 1,
                        i + 1,
                        inclusive,
                    )));
                }
            } else {
                if seg < i {
                    r.push((seg, i));
                }
                r.push((i, i + 1));
                proof {
                    if seg < i {
                        assert(r@.map_values(|p: (usize, usize)| (p.0 as int, p.1 as int))
                            =~= emitted.push((seg as int, i as int)).push((i as int, i + 1)));
                        assert(emitted.push((seg as int, i as int)).push((i as int, i + 1))
                            + split_ranges_from(s, i + 1, i + 1, inclusive) =~= emitted + (seq![
                            (seg as int, i as int),
                            (i as int, i + 1),
                        ] + split_ranges_from(s, i + 1, i + 1, inclusive)));
                    } else {
                        assert(r@.map_values(|p: (usize, usize)| (p.0 as int, p.1 as int))
                            =~= emitted.push((i as int, i + 1)));
                        assert(emitted.push((i as int, i + 1)) + split_ranges_from(
                            s,
                            i + 1,
                            i + 1,
                            inclusive,
                        ) =~= emitted + (seq![(i as int, i + 1)] + split_ranges_from(
                            s,
                            i + 1,
                            i + 1,
                            inclusive,
                        )));
                    }
                }
            }
            seg = i + 1;
        }
        i += 1;
    }
    proof {
        let emitted = r@.map_values(|p: (usize, usize)| (p.0 as int, p.1 as int));
        if seg < n {
            assert(split_ranges_from(s, n as int, seg as int, inclusive) =~= seq![
                (seg as int, n as int),
            ]);
        } else {
            assert(split_ranges_from(s, n as int, seg as int, inclusive) =~= Seq::<(
                int,
                int,
            )>::empty());
        }
    }
    if seg < n {
        r.push((seg, n));
        proof {
            assert(split_ranges(s, inclusive) =~= r@.map_values(
                |p: (usize, usize)| (p.0 as int, p.1 as int),
            ));
        }
    } else {
        proof {
            assert(split_ranges(s, inclusive) =~= r@.map_values(
                |p: (usize, usize)| (p.0 as int, p.1 as int),
            ));
        }
    }
    r
}

/// The UTF-8 encoding of a concatenation is the concatenation of the
/// encodings.
pub proof fn lemma_encode_utf8_concat(a: Seq<char>, b: Seq<char>)
    ensures
        encode_utf8(a + b) == encode_utf8(a) + encode_utf8(b),
    decreases a.len(),
{
    if a.len() == 0 {
        assert(a + b =~= b);
        assert(encode_utf8(a) =~= Seq::<u8>::empty());
        assert(encode_utf8(a) + encode_utf8(b) =~= encode_utf8(b));
    } else {
        assert((a + b).drop_first() =~= a.drop_first() + b);
        assert((a + b)[0] == a[0]);
        assert((a + b).len() > 0);
        lemma_encode_utf8_concat(a.drop_first(), b);
        assert(encode_utf8(a + b) =~= encode_utf8(a) + encode_utf8(b));
    }
}

/// A prefix of the text encodes within the whole text's byte length.
pub proof fn lemma_byte_off_le_total(s: Seq<char>, i: int)
    requires
        0 <= i <= s.len(),
    ensures
        byte_off(s, i) <= encode_utf8(s).len(),
{
    assert(s.take(i) + s.skip(i) =~= s);
    lemma_encode_utf8_concat(s.take(i), s.skip(i));
}

/// The byte offset of each character of `text`, index by index, with the
/// total byte length appended.
pub(crate) fn byte_offsets(text: &str, chars: &Vec<char>) -> (offs: Vec<usize>)
    requires
        chars@ == text@,
    ensures
        offs@.len() == chars@.len() + 1,
        forall|k: int| 0 <= k <= chars@.len() ==> offs@[k] == byte_off(text@, k),
{
    broadcast use vstd::slice::axiom_spec_len;

    let ghost s = text@;
    let total = text.as_bytes().len();
    proof {
        assert(total == encode_utf8(s).len());
    }
    let n = chars.len();
    let mut offs: Vec<usize> = Vec::new();
    let mut bytes: usize = 0;
    offs.push(0);
    proof {
        assert(s.take(0) =~= Seq::<char>::empty());
    }
    let mut i: usize = 0;
    while i < n
        invariant
            s == text@,
            chars@ == s,
            n == s.len(),
            i <= n,
            total == encode_utf8(s).len(),
            offs@.len() == i + 1,
            bytes == byte_off(s, i as int),
            bytes <= total,
            forall|k: int| 0 <= k <= i ==> offs@[k] == byte_off(s, k),
        decreases n - i,
    {
        let w = char_utf8_len(chars[i]);
        proof {
            lemma_encode_utf8_take_step(s, i as int);
            lemma_byte_off_le_total(s, i as int + 1);
        }
        bytes = bytes + w;
        offs.push(bytes);
        i += 1;
    }
    offs
}

/// Splits `text` into non-overlapping byte ranges at the delimiter set.
///
/// Each returned range is the byte span of the corresponding range of
/// the character-level split: in inclusive mode a delimiter closes the
/// range it ends, in exclusive mode every delimiter is a range of its
/// own between the content ranges.
pub fn split_string_ranges_text(text: &str, inclusive: bool) -> (r: Vec<Range<usize>>)
    ensures
        r@.len() == split_ranges(text@, inclusive).len(),
        forall|k: int|
            0 <= k < r@.len() ==> (#[trigger] r@[k]).start == byte_off(
                text@,
                split_ranges(text@, inclusive)[k].0,
            ) && r@[k].end == byte_off(text@, split_ranges(text@, inclusive)[k].1),
{
    let ghost s = text@;
    let chars = chars_vec(text);
    let points = split_points(&chars, inclusive);
    let offs = byte_offsets(text, &chars);
    proof {
        lemma_split_partition(s, 0, 0, inclusive);
        assert forall|j: int| 0 <= j < points@.len() implies 0 <= (#[trigger] points@[j]).0
            && points@[j].0 < points@[j].1 && points@[j].1 <= s.len() by {
            let mapped = points@.map_values(|p: (usize, usize)| (p.0 as int, p.1 as int));
            assert(mapped[j] == (points@[j].0 as int, points@[j].1 as int));
            assert(split_ranges_from(s, 0, 0, inclusive)[j].0 < split_ranges_from(
                s,
                0,
                0,
                inclusive,
            )[j].1);
            assert(split_ranges_from(s, 0, 0, inclusive)[j].1 <= s.len());
        }
    }
    let m = points.len();
    let mut r: Vec<Range<usize>> = Vec::new();
    let mut k: usize = 0;
    while k < m
        invariant
            s == text@,
            m == points@.len(),
            points@.map_values(|p: (usize, usize)| (p.0 as int, p.1 as int)) == split_ranges(
                s,
                inclusive,
            ),
            offs@.len() == s.len() + 1,
            forall|j: int| 0 <= j <= s.len() ==> offs@[j] == byte_off(s, j),
            forall|j: int|
                0 <= j < m ==> 0 <= (#[trigger] points@[j]).0 && points@[j].0 < points@[j].1
                    && points@[j].1 <= s.len(),
            k <= m,
            r@.len() == k,
            forall|j: int|
                0 <= j < k ==> (#[trigger] r@[j]).start == byte_off(
                    s,
                    split_ranges(s, inclusive)[j].0,
                ) && r@[j].end == byte_off(s, split_ranges(s, inclusive)[j].1),
        decreases m - k,
    {
        let (a, b) = points[k];
        proof {
            assert(points@.map_values(|p: (usize, usize)| (p.0 as int, p.1 as int))[k as int] == (
            a as int,
            b as int,
            ));
        }
        r.push(Range { start: offs[a], end: offs[b] });
        k += 1;
    }
    r
}

} // verus!
