//! Parsing of line-oriented dictionary source text.  Each non-empty line
//! holds a source phrase and a target phrase separated by ASCII
//! whitespace; surplus tokens are ignored and malformed lines are
//! skipped.

use vstd::prelude::*;

use crate::dictionary_lib::dict_map::DictMap;
use crate::text::chars_to_string;
use crate::text::chars_vec;

verus! {

/// Whether `c` is ASCII whitespace: space, tab, newline, carriage
/// return or form feed.
pub open spec fn is_ascii_ws(c: char) -> bool {
    c == ' ' || c == '\t' || c == '\n' || c == '\r' || c == '\u{c}'
}

fn is_ascii_ws_exec(c: char) -> (r: bool)
    ensures
        r == is_ascii_ws(c),
{
    c == ' ' || c == '\t' || c == '\n' || c == '\r' || c == '\u{c}'
}

/// The lines of `s`: maximal runs between newline characters, with one
/// trailing carriage return removed from each, and no final empty line
/// when `s` ends with a newline.
pub open spec fn lines_of(s: Seq<char>) -> Seq<Seq<char>>
    decreases s.len(),
    via lines_of_decreases
{
    if s.len() == 0 {
        Seq::empty()
    } else {
        let line = line_prefix(s);
        let rest = s.skip(line_scan_len(s));
        seq![strip_cr(line)] + lines_of(rest)
    }
}

#[via_fn]
proof fn lines_of_decreases(s: Seq<char>) {
    if s.len() > 0 {
        lemma_first_nl_bounds(s, 0);
    }
}

/// The first-newline scan stays between its start and the length.
proof fn lemma_first_nl_bounds(s: Seq<char>, i: int)
    requires
        0 <= i <= s.len(),
    ensures
        i <= first_nl_from(s, i) <= s.len(),
    decreases s.len() - i,
{
    if i < s.len() && s[i] != '\n' {
        lemma_first_nl_bounds(s, i + 1);
    }
}

/// The first-whitespace scan stays between its start and the length.
proof fn lemma_first_ws_bounds(line: Seq<char>, i: int)
    requires
        0 <= i <= line.len(),
    ensures
        i <= first_ws_from(line, i) <= line.len(),
    decreases line.len() - i,
{
    if i < line.len() && !is_ascii_ws(line[i]) {
        lemma_first_ws_bounds(line, i + 1);
    }
}

/// The characters of `s` before its first newline.
pub open spec fn line_prefix(s: Seq<char>) -> Seq<char> {
    s.take(line_len(s))
}

/// Index of the first newline in `s`, or its length.
pub open spec fn line_len(s: Seq<char>) -> int {
    first_nl_from(s, 0)
}

/// Characters consumed by the first line: its text and the newline after
/// it, if any.
pub open spec fn line_scan_len(s: Seq<char>) -> int {
    if line_len(s) < s.len() {
        line_len(s) + 1
    } else {
        line_len(s)
    }
}

/// Index of the first newline in `s` at or after `i`, or the length.
pub open spec fn first_nl_from(s: Seq<char>, i: int) -> int
    decreases s.len() - i,
{
    if i < 0 || i >= s.len() {
        s.len() as int
    } else if s[i] == '\n' {
        i
    } else {
        first_nl_from(s, i + 1)
    }
}

/// `line` with one trailing carriage return removed.
pub open spec fn strip_cr(line: Seq<char>) -> Seq<char> {
    if line.len() > 0 && line.last() == '\r' {
        line.drop_last()
    } else {
        line
    }
}

/// The ASCII-whitespace-separated tokens of `line`.
pub open spec fn tokens_of(line: Seq<char>) -> Seq<Seq<char>>
    decreases line.len(),
    via tokens_of_decreases
{
    if line.len() == 0 {
        Seq::empty()
    } else if is_ascii_ws(line[0]) {
        tokens_of(line.drop_first())
    } else {
        let t = token_prefix(line);
        seq![t] + tokens_of(line.skip(t.len() as int))
    }
}

#[via_fn]
proof fn tokens_of_decreases(line: Seq<char>) {
    if line.len() > 0 && !is_ascii_ws(line[0]) {
        lemma_first_ws_bounds(line, 1);
        assert(first_ws_from(line, 0) == first_ws_from(line, 1));
    }
}

/// The leading run of non-whitespace characters of `line`.
pub open spec fn token_prefix(line: Seq<char>) -> Seq<char> {
    line.take(first_ws_from(line, 0))
}

/// Index of the first ASCII whitespace in `line` at or after `i`, or the
/// length.
pub open spec fn first_ws_from(line: Seq<char>, i: int) -> int
    decreases line.len() - i,
{
    if i < 0 || i >= line.len() {
        line.len() as int
    } else if is_ascii_ws(line[i]) {
        i
    } else {
        first_ws_from(line, i + 1)
    }
}

/// The table described by dictionary source text: for every line with at
/// least two tokens whose key is short enough to measure, the first
/// token maps to the second, later lines overriding earlier ones.
pub open spec fn parse_dict(s: Seq<char>) -> Map<Seq<char>, Seq<char>> {
    parse_lines(lines_of(s))
}

/// The table described by a sequence of lines, in order.
pub open spec fn parse_lines(lines: Seq<Seq<char>>) -> Map<Seq<char>, Seq<char>>
    decreases lines.len(),
{
    if lines.len() == 0 {
        Map::empty()
    } else {
        let m = parse_lines(lines.drop_last());
        let ts = tokens_of(lines.last());
        if ts.len() >= 2 && ts[0].len() <= u16::MAX {
            m.insert(ts[0], ts[1])
        } else {
            m
        }
    }
}

/// Splits the characters of one line into its ASCII-whitespace-separated
/// tokens.
fn split_line_tokens(line: &Vec<char>) -> (toks: Vec<Vec<char>>)
    ensures
        toks@.map_values(|t: Vec<char>| t@) == tokens_of(line@),
    decreases line@.len(),
{
    let ghost gl = line@;
    let mut toks: Vec<Vec<char>> = Vec::new();
    let n = line.len();
    let mut i: usize = 0;
    proof {
        assert(gl.skip(0) =~= gl);
        assert(toks@.map_values(|t: Vec<char>| t@) =~= Seq::<Seq<char>>::empty());
        assert(Seq::<Seq<char>>::empty() + tokens_of(gl) =~= tokens_of(gl));
    }
    while i < n
        invariant
            gl == line@,
            n == gl.len(),
            i <= n,
            tokens_of(gl) == toks@.map_values(|t: Vec<char>| t@) + tokens_of(gl.skip(i as int)),
        decreases n - i,
    {
        if is_ascii_ws_exec(line[i]) {
            proof {
                assert(gl.skip(i as int).drop_first() =~= gl.skip(i as int + 1));
                assert(gl.skip(i as int)[0] == gl[i as int]);
            }
            i += 1;
        } else {
            let ghost rest = gl.skip(i as int);
            let mut tok: Vec<char> = Vec::new();
            let start = i;
            while i < n && !is_ascii_ws_exec(line[i])
                invariant
                    gl == line@,
                    n == gl.len(),
                    start <= i <= n,
                    tok@ == gl.subrange(start as int, i as int),
                    rest == gl.skip(start as int),
                    forall|j: int| start <= j < i ==> !is_ascii_ws(gl[j]),
                decreases n - i,
            {
                tok.push(line[i]);
                proof {
                    assert(gl.subrange(start as int, i as int + 1) =~= gl.subrange(
                        start as int,
                        i as int,
                    ).push(gl[i as int]));
                }
                i += 1;
            }
            proof {
                lemma_first_ws_scan(gl.skip(start as int), 0, i - start);
                assert(token_prefix(rest) =~= rest.take(i - start));
                assert(rest.take(i - start) =~= gl.subrange(start as int, i as int));
                assert(tokens_of(rest) == seq![tok@] + tokens_of(rest.skip(tok@.len() as int)));
                assert(rest.skip(tok@.len() as int) =~= gl.skip(i as int));
                assert((toks@.push(tok)).map_values(|t: Vec<char>| t@) =~= toks@.map_values(
                    |t: Vec<char>| t@,
                ).push(tok@));
                assert(toks@.map_values(|t: Vec<char>| t@).push(tok@) + tokens_of(
                    gl.skip(i as int),
                ) =~= toks@.map_values(|t: Vec<char>| t@) + (seq![tok@] + tokens_of(
                    gl.skip(i as int),
                )));
            }
            toks.push(tok);
        }
    }
    proof {
        assert(gl.skip(n as int) =~= Seq::<char>::empty());
        assert(toks@.map_values(|t: Vec<char>| t@) + Seq::<Seq<char>>::empty() =~= toks@.map_values(
            |t: Vec<char>| t@,
        ));
    }
    toks
}

/// In a sequence with no whitespace before position `j` and whitespace
/// at `j` (or `j` at the end), the first-whitespace scan from `i` stops
/// at `j`.
proof fn lemma_first_ws_scan(s: Seq<char>, i: int, j: int)
    requires
        0 <= i <= j <= s.len(),
        forall|x: int| i <= x < j ==> !is_ascii_ws(s[x]),
        j < s.len() ==> is_ascii_ws(s[j]),
    ensures
        first_ws_from(s, i) == j,
    decreases j - i,
{
    if i < j {
        lemma_first_ws_scan(s, i + 1, j);
    }
}

/// In a sequence with no newline before position `j` and a newline at
/// `j` (or `j` at the end), the first-newline scan from `i` stops at `j`.
proof fn lemma_first_nl_scan(s: Seq<char>, i: int, j: int)
    requires
        0 <= i <= j <= s.len(),
        forall|x: int| i <= x < j ==> s[x] != '\n',
        j < s.len() ==> s[j] == '\n',
    ensures
        first_nl_from(s, i) == j,
    decreases j - i,
{
    if i < j {
        lemma_first_nl_scan(s, i + 1, j);
    }
}

/// Splits text into its lines, newline characters removed and one
/// trailing carriage return stripped from each line.
fn split_lines(content: &Vec<char>) -> (lines: Vec<Vec<char>>)
    ensures
        lines@.map_values(|l: Vec<char>| l@) == lines_of(content@),
{
    let ghost g = content@;
    let mut lines: Vec<Vec<char>> = Vec::new();
    let n = content.len();
    let mut i: usize = 0;
    proof {
        assert(g.skip(0) =~= g);
        assert(lines@.map_values(|l: Vec<char>| l@) =~= Seq::<Seq<char>>::empty());
        assert(Seq::<Seq<char>>::empty() + lines_of(g) =~= lines_of(g));
    }
    while i < n
        invariant
            g == content@,
            n == g.len(),
            i <= n,
            lines_of(g) == lines@.map_values(|l: Vec<char>| l@) + lines_of(g.skip(i as int)),
        decreases n - i,
    {
        let ghost rest = g.skip(i as int);
        let start = i;
        let mut line: Vec<char> = Vec::new();
        while i < n && content[i] != '\n'
            invariant
                g == content@,
                n == g.len(),
                start <= i <= n,
                line@ == g.subrange(start as int, i as int),
                rest == g.skip(start as int),
                forall|j: int| start <= j < i ==> g[j] != '\n',
            decreases n - i,
        {
            line.push(content[i]);
            proof {
                assert(g.subrange(start as int, i as int + 1) =~= g.subrange(
                    start as int,
                    i as int,
                ).push(g[i as int]));
            }
            i += 1;
        }
        proof {
            lemma_first_nl_scan(rest, 0, i - start);
            assert(line_prefix(rest) =~= rest.take(i - start));
            assert(rest.take(i - start) =~= g.subrange(start as int, i as int));
        }
        if line.len() > 0 && line[line.len() - 1] == '\r' {
            let _ = line.pop();
            proof {
                assert(line@ =~= strip_cr(g.subrange(start as int, i as int)));
            }
        } else {
            proof {
                assert(line@ =~= strip_cr(g.subrange(start as int, i as int)));
            }
        }
        if i < n {
            proof {
                assert(line_scan_len(rest) == i - start + 1);
                assert(rest.skip(i - start + 1) =~= g.skip(i as int + 1));
            }
            i += 1;
        } else {
            proof {
                assert(line_scan_len(rest) == i - start);
                assert(rest.skip(i - start) =~= g.skip(i as int));
            }
        }
        proof {
            assert(rest.len() > 0);
            assert(lines_of(rest) == seq![line@] + lines_of(g.skip(i as int)));
            assert((lines@.push(line)).map_values(|l: Vec<char>| l@) =~= lines@.map_values(
                |l: Vec<char>| l@,
            ).push(line@));
            assert(lines@.map_values(|l: Vec<char>| l@).push(line@) + lines_of(g.skip(i as int))
                =~= lines@.map_values(|l: Vec<char>| l@) + (seq![line@] + lines_of(
                g.skip(i as int),
            )));
        }
        lines.push(line);
    }
    proof {
        assert(g.skip(n as int) =~= Seq::<char>::empty());
        assert(lines@.map_values(|l: Vec<char>| l@) + Seq::<Seq<char>>::empty()
            =~= lines@.map_values(|l: Vec<char>| l@));
    }
    lines
}

impl DictMap {
    /// Builds a table from line-oriented dictionary source text.  Every
    /// line with at least two ASCII-whitespace-separated tokens adds the
    /// first token mapping to the second; other non-empty lines are
    /// skipped, as are lines whose key has more characters than the
    /// length metadata can record.
    pub fn from_text(content: &str) -> (d: DictMap)
        ensures
            d.wf(),
            d@ == parse_dict(content@),
    {
        let chars = chars_vec(content);
        let lines = split_lines(&chars);
        let mut d = DictMap::new();
        let n = lines.len();
        let mut i: usize = 0;
        proof {
            assert(lines@.map_values(|l: Vec<char>| l@).take(0) =~= Seq::<Seq<char>>::empty());
        }
        while i < n
            invariant
                n == lines@.len(),
                i <= n,
                d.wf(),
                d@ == parse_lines(lines@.map_values(|l: Vec<char>| l@).take(i as int)),
            decreases n - i,
        {
            let toks = split_line_tokens(&lines[i]);
            let ghost lv = lines@.map_values(|l: Vec<char>| l@);
            if toks.len() >= 2 {
                let key = &toks[0];
                if key.len() <= u16::MAX as usize {
                    let key_s = chars_to_string(key);
                    let val_s = chars_to_string(&toks[1]);
                    let len16: u16 = key.len() as u16;
                    d.insert_with_len(key_s, val_s, len16);
                }
            }
            proof {
                assert(lv.take(i as int + 1).drop_last() =~= lv.take(i as int));
                assert(lv.take(i as int + 1).last() == lv[i as int]);
                assert(tokens_of(lv[i as int]) == toks@.map_values(|t: Vec<char>| t@));
            }
            i += 1;
        }
        proof {
            assert(lines@.map_values(|l: Vec<char>| l@).take(n as int) =~= lines@.map_values(
                |l: Vec<char>| l@,
            ));
        }
        d
    }
}

} // verus!
