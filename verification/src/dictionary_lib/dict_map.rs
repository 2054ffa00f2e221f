//! One directional phrase table.  A [`DictMap`] maps source phrases to
//! target phrases and keeps per-key-length metadata — a 64-bit mask for
//! lengths one to sixty-four and an explicit list for longer keys — so
//! that a converter can skip window sizes that cannot match.

use vstd::prelude::*;

verus! {

/// One phrase-to-phrase mapping table with per-key-length metadata.
///
/// The table is viewed as a [`Map`] from key character sequences to value
/// character sequences.  `min_len` and `max_len` are the least and
/// greatest key length in characters (zero when no key has one), bit
/// `n - 1` of `key_len_mask` is set exactly when some key has length `n`
/// for `n` up to sixty-four, and `long_lengths` lists the key lengths
/// above sixty-four.
pub struct DictMap {
    /// The key-value entries, in insertion order, keys unique.
    pub entries: Vec<(String, String)>,
    /// Least key length in characters; zero when no key has a length.
    pub min_len: u16,
    /// Greatest key length in characters; zero when no key has a length.
    pub max_len: u16,
    /// Bit `n - 1` set exactly when some key has length `n`, `n` up to 64.
    pub key_len_mask: u64,
    /// The key lengths above sixty-four.
    pub long_lengths: Vec<u16>,
}

/// The mapping described by a sequence of key-value entries, later
/// entries overriding earlier ones.
pub open spec fn entries_map(s: Seq<(String, String)>) -> Map<Seq<char>, Seq<char>>
    decreases s.len(),
{
    if s.len() == 0 {
        Map::empty()
    } else {
        entries_map(s.drop_last()).insert(s.last().0@, s.last().1@)
    }
}

/// Whether bit `n - 1` of `mask` is set, for `n` between one and
/// sixty-four.
pub open spec fn mask_bit(mask: u64, n: int) -> bool {
    mask >> (n - 1) as u64 & 1u64 == 1u64
}

impl View for DictMap {
    type V = Map<Seq<char>, Seq<char>>;

    open spec fn view(&self) -> Map<Seq<char>, Seq<char>> {
        entries_map(self.entries@)
    }
}

impl DictMap {
    /// No two entries share a key, so a first-match scan agrees with the
    /// map view.
    pub open spec fn keys_unique(self) -> bool {
        forall|i: int, j: int|
            0 <= i < j < self.entries@.len() ==> self.entries@[i].0@ != self.entries@[j].0@
    }

    /// The length metadata agrees with the keys: the mask and the long
    /// list record exactly the lengths present, and `min_len` / `max_len`
    /// bound them exactly.
    pub open spec fn len_meta_ok(self) -> bool {
        &&& forall|k: Seq<char>|
            #[trigger] self@.contains_key(k) ==> k.len() <= u16::MAX
        &&& forall|k: Seq<char>|
            #[trigger] self@.contains_key(k) && 1 <= k.len() <= 64 ==> mask_bit(
                self.key_len_mask,
                k.len() as int,
            )
        &&& forall|n: int|
            1 <= n <= 64 && #[trigger] mask_bit(self.key_len_mask, n) ==> key_len_present(self@, n)
        &&& forall|k: Seq<char>|
            #[trigger] self@.contains_key(k) && k.len() > 64 ==> self.long_lengths@.contains(
                k.len() as u16,
            )
        &&& forall|n: u16|
            #[trigger] self.long_lengths@.contains(n) ==> n > 64 && key_len_present(self@, n as int)
        &&& forall|k: Seq<char>|
            #[trigger] self@.contains_key(k) && k.len() >= 1 ==> self.min_len as int <= k.len()
                <= self.max_len as int
        &&& self.min_len > 0 ==> key_len_present(self@, self.min_len as int)
        &&& self.max_len > 0 ==> key_len_present(self@, self.max_len as int)
        &&& (self.min_len == 0 <==> self.max_len == 0)
        &&& self.min_len == 0 ==> forall|k: Seq<char>| #[trigger] self@.contains_key(k) ==> k.len() == 0
    }

    /// Well-formedness: unique entry keys and exact length metadata.
    pub open spec fn wf(self) -> bool {
        self.keys_unique() && self.len_meta_ok()
    }

    /// The empty table.
    pub fn new() -> (d: DictMap)
        ensures
            d.wf(),
            d@ == Map::<Seq<char>, Seq<char>>::empty(),
            d.min_len == 0,
            d.max_len == 0,
    {
        let d = DictMap {
            entries: Vec::new(),
            min_len: 0,
            max_len: 0,
            key_len_mask: 0,
            long_lengths: Vec::new(),
        };
        proof {
            assert forall|n: int| 1 <= n <= 64 implies !mask_bit(0u64, n) by {
                let m = (n - 1) as u64;
                assert(0u64 >> m & 1u64 == 0u64) by (bit_vector);
            }
        }
        d
    }

    /// The value mapped to `from`, if the table holds the key.
    pub fn get<'a>(&'a self, from: &str) -> (r: Option<&'a str>)
        requires
            self.wf(),
        ensures
            match r {
                Some(v) => self@.contains_key(from@) && v@ == self@[from@],
                None => !self@.contains_key(from@),
            },
    {
        let key: String = from.to_owned();
        let n = self.entries.len();
        let mut i: usize = 0;
        while i < n
            invariant
                self.wf(),
                key@ == from@,
                n == self.entries@.len(),
                i <= n,
                forall|j: int| 0 <= j < i ==> self.entries@[j].0@ != from@,
            decreases n - i,
        {
            if self.entries[i].0 == key {
                proof {
                    lemma_entries_map_index(self.entries@, i as int);
                }
                return Some(self.entries[i].1.as_str());
            }
            i += 1;
        }
        proof {
            if self@.contains_key(from@) {
                lemma_entries_map_dom(self.entries@, from@);
            }
        }
        None
    }

    /// Records `key` mapping to `val`, where `len_chars` is the length of
    /// `key` in characters.  An existing entry for `key` is overwritten.
    pub fn insert_with_len(&mut self, key: String, val: String, len_chars: u16)
        requires
            old(self).wf(),
            key@.len() == len_chars,
        ensures
            final(self).wf(),
            final(self)@ == old(self)@.insert(key@, val@),
    {
        let ghost old_entries = self.entries@;
        if len_chars != 0 {
            if len_chars <= 64 {
                let bit = 1u64 << ((len_chars - 1) as u64);
                let new_mask = self.key_len_mask | bit;
                proof {
                    let m = self.key_len_mask;
                    let l64 = (len_chars - 1) as u64;
                    assert forall|n: int| 1 <= n <= 64 implies #[trigger] mask_bit(new_mask, n) == (
                    mask_bit(m, n) || n == len_chars) by {
                        let n64 = (n - 1) as u64;
                        assert(l64 < 64 && n64 < 64 ==> (((m | (1u64 << l64)) >> n64) & 1u64
                            == 1u64) == (((m >> n64) & 1u64 == 1u64) || n64 == l64))
                            by (bit_vector);
                        assert(l64 < 64 && n64 < 64);
                        assert((n64 == l64) == (n == len_chars));
                    }
                }
                self.key_len_mask = new_mask;
            } else {
                if !self.contains_long(len_chars) {
                    let ghost old_longs = self.long_lengths@;
                    self.long_lengths.push(len_chars);
                    proof {
                        assert forall|n: u16| #[trigger] self.long_lengths@.contains(n) == (
                        old_longs.contains(n) || n == len_chars) by {
                            if old_longs.contains(n) || n == len_chars {
                                if old_longs.contains(n) {
                                    let j = choose|j: int|
                                        0 <= j < old_longs.len() && old_longs[j] == n;
                                    assert(self.long_lengths@[j] == n);
                                } else {
                                    assert(self.long_lengths@[old_longs.len() as int] == n);
                                }
                            } else {
                                if self.long_lengths@.contains(n) {
                                    let j = choose|j: int|
                                        0 <= j < self.long_lengths@.len()
                                            && self.long_lengths@[j] == n;
                                    assert(j < old_longs.len() ==> old_longs[j] == n);
                                }
                            }
                        }
                    }
                }
            }
            if self.min_len == 0 || len_chars < self.min_len {
                self.min_len = len_chars;
            }
            if len_chars > self.max_len {
                self.max_len = len_chars;
            }
        }
        let found = find_key(&self.entries, &key);
        match found {
            Some(i) => {
                let ghost e = (key, val);
                self.entries[i] = (key, val);
                proof {
                    assert(self.entries@ =~= old_entries.update(i as int, e));
                    lemma_entries_map_update(old_entries, i as int, e);
                    assert forall|a: int, b: int|
                        0 <= a < b < self.entries@.len() implies self.entries@[a].0@
                        != self.entries@[b].0@ by {
                        assert(self.entries@[a].0@ == old_entries[a].0@);
                        assert(self.entries@[b].0@ == old_entries[b].0@);
                    }
                    lemma_insert_meta(*old(self), *self, key@, val@, len_chars);
                }
            },
            None => {
                self.entries.push((key, val));
                proof {
                    assert(self.entries@.drop_last() =~= old_entries);
                    if entries_map(old_entries).contains_key(key@) {
                        lemma_entries_map_dom(old_entries, key@);
                    }
                    assert forall|a: int, b: int|
                        0 <= a < b < self.entries@.len() implies self.entries@[a].0@
                        != self.entries@[b].0@ by {
                        if b < old_entries.len() {
                            assert(self.entries@[a].0@ == old_entries[a].0@);
                            assert(self.entries@[b].0@ == old_entries[b].0@);
                        } else {
                            assert(self.entries@[a].0@ == old_entries[a].0@);
                            assert(self.entries@[b].0@ == key@);
                        }
                    }
                    lemma_insert_meta(*old(self), *self, key@, val@, len_chars);
                }
            },
        }
    }

    /// Whether the table holds at least one key of length `n` characters.
    pub fn has_key_len(&self, n: u16) -> (r: bool)
        requires
            self.wf(),
        ensures
            r == (n >= 1 && key_len_present(self@, n as int)),
    {
        if n == 0 {
            return false;
        }
        if n <= 64 {
            let hit = self.key_len_mask & (1u64 << ((n - 1) as u64)) != 0;
            proof {
                let m = self.key_len_mask;
                let n64 = (n - 1) as u64;
                assert(n64 < 64 ==> (m & (1u64 << n64) != 0) == ((m >> n64) & 1u64 == 1u64))
                    by (bit_vector);
                assert(n64 < 64);
                assert((n as int - 1) as u64 == n64);
                assert(hit == mask_bit(m, n as int));
                if key_len_present(self@, n as int) {
                    let w = choose|w: Seq<char>| self@.contains_key(w) && w.len() == n as int;
                    assert(self@.contains_key(w));
                    assert(mask_bit(m, n as int));
                }
            }
            hit
        } else {
            let hit = self.contains_long(n);
            proof {
                if key_len_present(self@, n as int) {
                    let w = choose|w: Seq<char>| self@.contains_key(w) && w.len() == n as int;
                    assert(self@.contains_key(w));
                    assert(w.len() as u16 == n);
                }
            }
            hit
        }
    }

    /// Whether `n` is recorded among the key lengths above sixty-four.
    fn contains_long(&self, n: u16) -> (r: bool)
        ensures
            r == self.long_lengths@.contains(n),
    {
        let m = self.long_lengths.len();
        let mut i: usize = 0;
        while i < m
            invariant
                m == self.long_lengths@.len(),
                i <= m,
                forall|j: int| 0 <= j < i ==> self.long_lengths@[j] != n,
            decreases m - i,
        {
            if self.long_lengths[i] == n {
                return true;
            }
            i += 1;
        }
        false
    }
}

/// Index of the entry whose key equals `key`, if one exists.
fn find_key(entries: &Vec<(String, String)>, key: &String) -> (r: Option<usize>)
    ensures
        match r {
            Some(i) => i < entries@.len() && entries@[i as int].0@ == key@,
            None => forall|j: int| 0 <= j < entries@.len() ==> entries@[j].0@ != key@,
        },
{
    let n = entries.len();
    let mut i: usize = 0;
    while i < n
        invariant
            n == entries@.len(),
            i <= n,
            forall|j: int| 0 <= j < i ==> entries@[j].0@ != key@,
        decreases n - i,
    {
        if entries[i].0 == *key {
            return Some(i);
        }
        i += 1;
    }
    None
}

impl Default for DictMap {
    /// The empty table.
    fn default() -> (d: DictMap)
        ensures
            d.wf(),
            d@ == Map::<Seq<char>, Seq<char>>::empty(),
    {
        DictMap::new()
    }
}

/// Whether some key of `m` has length `n` characters.
pub open spec fn key_len_present(m: Map<Seq<char>, Seq<char>>, n: int) -> bool {
    exists|k: Seq<char>| m.contains_key(k) && k.len() == n
}

/// An entry's key is in the map, mapped to the value of its last
/// occurrence; for unique keys, to its own value.
proof fn lemma_entries_map_index(s: Seq<(String, String)>, i: int)
    requires
        0 <= i < s.len(),
        forall|a: int, b: int| 0 <= a < b < s.len() ==> s[a].0@ != s[b].0@,
    ensures
        entries_map(s).contains_key(s[i].0@),
        entries_map(s)[s[i].0@] == s[i].1@,
    decreases s.len(),
{
    if i == s.len() - 1 {
    } else {
        assert(s.drop_last()[i] == s[i]);
        lemma_entries_map_index(s.drop_last(), i);
    }
}

/// Every key of the map comes from some entry.
proof fn lemma_entries_map_dom(s: Seq<(String, String)>, k: Seq<char>)
    requires
        entries_map(s).contains_key(k),
    ensures
        exists|i: int| 0 <= i < s.len() && s[i].0@ == k,
    decreases s.len(),
{
    if s.len() > 0 {
        if s.last().0@ == k {
            assert(s[s.len() - 1].0@ == k);
        } else {
            lemma_entries_map_dom(s.drop_last(), k);
            let i = choose|i: int| 0 <= i < s.drop_last().len() && s.drop_last()[i].0@ == k;
            assert(s[i].0@ == k);
        }
    }
}

/// Overwriting the entry at `i` with an equal-keyed pair updates the map
/// at that key alone.
proof fn lemma_entries_map_update(s: Seq<(String, String)>, i: int, e: (String, String))
    requires
        0 <= i < s.len(),
        forall|a: int, b: int| 0 <= a < b < s.len() ==> s[a].0@ != s[b].0@,
        s[i].0@ == e.0@,
    ensures
        entries_map(s.update(i, e)) == entries_map(s).insert(e.0@, e.1@),
    decreases s.len(),
{
    let t = s.update(i, e);
    if i == s.len() - 1 {
        assert(t.drop_last() =~= s.drop_last());
        assert(t.last() == e);
        assert(entries_map(t) =~= entries_map(s).insert(e.0@, e.1@));
    } else {
        assert(t.drop_last() =~= s.drop_last().update(i, e));
        assert(forall|a: int, b: int|
            0 <= a < b < s.drop_last().len() ==> s.drop_last()[a].0@ != s.drop_last()[b].0@);
        assert(s.drop_last()[i] == s[i]);
        lemma_entries_map_update(s.drop_last(), i, e);
        assert(t.last() == s.last());
        assert(s[i].0@ != s.last().0@);
        assert(entries_map(t) =~= entries_map(s.drop_last()).insert(e.0@, e.1@).insert(
            s.last().0@,
            s.last().1@,
        ));
        assert(entries_map(s.drop_last()).insert(e.0@, e.1@).insert(s.last().0@, s.last().1@)
            =~= entries_map(s.drop_last()).insert(s.last().0@, s.last().1@).insert(e.0@, e.1@));
    }
}

/// After an insertion whose metadata was updated for `len`, the length
/// metadata is again exact.
proof fn lemma_insert_meta(pre: DictMap, post: DictMap, k: Seq<char>, v: Seq<char>, len: u16)
    requires
        pre.len_meta_ok(),
        post@ == pre@.insert(k, v),
        k.len() == len,
        len == 0 ==> post.min_len == pre.min_len && post.max_len
            == pre.max_len && post.key_len_mask == pre.key_len_mask && post.long_lengths@
            == pre.long_lengths@,
        len != 0 ==> post.min_len == (if pre.min_len == 0 || len
            < pre.min_len {
            len
        } else {
            pre.min_len
        }),
        len != 0 ==> post.max_len == (if len > pre.max_len {
            len
        } else {
            pre.max_len
        }),
        1 <= len <= 64 ==> forall|n: int|
            1 <= n <= 64 ==> #[trigger] mask_bit(post.key_len_mask, n) == (mask_bit(
                pre.key_len_mask,
                n,
            ) || n == len),
        !(1 <= len <= 64) ==> post.key_len_mask == pre.key_len_mask,
        len > 64 ==> forall|n: u16|
            #[trigger] post.long_lengths@.contains(n) == (pre.long_lengths@.contains(n) || n
                == len),
        !(len > 64) ==> post.long_lengths@ == pre.long_lengths@,
    ensures
        post.len_meta_ok(),
{
    assert forall|kk: Seq<char>| #[trigger] post@.contains_key(kk) implies kk == k
        || pre@.contains_key(kk) by {}
    assert(post@.contains_key(k));
    assert forall|n: int| 1 <= n <= 64 && #[trigger] mask_bit(post.key_len_mask, n)
        implies key_len_present(post@, n) by {
        if len == n {
            assert(post@.contains_key(k) && k.len() == n);
        } else {
            assert(mask_bit(pre.key_len_mask, n));
            assert(key_len_present(pre@, n));
            let w = choose|w: Seq<char>| pre@.contains_key(w) && w.len() == n;
            assert(post@.contains_key(w) && w.len() == n);
        }
    }
    assert forall|n: u16| #[trigger] post.long_lengths@.contains(n) implies n > 64
        && key_len_present(post@, n as int) by {
        if len > 64 && n == len {
            assert(post@.contains_key(k) && k.len() == n as int);
        } else {
            assert(pre.long_lengths@.contains(n));
            assert(key_len_present(pre@, n as int));
            let w = choose|w: Seq<char>| pre@.contains_key(w) && w.len() == n as int;
            assert(post@.contains_key(w) && w.len() == n as int);
        }
    }
    if post.min_len > 0 {
        if len != 0 && post.min_len == len {
            assert(post@.contains_key(k) && k.len() == post.min_len as int);
        } else {
            assert(key_len_present(pre@, pre.min_len as int));
            let w = choose|w: Seq<char>|
                pre@.contains_key(w) && w.len() == pre.min_len as int;
            assert(post@.contains_key(w) && w.len() == post.min_len as int);
        }
    }
    if post.max_len > 0 {
        if len != 0 && post.max_len == len {
            assert(post@.contains_key(k) && k.len() == post.max_len as int);
        } else {
            assert(key_len_present(pre@, pre.max_len as int));
            let w = choose|w: Seq<char>|
                pre@.contains_key(w) && w.len() == pre.max_len as int;
            assert(post@.contains_key(w) && w.len() == post.max_len as int);
        }
    }
}

impl DictMap {
}

} // verus!
