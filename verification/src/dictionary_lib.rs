//! Dictionary tables for script conversion: [`DictMap`], one directional
//! phrase table with per-key-length gating metadata, and [`Dictionary`],
//! the named bundle of sixteen tables covering every supported direction.

mod dict_map;
mod dict_text;

pub use dict_map::mask_bit;
pub use dict_map::DictMap;
pub use dict_text::lines_of;
pub use dict_text::parse_dict;

use vstd::prelude::*;

verus! {

/// Schema version of the packaged dictionary artifact.  A packaged
/// artifact whose recorded version differs is rejected at load time.
pub const SCHEMA_VERSION: u16 = 2;

/// A named bundle of sixteen directional mapping tables covering every
/// supported conversion direction, together with the schema version of
/// the artifact it was loaded from.
pub struct Dictionary {
    pub schema_version: u16,
    /// Simplified to Traditional character mappings.
    pub st_characters: DictMap,
    /// Simplified to Traditional phrase mappings.
    pub st_phrases: DictMap,
    /// Traditional to Simplified character mappings.
    pub ts_characters: DictMap,
    /// Traditional to Simplified phrase mappings.
    pub ts_phrases: DictMap,
    /// Taiwan phrase mappings.
    pub tw_phrases: DictMap,
    /// Reverse Taiwan phrase mappings.
    pub tw_phrases_rev: DictMap,
    /// Taiwan variant mappings.
    pub tw_variants: DictMap,
    /// Reverse Taiwan variant mappings.
    pub tw_variants_rev: DictMap,
    /// Reverse Taiwan variant phrase mappings.
    pub tw_variants_rev_phrases: DictMap,
    /// Hong Kong variant mappings.
    pub hk_variants: DictMap,
    /// Reverse Hong Kong variant mappings.
    pub hk_variants_rev: DictMap,
    /// Reverse Hong Kong variant phrase mappings.
    pub hk_variants_rev_phrases: DictMap,
    /// Japanese Shinjitai character mappings.
    pub jps_characters: DictMap,
    /// Japanese Shinjitai phrase mappings.
    pub jps_phrases: DictMap,
    /// Japanese variant mappings.
    pub jp_variants: DictMap,
    /// Reverse Japanese variant mappings.
    pub jp_variants_rev: DictMap,
}

impl Dictionary {
    /// All sixteen tables are well formed.
    pub open spec fn wf(self) -> bool {
        &&& self.st_characters.wf()
        &&& self.st_phrases.wf()
        &&& self.ts_characters.wf()
        &&& self.ts_phrases.wf()
        &&& self.tw_phrases.wf()
        &&& self.tw_phrases_rev.wf()
        &&& self.tw_variants.wf()
        &&& self.tw_variants_rev.wf()
        &&& self.tw_variants_rev_phrases.wf()
        &&& self.hk_variants.wf()
        &&& self.hk_variants_rev.wf()
        &&& self.hk_variants_rev_phrases.wf()
        &&& self.jps_characters.wf()
        &&& self.jps_phrases.wf()
        &&& self.jp_variants.wf()
        &&& self.jp_variants_rev.wf()
    }
}

impl Default for Dictionary {
    /// An empty bundle: every table is empty and the schema version is
    /// zero, marking a value that was not loaded from an artifact.
    fn default() -> (d: Dictionary)
        ensures
            d.wf(),
            d.schema_version == 0,
            d.st_characters@ == Map::<Seq<char>, Seq<char>>::empty(),
            d.st_phrases@ == Map::<Seq<char>, Seq<char>>::empty(),
            d.ts_characters@ == Map::<Seq<char>, Seq<char>>::empty(),
            d.ts_phrases@ == Map::<Seq<char>, Seq<char>>::empty(),
            d.tw_phrases@ == Map::<Seq<char>, Seq<char>>::empty(),
            d.tw_phrases_rev@ == Map::<Seq<char>, Seq<char>>::empty(),
            d.tw_variants@ == Map::<Seq<char>, Seq<char>>::empty(),
            d.tw_variants_rev@ == Map::<Seq<char>, Seq<char>>::empty(),
            d.tw_variants_rev_phrases@ == Map::<Seq<char>, Seq<char>>::empty(),
            d.hk_variants@ == Map::<Seq<char>, Seq<char>>::empty(),
            d.hk_variants_rev@ == Map::<Seq<char>, Seq<char>>::empty(),
            d.hk_variants_rev_phrases@ == Map::<Seq<char>, Seq<char>>::empty(),
            d.jps_characters@ == Map::<Seq<char>, Seq<char>>::empty(),
            d.jps_phrases@ == Map::<Seq<char>, Seq<char>>::empty(),
            d.jp_variants@ == Map::<Seq<char>, Seq<char>>::empty(),
            d.jp_variants_rev@ == Map::<Seq<char>, Seq<char>>::empty(),
    {
        Dictionary {
            schema_version: 0,
            st_characters: DictMap::new(),
            st_phrases: DictMap::new(),
            ts_characters: DictMap::new(),
            ts_phrases: DictMap::new(),
            tw_phrases: DictMap::new(),
            tw_phrases_rev: DictMap::new(),
            tw_variants: DictMap::new(),
            tw_variants_rev: DictMap::new(),
            tw_variants_rev_phrases: DictMap::new(),
            hk_variants: DictMap::new(),
            hk_variants_rev: DictMap::new(),
            hk_variants_rev_phrases: DictMap::new(),
            jps_characters: DictMap::new(),
            jps_phrases: DictMap::new(),
            jp_variants: DictMap::new(),
            jp_variants_rev: DictMap::new(),
        }
    }
}

} // verus!
