use jieba_rs::Jieba;
use opencc_jieba_rs::normalize_line_endings;
use opencc_jieba_rs::remove_utf8_bom_str_inplace;
use opencc_jieba_rs::should_remove_bom;
use opencc_jieba_rs::DictMap;
use opencc_jieba_rs::Dictionary;
use opencc_jieba_rs::OpenCC;
use opencc_jieba_rs::OpenccConfig;

const ALL_CONFIGS: [&str; 16] = [
    "s2t", "s2tw", "s2twp", "s2hk", "t2s", "t2tw", "t2twp", "t2hk", "tw2s", "tw2sp", "tw2t",
    "tw2tp", "hk2s", "hk2t", "jp2t", "t2jp",
];

fn prop_dictionary() -> Dictionary {
    let st_characters = DictMap::from_text("龙 龍\n马 馬\n这 這\n");
    let st_phrases = DictMap::from_text("这里 這裏\n");
    let ts_characters = DictMap::from_text("龍 龙\n馬 马\n這 这\n裏 里\n裡 里\n");
    let tw_variants = DictMap::from_text("裏 裡\n");
    let jp_variants = DictMap::from_text("舊 旧\n體 体\n廣 広\n國 国\n讀 読\n賣 売\n");
    let jp_variants_rev = DictMap::from_text("広 廣\n国 國\n読 讀\n売 賣\n旧 舊\n体 體\n");
    Dictionary {
        schema_version: 2,
        st_characters,
        st_phrases,
        ts_characters,
        tw_variants,
        jp_variants,
        jp_variants_rev,
        ..Dictionary::default()
    }
}

fn prop_opencc() -> OpenCC {
    OpenCC::with_parts(Jieba::new(), prop_dictionary())
}

// a small deterministic generator, so the sampled inputs are reproducible
fn pseudo_random_text(seed: u64, len: usize) -> String {
    let alphabet: Vec<char> = "龙马这里舊體廣國讀賣広国数大 ，。！“”「」abcXYZ你好世界雪山"
        .chars()
        .collect();
    let mut state = seed;
    let mut s = String::new();
    for _ in 0..len {
        state = state.wrapping_mul(6364136223846793005).wrapping_add(1442695040888963407);
        let idx = ((state >> 33) as usize) % alphabet.len();
        s.push(alphabet[idx]);
    }
    s
}

#[test]
fn output_length_bounded_test() {
    let opencc = prop_opencc();
    for seed in 1..=4u64 {
        for &len in &[0usize, 1, 13, 120, 700] {
            let input = pseudo_random_text(seed, len);
            let in_chars = input.chars().count();
            for config in ALL_CONFIGS.iter() {
                for &punct in &[false, true] {
                    let out = opencc.convert(&input, config, punct);
                    assert!(out.chars().count() <= 4 * in_chars + 4);
                }
            }
        }
    }
}

#[test]
fn unmapped_text_identity_test() {
    // none of these characters is a dictionary key or a delimiter
    let input = "喵嗷汪呜咕嘟";
    let opencc = prop_opencc();
    for config in ALL_CONFIGS.iter() {
        assert_eq!(opencc.convert(input, config, false), input);
        assert_eq!(opencc.convert(input, config, true), input);
    }
}

#[test]
fn delimiters_kept_verbatim_test() {
    let input = "龍馬，；！龍？";
    let opencc = prop_opencc();
    for config in &["t2tw", "t2hk", "tw2t", "hk2t", "t2jp", "jp2t", "t2twp", "tw2tp"] {
        let out = opencc.convert(input, config, false);
        let in_delims: String = input.chars().filter(|c| "，；！？".contains(*c)).collect();
        let out_delims: String = out.chars().filter(|c| "，；！？".contains(*c)).collect();
        assert_eq!(in_delims, out_delims);
    }
}

#[test]
fn conversion_deterministic_test() {
    let input = "你好，这里世界！龙马精神！“数大”便是美。";
    let a = prop_opencc();
    let b = prop_opencc();
    for config in ALL_CONFIGS.iter() {
        let first = a.convert(input, config, true);
        let again = a.convert(input, config, true);
        let other = b.convert(input, config, true);
        assert_eq!(first, again);
        assert_eq!(first, other);
    }
}

#[test]
fn phrase_beats_characters_test() {
    // the phrase table maps the whole token one way, the character table
    // maps its characters another; the phrase mapping must win
    let st_phrases = DictMap::from_text("这里 這裏\n");
    let st_characters = DictMap::from_text("这 乱\n里 错\n龙 龍\n");
    let dictionary = Dictionary {
        schema_version: 2,
        st_phrases,
        st_characters,
        ..Dictionary::default()
    };
    let opencc = OpenCC::with_parts(Jieba::new(), dictionary);
    assert_eq!(opencc.s2t("这里", false), "這裏");
}

#[test]
fn s2t_t2s_round_trip_fixed_point_test() {
    let opencc = prop_opencc();
    let input = "你好，世界！龙马精神！“这里”！";
    let round1 = opencc.t2s(&opencc.s2t(input, true), true);
    let round2 = opencc.t2s(&opencc.s2t(&round1, true), true);
    let round3 = opencc.t2s(&opencc.s2t(&round2, true), true);
    assert_eq!(round2, round3);
}

#[test]
fn jp_round_trip_fixed_point_test() {
    let opencc = prop_opencc();
    let input = "舊字體：廣國，讀賣。";
    let once = opencc.jp2t(&opencc.t2jp(input));
    let twice = opencc.jp2t(&opencc.t2jp(&once));
    assert_eq!(once, twice);
}

#[test]
fn from_ffi_test() {
    assert_eq!(OpenccConfig::from_ffi(1), Some(OpenccConfig::S2t));
    assert_eq!(OpenccConfig::from_ffi(2), Some(OpenccConfig::S2tw));
    assert_eq!(OpenccConfig::from_ffi(3), Some(OpenccConfig::S2twp));
    assert_eq!(OpenccConfig::from_ffi(4), Some(OpenccConfig::S2hk));
    assert_eq!(OpenccConfig::from_ffi(5), Some(OpenccConfig::T2s));
    assert_eq!(OpenccConfig::from_ffi(6), Some(OpenccConfig::T2tw));
    assert_eq!(OpenccConfig::from_ffi(7), Some(OpenccConfig::T2twp));
    assert_eq!(OpenccConfig::from_ffi(8), Some(OpenccConfig::T2hk));
    assert_eq!(OpenccConfig::from_ffi(9), Some(OpenccConfig::Tw2s));
    assert_eq!(OpenccConfig::from_ffi(10), Some(OpenccConfig::Tw2sp));
    assert_eq!(OpenccConfig::from_ffi(11), Some(OpenccConfig::Tw2t));
    assert_eq!(OpenccConfig::from_ffi(12), Some(OpenccConfig::Tw2tp));
    assert_eq!(OpenccConfig::from_ffi(13), Some(OpenccConfig::Hk2s));
    assert_eq!(OpenccConfig::from_ffi(14), Some(OpenccConfig::Hk2t));
    assert_eq!(OpenccConfig::from_ffi(15), Some(OpenccConfig::Jp2t));
    assert_eq!(OpenccConfig::from_ffi(16), Some(OpenccConfig::T2jp));
    assert_eq!(OpenccConfig::from_ffi(0), None);
    assert_eq!(OpenccConfig::from_ffi(999), None);
}

#[test]
fn unicode_config_folding_test() {
    let opencc = prop_opencc();
    // the Kelvin sign lowercases to `k` under Unicode case folding, so
    // this name must route the hk2s conversion, not the error payload
    let kelvin_config = "h\u{212a}2s";
    assert_eq!(opencc.convert("龍馬", kelvin_config, false), "龙马");
    assert_eq!(opencc.convert("龍馬", "HK2S", false), "龙马");
    assert_eq!(opencc.convert("龍馬", "hk2s", false), "龙马");
    assert_eq!(opencc.convert("x", "zzz", false), "Invalid config: zzz");
}

#[test]
fn t2s_punct_test() {
    let opencc = prop_opencc();
    assert_eq!(opencc.t2s("「龍馬」", true), "“龙马”");
    assert_eq!(opencc.t2s("「龍馬」", false), "「龙马」");
}

#[test]
fn normalize_line_endings_test() {
    assert_eq!(normalize_line_endings("a\r\nb\rc\nd"), "a\nb\nc\nd");
    assert_eq!(normalize_line_endings("\r\r\n"), "\n\n");
    assert_eq!(normalize_line_endings(""), "");
}

#[test]
fn should_remove_bom_test() {
    assert!(should_remove_bom("UTF-8", "GBK"));
    assert!(should_remove_bom("utf-8", "BIG5"));
    assert!(!should_remove_bom("UTF-8", "utf-8"));
    assert!(!should_remove_bom("GBK", "BIG5"));
}

#[test]
fn remove_utf8_bom_test() {
    let mut s = "\u{feff}hello".to_string();
    remove_utf8_bom_str_inplace(&mut s);
    assert_eq!(s, "hello");
    let mut t = "hello".to_string();
    remove_utf8_bom_str_inplace(&mut t);
    assert_eq!(t, "hello");
}

#[test]
fn format_thousand_edge_test() {
    assert_eq!(opencc_jieba_rs::format_thousand(0), "0");
    assert_eq!(opencc_jieba_rs::format_thousand(999), "999");
    assert_eq!(opencc_jieba_rs::format_thousand(1000), "1,000");
    assert_eq!(opencc_jieba_rs::format_thousand(12), "12");
}
