use jieba_rs::Jieba;
use opencc_jieba_rs::DictMap;
use opencc_jieba_rs::Dictionary;
use opencc_jieba_rs::OpenCC;
use std::io::BufReader;
use std::io::Cursor;

fn test_dictionary() -> Dictionary {
    let st_characters = DictMap::from_text("龙 龍\n马 馬\n这 這\n");
    let st_phrases = DictMap::from_text("这里 這裏\n");
    let ts_characters = DictMap::from_text(
        "龍 龙\n馬 马\n數 数\n綠 绿\n幾 几\n隻 只\n綿 绵\n絨 绒\n覺 觉\n處 处\n這 这\n裏 里\n裡 里\n",
    );
    let tw_variants = DictMap::from_text("裏 裡\n");
    let jp_variants = DictMap::from_text("舊 旧\n體 体\n廣 広\n國 国\n讀 読\n賣 売\n");
    let jp_variants_rev = DictMap::from_text("広 廣\n国 國\n読 讀\n売 賣\n旧 舊\n体 體\n");
    Dictionary {
        schema_version: 2,
        st_characters,
        st_phrases,
        ts_characters,
        tw_variants,
        jp_variants,
        jp_variants_rev,
        ..Dictionary::default()
    }
}

fn test_opencc() -> OpenCC {
    OpenCC::with_parts(Jieba::new(), test_dictionary())
}

fn traditional_jieba() -> Jieba {
    let dict = "數大 1000 n\n便是 1000 d\n美 500 a\n碧綠 1000 a\n的 800 uj\n山坡 1000 n\n\
                前 500 f\n幾千隻 1000 m\n綿羊 1000 n\n挨成 1000 v\n一片 1000 m\n雪絨 1000 n\n\
                是 500 v\n";
    Jieba::with_dict(&mut BufReader::new(Cursor::new(dict))).unwrap()
}

#[test]
fn zho_check_test() {
    let input = "你好，世界！龙马精神！";
    let expected_output = 2;
    let opencc = test_opencc();
    let actual_output = opencc.zho_check(input);
    assert_eq!(actual_output, expected_output);
}

#[test]
fn s2t_test() {
    let input = "你好，世界！龙马精神！";
    let expected_output = "你好，世界！龍馬精神！";
    let opencc = test_opencc();
    let actual_output = opencc.s2t(input, false);
    assert_eq!(actual_output, expected_output);
}

#[test]
fn s2tw_test() {
    let input = "你好，这里世界！龙马精神！";
    let expected_output = "你好，這裡世界！龍馬精神！";
    let opencc = test_opencc();
    let actual_output = opencc.s2tw(input, false);
    assert_eq!(actual_output, expected_output);
}

#[test]
fn t2s_test() {
    let input = "「數大」便是美，碧綠的山坡前幾千隻綿羊，挨成一片的雪絨，是美；";
    let expected_output = "“数大”便是美，碧绿的山坡前几千只绵羊，挨成一片的雪绒，是美；";
    let opencc = test_opencc();
    let actual_output = opencc.t2s(input, true);
    assert_eq!(actual_output, expected_output);
}

#[test]
fn t2jp_test() {
    let input = "舊字體：廣國，讀賣。";
    let expected_output = "旧字体：広国，読売。";
    let opencc = test_opencc();
    let actual_output = opencc.t2jp(input);
    assert_eq!(actual_output, expected_output);
}

#[test]
fn jp2t_test() {
    let input = "広国，読売。";
    let expected_output = "廣國，讀賣。";
    let opencc = test_opencc();
    let actual_output = opencc.jp2t(input);
    assert_eq!(actual_output, expected_output);
}

#[test]
fn test_jieba_cut() {
    let input = "「數大」便是美，碧綠的山坡前幾千隻綿羊，挨成一片的雪絨，是美；";
    let expected_output = "「/ 數大/ 」/ 便是/ 美/ ，/ 碧綠/ 的/ 山坡/ 前/ 幾千隻/ 綿羊/ ，/ 挨成/ 一片/ 的/ 雪絨/ ，/ 是/ 美/ ；";
    let opencc = OpenCC::with_parts(traditional_jieba(), test_dictionary());
    let actual_output = opencc.jieba.cut(input, true).join("/ ");
    println!("{}", actual_output);
    assert_eq!(actual_output, expected_output);
}

#[test]
fn s2t_punct_test() {
    let input = "你好，世界！“龙马精神”！";
    let expected_output = "你好，世界！「龍馬精神」！";
    let opencc = test_opencc();
    let actual_output = opencc.s2t(input, true);
    assert_eq!(actual_output, expected_output);
}

#[test]
fn format_thousand_test() {
    let input = 1234567890;
    let expected_output = "1,234,567,890";
    let actual_output = opencc_jieba_rs::format_thousand(input);
    assert_eq!(actual_output, expected_output);
}

#[test]
fn test_zho_check() {
    let input = "你好，世界！龙马精神！";
    let expected_output = 2;
    let opencc = test_opencc();
    let actual_output = opencc.zho_check(input);
    assert_eq!(actual_output, expected_output);
}

#[test]
fn zho_check_traditional_test() {
    let opencc = test_opencc();
    assert_eq!(opencc.zho_check("「春眠不覺曉，處處聞啼鳥。」"), 1);
}

#[test]
fn zho_check_other_test() {
    let opencc = test_opencc();
    assert_eq!(opencc.zho_check("Hello World!"), 0);
}

#[test]
fn zho_check_empty_test() {
    let opencc = test_opencc();
    assert_eq!(opencc.zho_check(""), 0);
}

#[test]
fn convert_invalid_config_test() {
    let opencc = test_opencc();
    assert_eq!(opencc.convert("…", "unknown", true), "Invalid config: unknown");
}

#[test]
fn convert_case_insensitive_test() {
    let opencc = test_opencc();
    assert_eq!(opencc.convert("龙马精神", "S2T", false), "龍馬精神");
    assert_eq!(opencc.convert("龙马精神", "s2t", false), "龍馬精神");
}

#[test]
fn jieba_cut_and_join_test() {
    let opencc = test_opencc();
    let joined = opencc.jieba_cut_and_join("你好，世界！", true, "/ ");
    assert_eq!(joined, "你好/ ，/ 世界/ ！");
}

#[test]
fn jieba_cut_test() {
    let opencc = test_opencc();
    let tokens = opencc.jieba_cut("南京市长江大桥", true);
    assert!(tokens.contains(&"南京市".to_string()));
}

#[test]
fn test_keyword_extract_textrank() {
    let input = "自然语言处理是人工智能的重要方向，\r\n机器学习和深度学习推动了自然语言处理的发展。\n\
                 分词是中文自然语言处理的基础，关键词提取帮助理解文本的主题。";
    let opencc = test_opencc();
    let output = opencc.keyword_extract_textrank(input, 10);
    println!("TextRank: {:?}", output);
    assert!(output.len() <= 10);
    for kw in &output {
        assert!(!kw.contains('\n') && !kw.contains('\r'));
        assert!(kw.chars().count() < input.chars().count());
    }
}

#[test]
fn test_keyword_extract_tfidf() {
    let input = "自然语言处理是人工智能的重要方向，\r\n机器学习和深度学习推动了自然语言处理的发展。\n\
                 分词是中文自然语言处理的基础，关键词提取帮助理解文本的主题。";
    let opencc = test_opencc();
    let output = opencc.keyword_extract_tfidf(input, 10);
    println!("TF-IDF: {:?}", output);
    assert!(output.len() <= 10);
    for kw in &output {
        assert!(!kw.contains('\n') && !kw.contains('\r'));
        assert!(kw.chars().count() < input.chars().count());
    }
}
