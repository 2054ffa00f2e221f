use jieba_rs::Jieba;
use opencc_jieba_rs::format_thousand;
use opencc_jieba_rs::DictMap;
use opencc_jieba_rs::Dictionary;
use opencc_jieba_rs::OpenCC;

fn rs_test_dictionary() -> Dictionary {
    let st_characters = DictMap::from_text("龙 龍\n马 馬\n这 這\n");
    let st_phrases = DictMap::from_text("这里 這裏\n");
    let ts_characters = DictMap::from_text(
        "龍 龙\n馬 马\n數 数\n綠 绿\n幾 几\n隻 只\n綿 绵\n絨 绒\n覺 觉\n處 处\n這 这\n裏 里\n裡 里\n",
    );
    let tw_variants = DictMap::from_text("裏 裡\n");
    let jp_variants = DictMap::from_text("舊 旧\n體 体\n廣 広\n國 国\n讀 読\n賣 売\n");
    let jp_variants_rev = DictMap::from_text("広 廣\n国 國\n読 讀\n売 賣\n旧 舊\n体 體\n");
    Dictionary {
        schema_version: 2,
        st_characters,
        st_phrases,
        ts_characters,
        tw_variants,
        jp_variants,
        jp_variants_rev,
        ..Dictionary::default()
    }
}

fn rs_test_opencc() -> OpenCC {
    OpenCC::with_parts(Jieba::new(), rs_test_dictionary())
}

#[test]
fn opencc_rs_test_zho_check_test() {
    let input = "你好，世界！龙马精神！";
    let expected_output = 2;
    let opencc = rs_test_opencc();
    let actual_output = opencc.zho_check(input);
    assert_eq!(actual_output, expected_output);
}

#[test]
fn opencc_rs_test_s2t_test() {
    let input = "你好，世界！龙马精神！";
    let expected_output = "你好，世界！龍馬精神！";
    let opencc = rs_test_opencc();
    let actual_output = opencc.s2t(input, false);
    assert_eq!(actual_output, expected_output);
}

#[test]
fn opencc_rs_test_t2s_test() {
    let input = "「數大」便是美，碧綠的山坡前幾千隻綿羊，挨成一片的雪絨，是美；";
    let expected_output = "“数大”便是美，碧绿的山坡前几千只绵羊，挨成一片的雪绒，是美；";
    let opencc = rs_test_opencc();
    let actual_output = opencc.t2s(input, true);
    assert_eq!(actual_output, expected_output);
}

#[test]
fn opencc_rs_test_t2jp_test() {
    let input = "舊字體：廣國，讀賣。";
    let expected_output = "旧字体：広国，読売。";
    let opencc = rs_test_opencc();
    let actual_output = opencc.t2jp(input);
    assert_eq!(actual_output, expected_output);
}

#[test]
fn opencc_rs_test_jp2t_test() {
    let input = "広国，読売。";
    let expected_output = "廣國，讀賣。";
    let opencc = rs_test_opencc();
    let actual_output = opencc.jp2t(input);
    assert_eq!(actual_output, expected_output);
}

#[test]
fn opencc_rs_test_s2t_punct_test() {
    let input = "你好，世界！“龙马精神”！";
    let expected_output = "你好，世界！「龍馬精神」！";
    let opencc = rs_test_opencc();
    let actual_output = opencc.s2t(input, true);
    assert_eq!(actual_output, expected_output);
}

#[test]
fn opencc_rs_test_format_thousand_test() {
    let input = 1234567890;
    let expected_output = "1,234,567,890";
    let actual_output = format_thousand(input);
    assert_eq!(actual_output, expected_output);
}

#[test]
fn serialize_to_json_test() {
    let input = "你好，世界！龙马精神！";
    let expected_output = 2;
    let opencc = rs_test_opencc();
    let actual_output = opencc.zho_check(input);
    assert_eq!(actual_output, expected_output);
}
