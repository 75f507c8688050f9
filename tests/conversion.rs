use ferrous_opencc::conversion::ConversionChain;
use ferrous_opencc::dictionary::{DictType, Dictionary};
use ferrous_opencc::fst_dict::FstDict;

fn dict(text: &str) -> DictType {
    DictType::Fst(FstDict::from_text(text).unwrap())
}

fn pass(text: &str, d: &DictType) -> String {
    let chars: Vec<char> = text.chars().collect();
    match ConversionChain::apply_dict(&chars, d) {
        Some(out) => out.into_iter().collect(),
        None => text.to_string(),
    }
}

#[test]
fn test_apply_dict_greedy_replacement() {
    let d = dict("a\tA\nab\tAB\nabc\tABC");

    assert_eq!(pass("abcdef", &d), "ABCdef");
    assert_eq!(pass("abac", &d), "ABAc");
    assert_eq!(pass("zyxw", &d), "zyxw");
}

#[test]
fn test_conversion_chain_with_multiple_dicts() {
    let dict1 = dict("一个\t一個\n项目\t項目");
    let dict2 = dict("一個\t一個\n項目\t專案");
    let chain = ConversionChain::new(vec![dict1, dict2]);

    let result = chain.convert("一个项目");

    assert_eq!(result, "一個專案");
}

#[test]
fn pass_without_substitution_hands_back_nothing() {
    let d = dict("a\tA");
    let chars: Vec<char> = "xyz".chars().collect();
    assert!(ConversionChain::apply_dict(&chars, &d).is_none());
    let chars: Vec<char> = "xaz".chars().collect();
    let out: String = ConversionChain::apply_dict(&chars, &d).unwrap().into_iter().collect();
    assert_eq!(out, "xAz");
}

#[test]
fn pass_counts_a_replacement_equal_to_its_key() {
    let d = dict("a\ta");
    let chars: Vec<char> = "bab".chars().collect();
    let out: String = ConversionChain::apply_dict(&chars, &d).unwrap().into_iter().collect();
    assert_eq!(out, "bab");
}

#[test]
fn pass_uses_the_first_candidate() {
    let d = dict("后\t後 后");
    assert_eq!(pass("以后", &d), "以後");
}

#[test]
fn later_stage_sees_earlier_output() {
    let general = dict("内\t內");
    let regional = dict("內存\t記憶體");
    let chain = ConversionChain::new(vec![general, regional]);
    assert_eq!(chain.convert("内存"), "記憶體");
}

#[test]
fn empty_chain_and_empty_text() {
    let chain = ConversionChain::new(vec![]);
    assert_eq!(chain.convert("文字"), "文字");
    let chain = ConversionChain::new(vec![dict("a\tA")]);
    assert_eq!(chain.convert(""), "");
}

#[test]
fn converter_reports_its_name() {
    let cc = ferrous_opencc::OpenCC::new("s2t".to_string(), vec![dict("汉\t漢\n字\t字")]);
    assert_eq!(cc.name(), "s2t");
    assert_eq!(cc.convert("汉字"), "漢字");
}

#[test]
fn group_bound_is_the_largest_member_bound() {
    let g = ferrous_opencc::dict_group::DictGroup::new(vec![dict("a\tX"), dict("abc\tY")]);
    assert_eq!(g.max_key_length(), 3);
}
