use ferrous_opencc::dictionary::DictType;
use ferrous_opencc::error::OpenCCError;
use ferrous_opencc::fst_dict::FstDict;
use ferrous_opencc::segmentation::{MaxMatchSegmentation, Segmentation, SegmentationType};

fn dict(text: &str) -> DictType {
    DictType::Fst(FstDict::from_text(text).unwrap())
}

#[test]
fn test_max_match_segmentation() {
    let segmenter = MaxMatchSegmentation::new(dict("一个\t一個\n丑恶\t醜惡\n的\t的\n汉字\t漢字"));

    let text1 = "一个丑恶的汉字";
    let segments1 = segmenter.segment(text1);
    assert_eq!(segments1, vec!["一个", "丑恶", "的", "汉字"]);

    let text2 = "一个人的汉字";
    let segments2 = segmenter.segment(text2);
    assert_eq!(segments2, vec!["一个", "人", "的", "汉字"]);

    let segmenter2 = MaxMatchSegmentation::new(dict("中国\t中國\n中国人\t中國人"));

    let text3 = "我是中国人";
    let segments3 = segmenter2.segment(text3);
    assert_eq!(segments3, vec!["我", "是", "中国人"]);

    let text4 = "";
    let segments4 = segmenter.segment(text4);
    assert_eq!(segments4, Vec::<String>::new());
}

#[test]
fn segmentation_type_accepts_its_names() {
    for name in ["mm", "mmseg"] {
        let t = SegmentationType::from_config(name, dict("ab\tAB")).unwrap();
        let seg = t.into_segmenter();
        assert_eq!(seg.segment("abc"), vec!["ab", "c"]);
    }
    let t = SegmentationType::from_config_embedded("mm", dict("ab\tAB")).unwrap();
    assert_eq!(t.into_segmenter().segment("cab"), vec!["c", "ab"]);
}

#[test]
fn segmentation_type_refuses_other_names() {
    match SegmentationType::from_config("jieba", dict("ab\tAB")) {
        Err(OpenCCError::InvalidConfig(msg)) => assert_eq!(msg, "Unsupported segmentation type: jieba"),
        _ => panic!("expected an invalid configuration"),
    }
    assert!(SegmentationType::from_config_embedded("MM", dict("ab\tAB")).is_err());
}
