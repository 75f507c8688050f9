use ferrous_opencc::compiler::compile_dictionary;
use ferrous_opencc::delta::{compute_delta, decode_delta, Delta};
use ferrous_opencc::dict_group::DictGroup;
use ferrous_opencc::dictionary::{DictType, Dictionary};
use ferrous_opencc::error::OpenCCError;
use ferrous_opencc::fst_dict::FstDict;

fn fst(text: &str) -> DictType {
    DictType::Fst(FstDict::from_text(text).unwrap())
}

fn found(d: &dyn Dictionary, word: &str) -> Option<(String, Vec<String>)> {
    d.match_prefix(word)
}

fn expect(d: &dyn Dictionary, word: &str, key: &str, values: &[&str]) {
    let (k, v) = found(d, word).unwrap();
    assert_eq!(k, key);
    let v: Vec<&str> = v.iter().map(|s| s.as_str()).collect();
    assert_eq!(v, values);
}

#[test]
fn test_from_text_and_match_prefix() {
    let dict_content = "一\t一\n一个\t一個\n一个半\t一個半\n世纪\t世紀";
    let dict = FstDict::from_text(&format!("{dict_content}\n")).unwrap();

    expect(&dict, "一个", "一个", &["一個"]);
    expect(&dict, "一个半小时", "一个半", &["一個半"]);
    expect(&dict, "世纪之交", "世纪", &["世紀"]);
    expect(&dict, "一", "一", &["一"]);
    expect(&dict, "一", "一", &["一"]);
}

#[test]
fn test_serialization_and_deserialization() {
    let dict_content = "你好\tHello\n世界\tWorld";
    let dict_from_text = FstDict::from_text(&format!("{dict_content}\n")).unwrap();
    let ocb = dict_from_text.to_ocb_bytes().unwrap();

    assert!(!ocb.is_empty());

    let dict_from_ocb = FstDict::from_ocb_bytes(&ocb).unwrap();

    expect(&dict_from_ocb, "你好世界", "你好", &["Hello"]);
    expect(&dict_from_ocb, "你好世界", "你好", &["Hello"]);
}

#[test]
fn no_key_prefixes_the_word() {
    let dict = FstDict::from_text("一个\t一個").unwrap();
    assert!(found(&dict, "个").is_none());
    assert!(found(&dict, "一").is_none());
    assert!(found(&dict, "").is_none());
}

#[test]
fn longer_key_wins_over_shorter_one() {
    let dict = FstDict::from_text("中国\t中國\n中国人\t中國人").unwrap();
    expect(&dict, "中国人民", "中国人", &["中國人"]);
    expect(&dict, "中国话", "中国", &["中國"]);
}

#[test]
fn multiple_candidates_keep_their_order() {
    let dict = FstDict::from_text("干\t幹 乾 干").unwrap();
    expect(&dict, "干活", "干", &["幹", "乾", "干"]);
}

#[test]
fn max_key_length_counts_characters() {
    let dict = FstDict::from_text("一\t一\n一个半\t一個半\nab\tcd").unwrap();
    assert_eq!(dict.max_key_length(), 3);
    let empty = FstDict::from_text("").unwrap();
    assert_eq!(empty.max_key_length(), 0);
}

#[test]
fn compiler_skips_malformed_lines() {
    let dict = FstDict::from_text("一\t一\n一个").unwrap();
    expect(&dict, "一个", "一", &["一"]);
    assert_eq!(dict.max_key_length(), 1);
}

#[test]
fn compiler_skips_comments_blanks_and_bad_fields() {
    let text = "# 注释\t注釋\n   \n  # indented\tx\n\tX\nk\t\nk2\ta  b\nk3\ta\tb\nok\tOK\r\nz\tZ";
    let dict = FstDict::from_text(text).unwrap();
    assert!(found(&dict, "# 注释").is_none());
    assert!(found(&dict, "  # indented").is_none());
    assert!(found(&dict, "k").is_none());
    assert!(found(&dict, "k2").is_none());
    assert!(found(&dict, "k3").is_none());
    expect(&dict, "ok", "ok", &["OK"]);
    expect(&dict, "z", "z", &["Z"]);
}

#[test]
fn later_definition_of_a_key_wins() {
    let dict = FstDict::from_text("b\tfirst\na\tA\nb\tsecond").unwrap();
    expect(&dict, "b", "b", &["second"]);
    expect(&dict, "a", "a", &["A"]);
}

#[test]
fn unsorted_keys_are_ordered_by_bytes() {
    let dict = FstDict::from_text("zz\t1\n中\t2\naa\t3\nz\t4\né\t5").unwrap();
    expect(&dict, "zzz", "zz", &["1"]);
    expect(&dict, "中文", "中", &["2"]);
    expect(&dict, "aa", "aa", &["3"]);
    expect(&dict, "zy", "z", &["4"]);
    expect(&dict, "été", "é", &["5"]);
}

#[test]
fn group_prefers_the_longest_match() {
    let g = DictGroup::new(vec![
        fst("a\tX"),
        fst("ab\tY"),
    ]);
    expect(&g, "abc", "ab", &["Y"]);
    let g = DictGroup::new(vec![
        fst("ab\tY"),
        fst("a\tX"),
    ]);
    expect(&g, "abc", "ab", &["Y"]);
}

#[test]
fn group_keeps_the_first_of_equal_lengths() {
    let g = DictGroup::new(vec![
        fst("ab\tFIRST"),
        fst("ab\tSECOND"),
    ]);
    expect(&g, "abc", "ab", &["FIRST"]);
    let empty = DictGroup::new(vec![]);
    assert!(found(&empty, "abc").is_none());
    assert_eq!(empty.max_key_length(), 0);
}

#[test]
fn dict_type_dispatches() {
    let d = DictType::Group(DictGroup::new(vec![fst("a\tX")]));
    expect(&d, "ab", "a", &["X"]);
    assert_eq!(d.max_key_length(), 1);
}

#[test]
fn delta_keeps_differences_when_they_pay_off() {
    let d = compute_delta("一二三", "一二四");
    assert_eq!(d, Delta::CharDiffs(vec![(2, '四')]));
    let key: Vec<char> = "一二三".chars().collect();
    assert_eq!(decode_delta(&key, &d), "一二四");
}

#[test]
fn delta_stores_value_in_full_otherwise() {
    assert_eq!(compute_delta("abc", "abd"), Delta::FullReplacement("abd".to_string()));
    assert_eq!(compute_delta("一", "一個"), Delta::FullReplacement("一個".to_string()));
    let key: Vec<char> = "abc".chars().collect();
    assert_eq!(decode_delta(&key, &compute_delta("abc", "abd")), "abd");
}

#[test]
fn delta_of_identical_strings_is_empty() {
    let d = compute_delta("世紀", "世紀");
    assert_eq!(d, Delta::CharDiffs(vec![]));
    let key: Vec<char> = "世紀".chars().collect();
    assert_eq!(decode_delta(&key, &d), "世紀");
}

#[test]
fn compiled_bytes_reload_with_the_same_matches() {
    let text = "一\t一\n一个\t一個\n一个半\t一個半 一個半個\n世纪\t世紀";
    let bytes = compile_dictionary(text).unwrap();
    let reloaded = FstDict::from_ocb_bytes(&bytes).unwrap();
    let direct = FstDict::from_text(text).unwrap();
    for w in ["一个半小时", "世纪之交", "一", "二", "一个"] {
        assert_eq!(found(&reloaded, w), found(&direct, w));
    }
    assert_eq!(reloaded.max_key_length(), 3);
}

#[test]
fn layout_starts_with_the_metadata_length() {
    let bytes = compile_dictionary("a\tb").unwrap();
    let mut len = [0u8; 8];
    len.copy_from_slice(&bytes[..8]);
    let meta_len = u64::from_le_bytes(len) as usize;
    assert!(8 + meta_len < bytes.len());
}

#[test]
fn short_bytes_are_refused() {
    assert!(matches!(FstDict::from_ocb_bytes(&[1, 2, 3]), Err(OpenCCError::Truncated)));
    let mut bytes = 100u64.to_le_bytes().to_vec();
    bytes.extend_from_slice(&[0; 10]);
    assert!(matches!(FstDict::from_ocb_bytes(&bytes), Err(OpenCCError::Truncated)));
}

#[test]
fn corrupt_metadata_is_refused() {
    let mut bytes = 3u64.to_le_bytes().to_vec();
    bytes.extend_from_slice(&[0xff, 0xff, 0xff]);
    bytes.extend_from_slice(&[0; 40]);
    assert!(matches!(FstDict::from_ocb_bytes(&bytes), Err(OpenCCError::BincodeDecode(_))));
}

#[test]
fn corrupt_compressed_table_is_refused() {
    let bytes = compile_dictionary("a\tb").unwrap();
    let mut len = [0u8; 8];
    len.copy_from_slice(&bytes[..8]);
    let meta_len = u64::from_le_bytes(len) as usize;
    let mut broken = bytes.clone();
    // the compressed table starts after its one-byte length within the metadata
    for b in broken[10..8 + meta_len - 1].iter_mut() {
        *b = 0;
    }
    assert!(matches!(FstDict::from_ocb_bytes(&broken), Err(OpenCCError::Io(_))));
}

#[test]
fn corrupt_automaton_is_refused() {
    let bytes = compile_dictionary("a\tb").unwrap();
    let mut len = [0u8; 8];
    len.copy_from_slice(&bytes[..8]);
    let meta_len = u64::from_le_bytes(len) as usize;
    let mut broken = bytes[..8 + meta_len].to_vec();
    broken.extend_from_slice(&[1, 2, 3]);
    assert!(matches!(FstDict::from_ocb_bytes(&broken), Err(OpenCCError::Fst(_))));
}

#[test]
fn nested_groups_match_as_their_members() {
    let inner = DictType::Group(DictGroup::new(vec![fst("ab\tINNER"), fst("abcd\tLONG")]));
    let g = DictGroup::new(vec![fst("ab\tOUTER"), inner, fst("abc\tMID")]);
    expect(&g, "abcde", "abcd", &["LONG"]);
    expect(&g, "abx", "ab", &["OUTER"]);
    expect(&g, "abcx", "abc", &["MID"]);
    assert_eq!(g.max_key_length(), 4);
}

#[test]
fn delta_threshold_is_six_bytes_per_difference() {
    assert_eq!(compute_delta("一二", "一三"), Delta::CharDiffs(vec![(1, '三')]));
    assert_eq!(compute_delta("一二", "三四"), Delta::FullReplacement("三四".to_string()));
    assert_eq!(compute_delta("abcdefgh", "abcdefgX"), Delta::CharDiffs(vec![(7, 'X')]));
    assert_eq!(compute_delta("abcde", "abcdX"), Delta::FullReplacement("abcdX".to_string()));
}

#[test]
fn delta_of_a_very_long_key_is_stored_in_full() {
    let key = "a".repeat(70000);
    let mut value = key.clone();
    value.replace_range(69999..70000, "b");
    assert_eq!(compute_delta(&key, &value), Delta::FullReplacement(value.clone()));
}

#[test]
fn huge_declared_length_is_refused_without_allocating() {
    let meta = [253u8, 0xff, 0xff, 0xff, 0xff, 0xff, 0xff, 0xff, 0x7f, 0];
    let mut bytes = (meta.len() as u64).to_le_bytes().to_vec();
    bytes.extend_from_slice(&meta);
    bytes.extend_from_slice(&[0; 40]);
    assert!(matches!(FstDict::from_ocb_bytes(&bytes), Err(OpenCCError::BincodeDecode(_))));
}

#[test]
fn compiling_always_succeeds() {
    assert!(compile_dictionary("").is_ok());
    assert!(compile_dictionary("\t\t\n#\n \n").is_ok());
    let bytes = compile_dictionary("一\t一\n一个").unwrap();
    let d = FstDict::from_ocb_bytes(&bytes).unwrap();
    expect(&d, "一个", "一", &["一"]);
    assert_eq!(d.max_key_length(), 1);
}

#[test]
fn keys_are_numbered_in_byte_order() {
    let bytes = compile_dictionary("中\tZ\nb\tB\na\tA\nb\tB2").unwrap();
    let mut len = [0u8; 8];
    len.copy_from_slice(&bytes[..8]);
    let meta_len = u64::from_le_bytes(len) as usize;
    let map = fst::Map::new(bytes[8 + meta_len..].to_vec()).unwrap();
    assert_eq!(map.len(), 3);
    assert_eq!(map.get("a"), Some(0));
    assert_eq!(map.get("b"), Some(1));
    assert_eq!(map.get("中"), Some(2));
}
