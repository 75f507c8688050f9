use ferrous_opencc::config::{dict_kind, dict_source, BuiltinConfig, DictKind, DictSource};
use ferrous_opencc::error::OpenCCError;

#[test]
fn builtin_names_round_trip() {
    let all = [
        BuiltinConfig::S2t,
        BuiltinConfig::T2s,
        BuiltinConfig::S2tw,
        BuiltinConfig::Tw2s,
        BuiltinConfig::S2hk,
        BuiltinConfig::Hk2s,
        BuiltinConfig::S2twp,
        BuiltinConfig::Tw2sp,
        BuiltinConfig::T2tw,
        BuiltinConfig::Tw2t,
        BuiltinConfig::T2hk,
        BuiltinConfig::Hk2t,
        BuiltinConfig::Jp2t,
        BuiltinConfig::T2jp,
    ];
    for c in all {
        assert_eq!(BuiltinConfig::from_filename(c.to_filename()).unwrap(), c);
    }
    assert_eq!(BuiltinConfig::S2twp.to_filename(), "s2twp.json");
    assert_eq!(BuiltinConfig::from_filename("jp2t.json").unwrap(), BuiltinConfig::Jp2t);
}

#[test]
fn unknown_builtin_name_is_not_found() {
    match BuiltinConfig::from_filename("s2x.json") {
        Err(OpenCCError::ConfigNotFound(name)) => assert_eq!(name, "s2x.json"),
        _ => panic!("expected not found"),
    }
}

#[test]
fn dictionary_kinds() {
    assert_eq!(dict_kind("text").unwrap(), DictKind::Text);
    assert_eq!(dict_kind("ocd2").unwrap(), DictKind::Text);
    assert_eq!(dict_kind("group").unwrap(), DictKind::Group);
    match dict_kind("trie") {
        Err(OpenCCError::UnsupportedDictType(name)) => assert_eq!(name, "trie"),
        _ => panic!("expected unsupported"),
    }
}

#[test]
fn compiled_file_is_used_only_when_fresh() {
    assert_eq!(dict_source(false, Some(1), Some(2)), DictSource::Text);
    assert_eq!(dict_source(true, None, None), DictSource::Compiled);
    assert_eq!(dict_source(true, Some(1), Some(2)), DictSource::Compiled);
    assert_eq!(dict_source(true, Some(2), Some(2)), DictSource::Text);
    assert_eq!(dict_source(true, Some(3), Some(2)), DictSource::Text);
    assert_eq!(dict_source(true, Some(1), None), DictSource::Text);
}
