//! The built-in conversion configurations and the decisions taken while
//! loading dictionaries.

use crate::error::OpenCCError;
use crate::text::same_text;
use vstd::prelude::*;

verus! {

/// The built-in configurations.
#[derive(Debug, Clone, Copy, PartialEq, Eq, Structural)]
pub enum BuiltinConfig {
    /// Simplified to Traditional Chinese.
    S2t,
    /// Traditional to Simplified Chinese.
    T2s,
    /// Simplified to Taiwan standard.
    S2tw,
    /// Taiwan standard to Simplified.
    Tw2s,
    /// Simplified to Hong Kong variant.
    S2hk,
    /// Hong Kong variant to Simplified.
    Hk2s,
    /// Simplified to Taiwan standard, with Taiwanese phrases.
    S2twp,
    /// Taiwan standard, with Taiwanese phrases, to Simplified.
    Tw2sp,
    /// Traditional to Taiwan standard.
    T2tw,
    /// Taiwan standard to Traditional.
    Tw2t,
    /// Traditional to Hong Kong variant.
    T2hk,
    /// Hong Kong variant to Traditional.
    Hk2t,
    /// Japanese Shinjitai to Traditional.
    Jp2t,
    /// Traditional to Japanese Shinjitai.
    T2jp,
}

impl BuiltinConfig {
    /// The name of the configuration file.
    pub open spec fn spec_filename(self) -> Seq<char> {
        match self {
            BuiltinConfig::S2t => "s2t.json"@,
            BuiltinConfig::T2s => "t2s.json"@,
            BuiltinConfig::S2tw => "s2tw.json"@,
            BuiltinConfig::Tw2s => "tw2s.json"@,
            BuiltinConfig::S2hk => "s2hk.json"@,
            BuiltinConfig::Hk2s => "hk2s.json"@,
            BuiltinConfig::S2twp => "s2twp.json"@,
            BuiltinConfig::Tw2sp => "tw2sp.json"@,
            BuiltinConfig::T2tw => "t2tw.json"@,
            BuiltinConfig::Tw2t => "tw2t.json"@,
            BuiltinConfig::T2hk => "t2hk.json"@,
            BuiltinConfig::Hk2t => "hk2t.json"@,
            BuiltinConfig::Jp2t => "jp2t.json"@,
            BuiltinConfig::T2jp => "t2jp.json"@,
        }
    }

    /// The name of the configuration file.
    pub fn to_filename(&self) -> (r: &'static str)
        ensures
            r@ == self.spec_filename(),
    {
        match self {
            BuiltinConfig::S2t => "s2t.json",
            BuiltinConfig::T2s => "t2s.json",
            BuiltinConfig::S2tw => "s2tw.json",
            BuiltinConfig::Tw2s => "tw2s.json",
            BuiltinConfig::S2hk => "s2hk.json",
            BuiltinConfig::Hk2s => "hk2s.json",
            BuiltinConfig::S2twp => "s2twp.json",
            BuiltinConfig::Tw2sp => "tw2sp.json",
            BuiltinConfig::T2tw => "t2tw.json",
            BuiltinConfig::Tw2t => "tw2t.json",
            BuiltinConfig::T2hk => "t2hk.json",
            BuiltinConfig::Hk2t => "hk2t.json",
            BuiltinConfig::Jp2t => "jp2t.json",
            BuiltinConfig::T2jp => "t2jp.json",
        }
    }

    /// The configuration whose file is named `filename`; any other name
    /// is not found.
    pub fn from_filename(filename: &str) -> (r: Result<Self, OpenCCError>)
        ensures
            match r {
                Ok(c) => c.spec_filename() == filename@,
                Err(e) => (e matches OpenCCError::ConfigNotFound(name) && name@ == filename@) && forall|c: BuiltinConfig|
                    #[trigger] c.spec_filename() != filename@,
            },
    {
        let all = [
            BuiltinConfig::S2t,
            BuiltinConfig::T2s,
            BuiltinConfig::S2tw,
            BuiltinConfig::Tw2s,
            BuiltinConfig::S2hk,
            BuiltinConfig::Hk2s,
            BuiltinConfig::S2twp,
            BuiltinConfig::Tw2sp,
            BuiltinConfig::T2tw,
            BuiltinConfig::Tw2t,
            BuiltinConfig::T2hk,
            BuiltinConfig::Hk2t,
            BuiltinConfig::Jp2t,
            BuiltinConfig::T2jp,
        ];
        let mut i: usize = 0;
        while i < 14
            invariant
                all@.len() == 14,
                all@ == seq![
                    BuiltinConfig::S2t,
                    BuiltinConfig::T2s,
                    BuiltinConfig::S2tw,
                    BuiltinConfig::Tw2s,
                    BuiltinConfig::S2hk,
                    BuiltinConfig::Hk2s,
                    BuiltinConfig::S2twp,
                    BuiltinConfig::Tw2sp,
                    BuiltinConfig::T2tw,
                    BuiltinConfig::Tw2t,
                    BuiltinConfig::T2hk,
                    BuiltinConfig::Hk2t,
                    BuiltinConfig::Jp2t,
                    BuiltinConfig::T2jp,
                ],
                i <= 14,
                forall|j: int| 0 <= j < i ==> (#[trigger] all@[j]).spec_filename() != filename@,
            decreases 14 - i,
        {
            let c = all[i];
            if same_text(c.to_filename(), filename) {
                return Ok(c);
            }
            i += 1;
        }
        assert forall|c: BuiltinConfig| #[trigger] c.spec_filename() != filename@ by {
            match c {
                BuiltinConfig::S2t => assert(all@[0] == c),
                BuiltinConfig::T2s => assert(all@[1] == c),
                BuiltinConfig::S2tw => assert(all@[2] == c),
                BuiltinConfig::Tw2s => assert(all@[3] == c),
                BuiltinConfig::S2hk => assert(all@[4] == c),
                BuiltinConfig::Hk2s => assert(all@[5] == c),
                BuiltinConfig::S2twp => assert(all@[6] == c),
                BuiltinConfig::Tw2sp => assert(all@[7] == c),
                BuiltinConfig::T2tw => assert(all@[8] == c),
                BuiltinConfig::Tw2t => assert(all@[9] == c),
                BuiltinConfig::T2hk => assert(all@[10] == c),
                BuiltinConfig::Hk2t => assert(all@[11] == c),
                BuiltinConfig::Jp2t => assert(all@[12] == c),
                BuiltinConfig::T2jp => assert(all@[13] == c),
            }
        }
        Err(OpenCCError::ConfigNotFound(String::from_str(filename)))
    }
}

/// The kinds of dictionary a configuration entry can name.
#[derive(Debug, Clone, Copy, PartialEq, Eq, Structural)]
pub enum DictKind {
    /// A dictionary compiled from one text file (`"text"` or `"ocd2"`).
    Text,
    /// A group of the entries listed under it (`"group"`).
    Group,
}

/// The kind of dictionary that `dict_type` names; any other name is
/// unsupported.
pub fn dict_kind(dict_type: &str) -> (r: Result<DictKind, OpenCCError>)
    ensures
        (dict_type@ == "text"@ || dict_type@ == "ocd2"@) ==> r == Ok::<DictKind, OpenCCError>(DictKind::Text),
        dict_type@ == "group"@ ==> r == Ok::<DictKind, OpenCCError>(DictKind::Group),
        !(dict_type@ == "text"@ || dict_type@ == "ocd2"@ || dict_type@ == "group"@) ==> (r matches Err(
            OpenCCError::UnsupportedDictType(s),
        ) && s@ == dict_type@),
{
    proof {
        reveal_strlit("text");
        reveal_strlit("ocd2");
        reveal_strlit("group");
        assert("group"@ != "text"@ && "group"@ != "ocd2"@) by {
            assert("group"@[0] != "text"@[0] && "group"@[0] != "ocd2"@[0]);
        }
    }
    if same_text(dict_type, "text") || same_text(dict_type, "ocd2") {
        Ok(DictKind::Text)
    } else if same_text(dict_type, "group") {
        Ok(DictKind::Group)
    } else {
        Err(OpenCCError::UnsupportedDictType(String::from_str(dict_type)))
    }
}

/// Where a dictionary named by its text source is read from.
#[derive(Debug, Clone, Copy, PartialEq, Eq, Structural)]
pub enum DictSource {
    /// The compiled file beside the text source.
    Compiled,
    /// The text source, compiled anew.
    Text,
}

/// Chooses between a compiled file and its text source. The compiled file
/// is used when it exists and either the text source's metadata cannot be
/// read or the compiled file was modified later; otherwise the text is
/// compiled. Times are signed, in any one unit from a common origin.
pub fn dict_source(compiled_is_file: bool, text_modified: Option<i128>, compiled_modified: Option<i128>) -> (r: DictSource)
    ensures
        r == (if compiled_is_file && (text_modified is None || (compiled_modified is Some
            && compiled_modified->0 > text_modified->0)) {
            DictSource::Compiled
        } else {
            DictSource::Text
        }),
{
    if !compiled_is_file {
        return DictSource::Text;
    }
    match text_modified {
        None => DictSource::Compiled,
        Some(t) => match compiled_modified {
            Some(c) => if c > t {
                DictSource::Compiled
            } else {
                DictSource::Text
            },
            None => DictSource::Text,
        },
    }
}

} // verus!
