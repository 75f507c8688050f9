//! Splitting text into words by forward maximum matching.

use crate::dictionary::{match_len, DictType, Dictionary};
use crate::error::OpenCCError;
use crate::text::{chars_of, same_text, string_of};
use vstd::prelude::*;

verus! {

/// The segments of `t`: at each position the longest key of `d` that starts
/// there, or else the single character there.
pub open spec fn max_match_segments(d: DictType, t: Seq<char>) -> Seq<Seq<char>>
    decreases t.len(),
{
    if t.len() == 0 {
        Seq::empty()
    } else {
        let n = match_len(d.spec_match(t));
        if 0 < n <= t.len() {
            seq![t.take(n as int)] + max_match_segments(d, t.skip(n as int))
        } else {
            seq![t.take(1)] + max_match_segments(d, t.skip(1))
        }
    }
}

/// Splitting text into segments.
pub trait Segmentation {
    /// Whether the segmenter's state is consistent.
    spec fn wf(&self) -> bool;

    /// The segments that `segment` returns for `t`.
    spec fn spec_segments(&self, t: Seq<char>) -> Seq<Seq<char>>;

    /// The segments of `text`, in order.
    fn segment(&self, text: &str) -> (r: Vec<String>)
        requires
            self.wf(),
        ensures
            r@.map_values(|s: String| s@) == self.spec_segments(text@),
    ;
}

/// The kinds of segmenter a configuration can ask for.
pub enum SegmentationType {
    /// Forward maximum matching over a dictionary.
    MaxMatch(DictType),
}

impl SegmentationType {
    /// The segmenter that `seg_type` names, over `dict`: `"mm"` and
    /// `"mmseg"` name forward maximum matching; any other name is an
    /// invalid configuration whose message names it.
    pub fn from_config(seg_type: &str, dict: DictType) -> (r: Result<Self, OpenCCError>)
        ensures
            r is Ok <==> (seg_type@ == "mm"@ || seg_type@ == "mmseg"@),
            r is Ok ==> r->Ok_0 == SegmentationType::MaxMatch(dict),
            r is Err ==> (r->Err_0 matches OpenCCError::InvalidConfig(msg) && msg@
                == "Unsupported segmentation type: "@ + seg_type@),
    {
        if same_text(seg_type, "mm") || same_text(seg_type, "mmseg") {
            Ok(SegmentationType::MaxMatch(dict))
        } else {
            let mut msg = String::from_str("Unsupported segmentation type: ");
            msg.append(seg_type);
            Err(OpenCCError::InvalidConfig(msg))
        }
    }

    /// The segmenter that `seg_type` names, over a dictionary loaded from
    /// bundled data; the names are those of `from_config`.
    pub fn from_config_embedded(seg_type: &str, dict: DictType) -> (r: Result<Self, OpenCCError>)
        ensures
            r is Ok <==> (seg_type@ == "mm"@ || seg_type@ == "mmseg"@),
            r is Ok ==> r->Ok_0 == SegmentationType::MaxMatch(dict),
            r is Err ==> (r->Err_0 matches OpenCCError::InvalidConfig(msg) && msg@
                == "Unsupported segmentation type: "@ + seg_type@),
    {
        Self::from_config(seg_type, dict)
    }

    /// The segmenter of this kind.
    pub fn into_segmenter(self) -> (r: MaxMatchSegmentation)
        ensures
            self matches SegmentationType::MaxMatch(d) && r.dict() == d,
    {
        match self {
            SegmentationType::MaxMatch(d) => MaxMatchSegmentation::new(d),
        }
    }
}

/// A segmenter by forward maximum matching: at each position it takes the
/// longest key of its dictionary, or else a single character.
pub struct MaxMatchSegmentation {
    dict: DictType,
}

impl MaxMatchSegmentation {
    /// The dictionary it matches against.
    pub closed spec fn dict(&self) -> DictType {
        self.dict
    }

    /// A segmenter over `dict`.
    pub fn new(dict: DictType) -> (r: Self)
        ensures
            r.dict() == dict,
    {
        MaxMatchSegmentation { dict }
    }
}

impl Segmentation for MaxMatchSegmentation {
    closed spec fn wf(&self) -> bool {
        self.dict.wf()
    }

    open spec fn spec_segments(&self, t: Seq<char>) -> Seq<Seq<char>> {
        max_match_segments(self.dict(), t)
    }

    fn segment(&self, text: &str) -> (r: Vec<String>) {
        let chars = chars_of(text);
        let mut segments: Vec<String> = Vec::new();
        let mut start: usize = 0;
        assert(chars@.skip(0) =~= chars@);
        assert(segments@.map_values(|s: String| s@) + max_match_segments(self.dict, chars@.skip(0)) =~= max_match_segments(self.dict, text@));
        while start < chars.len()
            invariant
                self.dict.wf(),
                chars@ == text@,
                start <= chars@.len(),
                segments@.map_values(|s: String| s@) + max_match_segments(self.dict, chars@.skip(start as int))
                    == max_match_segments(self.dict, text@),
            decreases chars@.len() - start,
        {
            let ghost rest = chars@.skip(start as int);
            let ghost before = segments@.map_values(|s: String| s@);
            let n = match self.dict.match_at(chars.as_slice(), start) {
                Some((n, _)) => n,
                None => 1,
            };
            let end = start + n;
            let piece = string_of(&chars.as_slice()[start..end]);
            assert(piece@ =~= rest.take(n as int));
            assert(rest.skip(n as int) =~= chars@.skip(end as int));
            segments.push(piece);
            assert(segments@.map_values(|s: String| s@) =~= before.push(rest.take(n as int)));
            assert(before.push(rest.take(n as int)) + max_match_segments(self.dict, chars@.skip(end as int))
                =~= before + (seq![rest.take(n as int)] + max_match_segments(self.dict, rest.skip(n as int))));
            start = end;
        }
        assert(chars@.skip(start as int) =~= Seq::<char>::empty());
        assert(segments@.map_values(|s: String| s@) =~= segments@.map_values(|s: String| s@) + max_match_segments(self.dict, Seq::<char>::empty()));
        segments
    }
}

} // verus!
