//! The binary form of a compiled dictionary: a little-endian `u64` length of
//! a metadata section, the metadata (the compressed value table and the key
//! length bound), then the automaton's own bytes.

use crate::delta::{Delta, DeltaView};
use crate::fst_dict::rows_view;
use vstd::prelude::*;

verus! {

/// A delta in the shape it is serialized in: the differences as `Ok`, the
/// full replacement as `Err`, which bincode writes as the variants of
/// `Delta` in order.
pub type WireDelta = Result<Vec<(u16, char)>, String>;

/// The view of a serialized delta.
pub open spec fn wire_delta_view(w: WireDelta) -> DeltaView {
    match w {
        Ok(d) => DeltaView::Diffs(d@),
        Err(s) => DeltaView::Full(s@),
    }
}

/// The views of a serialized value table.
pub open spec fn wire_table_view(t: Seq<Vec<WireDelta>>) -> Seq<Seq<DeltaView>> {
    t.map_values(|r: Vec<WireDelta>| r@.map_values(|w: WireDelta| wire_delta_view(w)))
}

/// The most that bincode may set aside while decoding: with this limit it
/// refuses a declared length that would exceed it before it allocates.
pub const DECODE_LIMIT: usize = 1073741824;

/// The longest input that decodes within the limit. Decoding the value
/// table sets aside at most 32 bytes per input byte (8 for a length and
/// 24 per element of a row or table, per 1-byte row or delta header; at
/// most 14 per difference of at least 2 bytes; one per string byte), and
/// the metadata at most 8 per input byte.
pub const MAX_DECODED_BYTES: usize = 33554432;

/// The bytes that bincode, in its standard configuration, writes for a
/// value table with these deltas.
pub uninterp spec fn bincode_table(t: Seq<Seq<DeltaView>>) -> Seq<u8>;

/// The value table that bincode, in its standard configuration limited to
/// `DECODE_LIMIT`, decodes from `b`; `None` where it reports an error.
pub uninterp spec fn read_table(b: Seq<u8>) -> Option<Seq<Seq<DeltaView>>>;

/// The bytes that bincode, in its standard configuration, writes for the
/// metadata pair of compressed table and key length bound.
pub uninterp spec fn bincode_meta(compressed: Seq<u8>, max_key_length: usize) -> Seq<u8>;

/// The metadata pair that bincode, in its standard configuration limited
/// to `DECODE_LIMIT`, decodes from `b`; `None` where it reports an error.
pub uninterp spec fn read_meta(b: Seq<u8>) -> Option<(Seq<u8>, usize)>;

/// The bytes that zstd's `encode_all` writes for `b` at the default level.
pub uninterp spec fn zstd_frame(b: Seq<u8>) -> Seq<u8>;

/// The bytes that zstd's `decode_all` gives for `b`; `None` where it
/// reports an error.
pub uninterp spec fn unzstd(b: Seq<u8>) -> Option<Seq<u8>>;

/// Relies on `bincode::encode_to_vec`: writing into a vector cannot fail,
/// and bytes short enough decode back to the table.
#[verifier::external_body]
pub(crate) fn encode_table(t: &Vec<Vec<WireDelta>>) -> (r: Result<Vec<u8>, bincode::error::EncodeError>)
    ensures
        r is Ok,
        r is Ok ==> r->Ok_0@ == bincode_table(wire_table_view(t@)),
        r is Ok && r->Ok_0@.len() <= MAX_DECODED_BYTES ==> read_table(r->Ok_0@) == Some(wire_table_view(t@)),
{
    bincode::encode_to_vec(t, bincode::config::standard())
}

/// Relies on `bincode::decode_from_slice` with a byte limit, which returns
/// an error rather than allocating past the limit.
#[verifier::external_body]
pub(crate) fn decode_table(b: &[u8]) -> (r: Result<(Vec<Vec<WireDelta>>, usize), bincode::error::DecodeError>)
    ensures
        r is Ok <==> read_table(b@) is Some,
        r is Ok ==> wire_table_view(r->Ok_0.0@) == read_table(b@)->0,
{
    bincode::decode_from_slice(b, bincode::config::standard().with_limit::<DECODE_LIMIT>())
}

/// Relies on `bincode::encode_to_vec`: writing into a vector cannot fail,
/// and bytes short enough decode back to the pair.
#[verifier::external_body]
pub(crate) fn encode_meta(compressed: &Vec<u8>, max_key_length: usize) -> (r: Result<Vec<u8>, bincode::error::EncodeError>)
    ensures
        r is Ok,
        r is Ok ==> r->Ok_0@ == bincode_meta(compressed@, max_key_length),
        r is Ok && r->Ok_0@.len() <= MAX_DECODED_BYTES ==> read_meta(r->Ok_0@) == Some((compressed@, max_key_length)),
{
    bincode::encode_to_vec((compressed, max_key_length), bincode::config::standard())
}

/// Relies on `bincode::decode_from_slice` with a byte limit, which returns
/// an error rather than allocating past the limit.
#[verifier::external_body]
pub(crate) fn decode_meta(b: &[u8]) -> (r: Result<((Vec<u8>, usize), usize), bincode::error::DecodeError>)
    ensures
        r is Ok <==> read_meta(b@) is Some,
        r is Ok ==> read_meta(b@) == Some((r->Ok_0.0.0@, r->Ok_0.0.1)),
{
    bincode::decode_from_slice(b, bincode::config::standard().with_limit::<DECODE_LIMIT>())
}

/// Relies on `zstd::encode_all`: compressing bytes in memory succeeds, and
/// the frame decompresses to them.
#[verifier::external_body]
pub(crate) fn compress(b: &[u8]) -> (r: Result<Vec<u8>, std::io::Error>)
    ensures
        r is Ok,
        r is Ok ==> r->Ok_0@ == zstd_frame(b@),
        r is Ok ==> unzstd(r->Ok_0@) == Some(b@),
{
    zstd::encode_all(b, 0)
}

/// Relies on `zstd::decode_all`: the decompressed bytes, or an error for
/// data that is not a zstd frame.
#[verifier::external_body]
pub(crate) fn decompress(b: &[u8]) -> (r: Result<Vec<u8>, std::io::Error>)
    ensures
        r is Ok <==> unzstd(b@) is Some,
        r is Ok ==> unzstd(b@) == Some(r->Ok_0@),
{
    zstd::decode_all(b)
}

/// A copy of `d` in the serialized shape.
fn delta_to_wire(d: &Delta) -> (r: WireDelta)
    ensures
        wire_delta_view(r) == d@,
{
    match d {
        Delta::CharDiffs(diffs) => {
            let mut out: Vec<(u16, char)> = Vec::new();
            let mut j: usize = 0;
            while j < diffs.len()
                invariant
                    j <= diffs@.len(),
                    out@ == diffs@.take(j as int),
                decreases diffs@.len() - j,
            {
                out.push(diffs[j]);
                assert(diffs@.take(j + 1) =~= diffs@.take(j as int).push(diffs@[j as int]));
                j += 1;
            }
            assert(diffs@.take(diffs@.len() as int) =~= diffs@);
            Ok(out)
        },
        Delta::FullReplacement(s) => Err(s.clone()),
    }
}

/// A copy of the value table in the serialized shape.
pub fn table_to_wire(values: &Vec<Vec<Delta>>) -> (r: Vec<Vec<WireDelta>>)
    ensures
        wire_table_view(r@) == rows_view(values@),
{
    let mut out: Vec<Vec<WireDelta>> = Vec::new();
    let mut i: usize = 0;
    while i < values.len()
        invariant
            i <= values@.len(),
            out@.len() == i,
            forall|k: int| 0 <= k < i ==> #[trigger] wire_table_view(out@)[k] == rows_view(values@)[k],
        decreases values@.len() - i,
    {
        let row = &values[i];
        let mut wrow: Vec<WireDelta> = Vec::new();
        let mut j: usize = 0;
        while j < row.len()
            invariant
                j <= row@.len(),
                wrow@.len() == j,
                forall|k: int| 0 <= k < j ==> wire_delta_view(#[trigger] wrow@[k]) == row@[k]@,
            decreases row@.len() - j,
        {
            let w = delta_to_wire(&row[j]);
            wrow.push(w);
            j += 1;
        }
        assert(wrow@.map_values(|w: WireDelta| wire_delta_view(w)) =~= row@.map_values(|d: Delta| d@));
        let ghost old = out@;
        out.push(wrow);
        assert forall|k: int| 0 <= k < i + 1 implies #[trigger] wire_table_view(out@)[k] == rows_view(values@)[k] by {
            if k < i {
                assert(out@[k] == old[k]);
                assert(wire_table_view(old)[k] == rows_view(values@)[k]);
            } else {
                assert(out@[k] == wrow);
            }
        }
        i += 1;
    }
    assert(wire_table_view(out@) =~= rows_view(values@));
    out
}

/// The value table that a serialized table holds.
pub fn table_from_wire(t: Vec<Vec<WireDelta>>) -> (r: Vec<Vec<Delta>>)
    ensures
        rows_view(r@) == wire_table_view(t@),
{
    let mut out: Vec<Vec<Delta>> = Vec::new();
    for row in it: t
        invariant
            it.seq() == t@,
            out@.len() == it.index(),
            forall|k: int| 0 <= k < it.index() ==> #[trigger] rows_view(out@)[k] == wire_table_view(t@)[k],
    {
        let ghost rs = row@;
        let mut drow: Vec<Delta> = Vec::new();
        for w in jt: row
            invariant
                jt.seq() == rs,
                drow@.len() == jt.index(),
                forall|k: int| 0 <= k < jt.index() ==> (#[trigger] drow@[k])@ == wire_delta_view(rs[k]),
        {
            let d = match w {
                Ok(diffs) => Delta::CharDiffs(diffs),
                Err(s) => Delta::FullReplacement(s),
            };
            drow.push(d);
        }
        assert(drow@.map_values(|d: Delta| d@) =~= rs.map_values(|w: WireDelta| wire_delta_view(w)));
        let ghost n = out@.len();
        let ghost old = out@;
        out.push(drow);
        assert forall|k: int| 0 <= k < n + 1 implies #[trigger] rows_view(out@)[k] == wire_table_view(t@)[k] by {
            if k < n {
                assert(out@[k] == old[k]);
                assert(rows_view(old)[k] == wire_table_view(t@)[k]);
            } else {
                assert(out@[k] == drow);
                assert(t@[k]@ == rs);
            }
        }
    }
    assert(rows_view(out@) =~= wire_table_view(t@));
    out
}

} // verus!
