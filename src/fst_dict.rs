//! A dictionary backed by an automaton and a table of encoded values.

use crate::automaton::{
    bytes_lt, fst_accepts, fst_entries, fst_from_bytes, fst_from_sorted, fst_get, fst_image,
    fst_readable, fst_to_bytes, keys_ascending,
};
use crate::compiler::{
    compile_entries, lemma_encode_injective, lemma_row_encodes_decodes, table_ok, text_dict,
    text_max_key, Entry,
};
use crate::delta::{decode_row, decoded_row, deltas_fit, row_fits, Delta, DeltaView};
use crate::dictionary::{
    best_len, keyed_match, lemma_best_len_bounds, lemma_longest_never_shorter, longest_match,
    match_len, DictView, Dictionary, MatchView,
};
use crate::error::OpenCCError;
use crate::serial::{
    bincode_meta, bincode_table, compress, decode_meta, decode_table, decompress, encode_meta,
    encode_table, read_meta, read_table, table_from_wire, table_to_wire, unzstd, zstd_frame,
    MAX_DECODED_BYTES,
};
use crate::text::{chars_of, push_char};
use vstd::bytes::{
    lemma_auto_spec_u64_to_from_le_bytes, spec_u64_from_le_bytes, u64_from_le_bytes,
    u64_to_le_bytes,
};
use vstd::prelude::*;
use vstd::slice::slice_to_vec;
use vstd::utf8::encode_utf8;

verus! {

/// A dictionary whose keys live in an automaton that maps each key's UTF-8
/// bytes to a row of the value table.
pub struct FstDict {
    map: fst::Map<Vec<u8>>,
    values: Vec<Vec<Delta>>,
    max_key_length: usize,
}

/// The views of the rows of a value table.
pub open spec fn rows_view(values: Seq<Vec<Delta>>) -> Seq<Seq<DeltaView>> {
    values.map_values(|r: Vec<Delta>| r@.map_values(|d: Delta| d@))
}

/// The row of `rows` that holds the candidates of `k`, where `k` is a
/// usable key: not empty, within the bound `max`, mapped by `e` to an
/// existing row whose deltas all decode against it.
pub open spec fn entry_row(e: Map<Seq<u8>, u64>, rows: Seq<Seq<DeltaView>>, max: nat, k: Seq<char>) -> Option<int> {
    let b = encode_utf8(k);
    if 0 < k.len() <= max && e.contains_key(b) && (e[b] as int) < rows.len()
        && forall|j: int| 0 <= j < rows[e[b] as int].len() ==> (#[trigger] rows[e[b] as int][j]).fits(k.len()) {
        Some(e[b] as int)
    } else {
        None
    }
}

/// The dictionary that automaton entries `e`, value table `rows` and key
/// bound `max` describe: each usable key with the values its row decodes to.
pub open spec fn dict_view_of(e: Map<Seq<u8>, u64>, rows: Seq<Seq<DeltaView>>, max: nat) -> DictView {
    Map::new(
        |k: Seq<char>| entry_row(e, rows, max, k) is Some,
        |k: Seq<char>| rows[entry_row(e, rows, max, k)->0].map_values(|d: DeltaView| d.decoded(k)),
    )
}

impl FstDict {
    /// The row of the value table that holds the candidates of `k`.
    pub closed spec fn row_of(&self, k: Seq<char>) -> Option<int> {
        entry_row(fst_entries(self.map), rows_view(self.values@), self.max_key_length as nat, k)
    }

    /// A row of the table fits a key exactly when its view does, and decodes
    /// to what its view decodes to.
    proof fn lemma_row_view(&self, i: int, k: Seq<char>)
        requires
            0 <= i < self.values@.len(),
        ensures
            row_fits(self.values@[i]@, k.len()) <==> forall|j: int| 0 <= j < rows_view(self.values@)[i].len()
                ==> (#[trigger] rows_view(self.values@)[i][j]).fits(k.len()),
            decoded_row(k, self.values@[i]@) == rows_view(self.values@)[i].map_values(|d: DeltaView| d.decoded(k)),
    {
        let rv = rows_view(self.values@)[i];
        assert(rv == self.values@[i]@.map_values(|d: Delta| d@));
        if row_fits(self.values@[i]@, k.len()) {
            assert forall|j: int| 0 <= j < rv.len() implies (#[trigger] rv[j]).fits(k.len()) by {
                assert(self.values@[i]@[j].fits(k.len()));
            }
        }
        if forall|j: int| 0 <= j < rv.len() ==> (#[trigger] rv[j]).fits(k.len()) {
            assert forall|j: int| 0 <= j < self.values@[i]@.len() implies (#[trigger] self.values@[i]@[j]).fits(k.len()) by {
                assert(rv[j].fits(k.len()));
            }
        }
        assert(decoded_row(k, self.values@[i]@) =~= rv.map_values(|d: DeltaView| d.decoded(k)));
    }
}

impl View for FstDict {
    type V = DictView;

    closed spec fn view(&self) -> DictView {
        dict_view_of(fst_entries(self.map), rows_view(self.values@), self.max_key_length as nat)
    }
}

impl FstDict {
    /// Every key of the dictionary is non-empty and within the length bound.
    pub proof fn lemma_keys_bounded(&self)
        ensures
            forall|k: Seq<char>| #[trigger] self@.contains_key(k) ==> 0 < k.len() <= self.spec_max_key_length(),
    {
    }
}

impl Dictionary for FstDict {
    closed spec fn wf(&self) -> bool {
        fst_readable(self.map)
    }

    open spec fn spec_match(&self, w: Seq<char>) -> MatchView {
        longest_match(self@, w)
    }

    closed spec fn spec_max_key_length(&self) -> nat {
        self.max_key_length as nat
    }

    fn match_at(&self, text: &[char], pos: usize) -> (r: Option<(usize, Vec<String>)>) {
        let ghost w = text@.skip(pos as int);
        let remaining = text.len() - pos;
        let limit = if self.max_key_length < remaining { self.max_key_length } else { remaining };
        let mut prefix = String::new();
        let mut n: usize = 0;
        let mut best: usize = 0;
        let mut best_row: usize = 0;
        while n < limit
            invariant
                fst_readable(self.map),
                w == text@.skip(pos as int),
                pos <= text@.len(),
                remaining == text@.len() - pos,
                limit <= remaining,
                limit <= self.max_key_length,
                limit == remaining || limit == self.max_key_length,
                pos + remaining == text.len(),
                n <= limit,
                prefix@ == w.take(n as int),
                best == best_len(self@, w, n as int),
                best > 0 ==> self.row_of(w.take(best as int)) == Some(best_row as int),
            decreases limit - n,
        {
            push_char(&mut prefix, text[pos + n]);
            n += 1;
            assert(prefix@ =~= w.take(n as int));
            let found = fst_get(&self.map, prefix.as_str().as_bytes());
            let ghost k = w.take(n as int);
            if let Some(idx) = found {
                if idx < self.values.len() as u64 {
                    let row = idx as usize;
                    proof {
                        self.lemma_row_view(row as int, k);
                    }
                    if deltas_fit(&self.values[row], n) {
                        best = n;
                        best_row = row;
                    }
                }
            }
            assert(self@.contains_key(k) <==> self.row_of(k) is Some);
        }
        proof {
            self.lemma_keys_bounded();
            lemma_best_len_stops(self@, w, self.max_key_length as int, w.len() as int);
            lemma_best_len_bounds(self@, w, w.len() as int);
        }
        if best == 0 {
            None
        } else {
            let key = &text[pos..pos + best];
            assert(key@ =~= w.take(best as int));
            proof {
                self.lemma_row_view(best_row as int, key@);
            }
            let vals = decode_row(key, &self.values[best_row]);
            Some((best, vals))
        }
    }

    fn match_prefix(&self, word: &str) -> (r: Option<(String, Vec<String>)>) {
        let chars = chars_of(word);
        assert(chars@.skip(0) =~= chars@);
        let m = self.match_at(chars.as_slice(), 0);
        keyed_match(&chars, m)
    }

    fn max_key_length(&self) -> (r: usize) {
        self.max_key_length
    }
}

impl FstDict {
    /// Builds a dictionary from entries in strictly ascending key order:
    /// each key maps to the values its encoded row decodes to.
    pub fn from_table(table: Vec<Entry>, max_key_length: usize) -> (r: Result<FstDict, fst::Error>)
        requires
            table_ok(table@),
            forall|a: int| 0 <= a < table@.len() ==> row_fits((#[trigger] table@[a]).2@, table@[a].1@.len()),
            forall|a: int| 0 <= a < table@.len() ==> 0 < (#[trigger] table@[a]).1@.len() <= max_key_length,
        ensures
            r is Ok,
            r is Ok ==> r->Ok_0.wf(),
            r is Ok ==> r->Ok_0.spec_max_key_length() == max_key_length,
            r is Ok ==> forall|a: int| 0 <= a < table@.len() ==> (#[trigger] r->Ok_0@.contains_key(table@[a].1@))
                && r->Ok_0@[table@[a].1@] == decoded_row(table@[a].1@, table@[a].2@),
            r is Ok ==> forall|k: Seq<char>| #[trigger] r->Ok_0@.contains_key(k)
                ==> exists|a: int| 0 <= a < table@.len() && table@[a].1@ == k,
            r is Ok ==> r->Ok_0.spec_rows().len() == table@.len(),
            r is Ok ==> forall|a: int| 0 <= a < table@.len() ==> #[trigger] r->Ok_0.spec_rows()[a]
                == table@[a].2@.map_values(|d: Delta| d@),
            r is Ok ==> forall|a: int| 0 <= a < table@.len() ==> #[trigger] r->Ok_0.spec_entries().contains_key(
                table@[a].0@,
            ) && r->Ok_0.spec_entries()[table@[a].0@] == a,
            r is Ok ==> forall|b: Seq<u8>| #[trigger] r->Ok_0.spec_entries().contains_key(b)
                ==> exists|a: int| 0 <= a < table@.len() && table@[a].0@ == b,
    {
        let ghost t = table@;
        let mut entries: Vec<(Vec<u8>, u64)> = Vec::new();
        let mut values: Vec<Vec<Delta>> = Vec::new();
        for e in it: table
            invariant
                it.seq() == t,
                entries@.len() == it.index(),
                values@.len() == it.index(),
                forall|a: int| 0 <= a < it.index() ==> (#[trigger] entries@[a]).0@ == t[a].0@ && entries@[a].1 == a,
                forall|a: int| 0 <= a < it.index() ==> #[trigger] values@[a] == t[a].2,
        {
            let (bytes, _key, row) = e;
            let idx = entries.len() as u64;
            entries.push((bytes, idx));
            values.push(row);
        }
        assert(keys_ascending(entries@)) by {
            assert forall|i: int| 0 < i < entries@.len() implies bytes_lt(entries@[i - 1].0@, #[trigger] entries@[i].0@) by {
                assert(bytes_lt(t[i - 1].0@, t[i].0@));
            }
        }
        match fst_from_sorted(&entries) {
            Err(e) => Err(e),
            Ok(map) => {
                let d = FstDict { map, values, max_key_length };
                proof {
                    let em = fst_entries(d.map);
                    assert forall|a: int| 0 <= a < t.len() implies (#[trigger] d@.contains_key(t[a].1@))
                        && d@[t[a].1@] == decoded_row(t[a].1@, t[a].2@) by {
                        let k = t[a].1@;
                        let b = encode_utf8(k);
                        assert(entries@[a].0@ == b);
                        assert(em.contains_key(b));
                        assert(em[b] == a);
                        assert(d.row_of(k) == Some(a));
                    }
                    assert forall|k: Seq<char>| #[trigger] d@.contains_key(k)
                        implies exists|a: int| 0 <= a < t.len() && t[a].1@ == k by {
                        let b = encode_utf8(k);
                        assert(fst_entries(d.map).contains_key(b));
                        let c = choose|i: int| 0 <= i < entries@.len() && entries@[i].0@ == b;
                        lemma_encode_injective(t[c].1@, k);
                    }
                }
                let r: Result<FstDict, fst::Error> = Ok(d);
                assert(forall|a: int| 0 <= a < t.len() ==> (#[trigger] r->Ok_0@.contains_key(t[a].1@))
                    && r->Ok_0@[t[a].1@] == decoded_row(t[a].1@, t[a].2@));
                assert forall|a: int| 0 <= a < t.len() implies #[trigger] d.spec_rows()[a]
                    == t[a].2@.map_values(|x: Delta| x@) by {
                    assert(d.values@[a] == t[a].2);
                }
                assert forall|a: int| 0 <= a < t.len() implies #[trigger] d.spec_entries().contains_key(t[a].0@)
                    && d.spec_entries()[t[a].0@] == a by {
                    assert(entries@[a].0@ == t[a].0@);
                }
                assert forall|b: Seq<u8>| #[trigger] d.spec_entries().contains_key(b)
                    implies exists|a: int| 0 <= a < t.len() && t[a].0@ == b by {
                    let c = choose|i: int| 0 <= i < entries@.len() && entries@[i].0@ == b;
                    assert(t[c].0@ == b);
                }
                assert(t == table@);
                r
            },
        }
    }
}

impl FstDict {
    /// Compiles the definitions in `text` into a dictionary that holds
    /// exactly the entries they describe.
    pub fn from_text(text: &str) -> (r: Result<FstDict, OpenCCError>)
        ensures
            r is Ok,
            r is Ok ==> r->Ok_0.wf(),
            r is Ok ==> r->Ok_0@ == text_dict(text@),
            r is Ok ==> r->Ok_0.spec_max_key_length() == text_max_key(text@),
            r is Ok ==> indexed_by_order(r->Ok_0.spec_entries(), r->Ok_0.spec_rows(), text_dict(text@)),
    {
        let (table, max) = compile_entries(text);
        let ghost t = table@;
        let ghost dict = text_dict(text@);
        proof {
            assert forall|a: int| 0 <= a < t.len() implies row_fits((#[trigger] t[a]).2@, t[a].1@.len()) && 0 < t[a].1@.len() <= max by {
                assert(dict.contains_key(t[a].1@));
                lemma_row_encodes_decodes(t[a].1@, dict[t[a].1@], t[a].2@);
            }
        }
        match FstDict::from_table(table, max) {
            Err(e) => Err(OpenCCError::Fst(e)),
            Ok(d) => {
                proof {
                    assert forall|k: Seq<char>| #[trigger] dict.contains_key(k) implies d@.contains_key(k) by {
                        let a = choose|a: int| 0 <= a < t.len() && t[a].1@ == k;
                        assert(d@.contains_key(t[a].1@));
                    }
                    assert forall|k: Seq<char>| #[trigger] d@.contains_key(k) implies dict.contains_key(k) && d@[k] == dict[k] by {
                        let a = choose|a: int| 0 <= a < t.len() && t[a].1@ == k;
                        assert(d@.contains_key(t[a].1@));
                        assert(dict.contains_key(t[a].1@));
                        lemma_row_encodes_decodes(t[a].1@, dict[t[a].1@], t[a].2@);
                    }
                    assert(d@ =~= dict);
                    let ks = t.map_values(|x: Entry| x.1@);
                    let (e, rows) = (d.spec_entries(), d.spec_rows());
                    assert forall|i: int, j: int| 0 <= i < j < ks.len() implies bytes_lt(
                        encode_utf8(#[trigger] ks[i]),
                        encode_utf8(#[trigger] ks[j]),
                    ) by {
                        assert(t[i].0@ == encode_utf8(t[i].1@) && t[j].0@ == encode_utf8(t[j].1@));
                    }
                    assert forall|k: Seq<char>| #[trigger] dict.contains_key(k) <==> exists|i: int|
                        0 <= i < ks.len() && ks[i] == k by {
                        if dict.contains_key(k) {
                            let a = choose|a: int| 0 <= a < t.len() && t[a].1@ == k;
                            assert(ks[a] == k);
                        }
                        if exists|i: int| 0 <= i < ks.len() && ks[i] == k {
                            let i = choose|i: int| 0 <= i < ks.len() && ks[i] == k;
                            assert(dict.contains_key(t[i].1@));
                        }
                    }
                    assert forall|b: Seq<u8>| #[trigger] e.contains_key(b) <==> exists|i: int|
                        0 <= i < ks.len() && encode_utf8(ks[i]) == b by {
                        if e.contains_key(b) {
                            let a = choose|a: int| 0 <= a < t.len() && t[a].0@ == b;
                            assert(encode_utf8(ks[a]) == b);
                        }
                        if exists|i: int| 0 <= i < ks.len() && encode_utf8(ks[i]) == b {
                            let i = choose|i: int| 0 <= i < ks.len() && encode_utf8(ks[i]) == b;
                            assert(t[i].0@ == b);
                        }
                    }
                    assert forall|i: int| 0 <= i < ks.len() implies e[encode_utf8(#[trigger] ks[i])] == i
                        && rows[i].map_values(|x: DeltaView| x.decoded(ks[i])) == dict[ks[i]] by {
                        assert(t[i].0@ == encode_utf8(t[i].1@));
                        assert(e.contains_key(t[i].0@));
                        assert(dict.contains_key(t[i].1@));
                        lemma_row_encodes_decodes(t[i].1@, dict[t[i].1@], t[i].2@);
                        assert(rows[i].map_values(|x: DeltaView| x.decoded(ks[i])) =~= decoded_row(ks[i], t[i].2@));
                    }
                    assert(keys_in_order(ks, e, rows, dict));
                }
                Ok(d)
            },
        }
    }
}

/// Whether `ks`, in strictly ascending order of their UTF-8 bytes, are
/// exactly the keys of `dict`, the automaton entries `e` map exactly their
/// bytes, the `i`-th to `i`, and row `i` of `rows` decodes against `ks[i]`
/// to its values in `dict`.
pub open spec fn keys_in_order(ks: Seq<Seq<char>>, e: Map<Seq<u8>, u64>, rows: Seq<Seq<DeltaView>>, dict: DictView) -> bool {
    &&& ks.len() == rows.len()
    &&& forall|i: int, j: int| 0 <= i < j < ks.len() ==> bytes_lt(encode_utf8(#[trigger] ks[i]), encode_utf8(#[trigger] ks[j]))
    &&& forall|k: Seq<char>| #[trigger] dict.contains_key(k) <==> exists|i: int| 0 <= i < ks.len() && ks[i] == k
    &&& forall|b: Seq<u8>| #[trigger] e.contains_key(b) <==> exists|i: int| 0 <= i < ks.len() && encode_utf8(ks[i]) == b
    &&& forall|i: int| 0 <= i < ks.len() ==> e[encode_utf8(#[trigger] ks[i])] == i
        && rows[i].map_values(|x: DeltaView| x.decoded(ks[i])) == dict[ks[i]]
}

/// Whether the keys of `dict`, taken in ascending order of their UTF-8
/// bytes, are numbered from 0 by the automaton entries `e`, each with its
/// row of `rows`.
pub open spec fn indexed_by_order(e: Map<Seq<u8>, u64>, rows: Seq<Seq<DeltaView>>, dict: DictView) -> bool {
    exists|ks: Seq<Seq<char>>| #[trigger] keys_in_order(ks, e, rows, dict)
}

/// Whether `b` is at least as long as its length prefix says it must be.
pub open spec fn ocb_framed(b: Seq<u8>) -> bool {
    b.len() >= 8 && spec_u64_from_le_bytes(b.subrange(0, 8)) <= b.len() - 8
}

/// The end of the metadata section of `b`.
pub open spec fn ocb_meta_end(b: Seq<u8>) -> int {
    8 + spec_u64_from_le_bytes(b.subrange(0, 8))
}

/// The metadata section of a framed `b`.
pub open spec fn ocb_meta(b: Seq<u8>) -> Seq<u8> {
    b.subrange(8, ocb_meta_end(b))
}

/// The automaton section of a framed `b`: everything after the metadata.
pub open spec fn ocb_fst(b: Seq<u8>) -> Seq<u8> {
    b.subrange(ocb_meta_end(b), b.len() as int)
}

/// The compressed table and key bound that the metadata of `b` decodes to.
pub open spec fn ocb_meta_pair(b: Seq<u8>) -> Option<(Seq<u8>, usize)> {
    if ocb_framed(b) {
        read_meta(ocb_meta(b))
    } else {
        None
    }
}

/// The serialized table that the compressed table of `b` decompresses to.
pub open spec fn ocb_table_bytes(b: Seq<u8>) -> Option<Seq<u8>> {
    match ocb_meta_pair(b) {
        Some((c, _)) => unzstd(c),
        None => None,
    }
}

/// The value table and key bound that `b` holds, where each step of
/// reading them succeeds.
pub open spec fn ocb_rows(b: Seq<u8>) -> Option<(Seq<Seq<DeltaView>>, usize)> {
    match (ocb_meta_pair(b), ocb_table_bytes(b)) {
        (Some((_, m)), Some(tb)) => match read_table(tb) {
            Some(rows) => Some((rows, m)),
            None => None,
        },
        _ => None,
    }
}

/// Whether `b` is the binary form of automaton entries `e`, value table
/// `rows` and key bound `m`: the `u64` length of the metadata, the
/// metadata (the compressed serialized table and `m`), then automaton
/// bytes that the `fst` builder wrote for `e`.
pub open spec fn ocb_encodes(b: Seq<u8>, e: Map<Seq<u8>, u64>, rows: Seq<Seq<DeltaView>>, m: usize) -> bool {
    &&& ocb_framed(b)
    &&& ocb_meta(b) == bincode_meta(zstd_frame(bincode_table(rows)), m)
    &&& fst_image(ocb_fst(b)) == Some(e)
}

/// Whether the serialized table and metadata of `rows` and `m` are short
/// enough to be decoded within the decoding limit.
pub open spec fn encoding_fits(rows: Seq<Seq<DeltaView>>, m: usize) -> bool {
    &&& bincode_table(rows).len() <= MAX_DECODED_BYTES
    &&& bincode_meta(zstd_frame(bincode_table(rows)), m).len() <= MAX_DECODED_BYTES
}

impl FstDict {
    /// The automaton's entries.
    pub closed spec fn spec_entries(&self) -> Map<Seq<u8>, u64> {
        fst_entries(self.map)
    }

    /// The value table.
    pub closed spec fn spec_rows(&self) -> Seq<Seq<DeltaView>> {
        rows_view(self.values@)
    }

    /// The dictionary's contents are those its parts describe.
    pub proof fn lemma_view_from_parts(&self)
        ensures
            self@ == dict_view_of(self.spec_entries(), self.spec_rows(), self.spec_max_key_length()),
    {
    }

    /// The dictionary in its binary form, which its contents fix; bytes
    /// short enough to decode within the limit read back to its parts.
    pub fn to_ocb_bytes(&self) -> (r: Result<Vec<u8>, OpenCCError>)
        requires
            self.wf(),
        ensures
            r is Ok,
            r is Ok ==> ocb_encodes(r->Ok_0@, self.spec_entries(), self.spec_rows(), self.spec_max_key_length() as usize),
            r is Ok && encoding_fits(self.spec_rows(), self.spec_max_key_length() as usize)
                ==> ocb_rows(r->Ok_0@) == Some((self.spec_rows(), self.spec_max_key_length() as usize)),
    {
        proof {
            lemma_auto_spec_u64_to_from_le_bytes();
        }
        let wire = table_to_wire(&self.values);
        let table_bytes = match encode_table(&wire) {
            Ok(b) => b,
            Err(e) => return Err(OpenCCError::BincodeEncode(e)),
        };
        let comp = match compress(table_bytes.as_slice()) {
            Ok(c) => c,
            Err(e) => return Err(OpenCCError::Io(e)),
        };
        let mut meta = match encode_meta(&comp, self.max_key_length) {
            Ok(m) => m,
            Err(e) => return Err(OpenCCError::BincodeEncode(e)),
        };
        let mut fstb = fst_to_bytes(&self.map);
        let ghost metav = meta@;
        let ghost fstv = fstb@;
        let mut out = u64_to_le_bytes(meta.len() as u64);
        let ghost pre = out@;
        out.append(&mut meta);
        out.append(&mut fstb);
        proof {
            assert(out@ == pre + metav + fstv);
            assert(out@.subrange(0, 8) =~= pre);
            assert(ocb_meta(out@) =~= metav);
            assert(ocb_fst(out@) =~= fstv);
        }
        Ok(out)
    }

    /// Reads a dictionary from its binary form. Bytes too short for the
    /// length prefix, or for the metadata length it gives, are refused as
    /// truncated; metadata or a table that does not decode, a compressed
    /// table that does not decompress, and automaton bytes that `fst`
    /// refuses each give their own error. Where every step succeeds, the
    /// dictionary holds the parts read, and it is consistent where the
    /// automaton bytes are ones the `fst` builder wrote.
    pub fn from_ocb_bytes(bytes: &[u8]) -> (r: Result<FstDict, OpenCCError>)
        ensures
            r matches Err(OpenCCError::Truncated) <==> !ocb_framed(bytes@),
            ocb_framed(bytes@) && ocb_meta_pair(bytes@) is None ==> r matches Err(OpenCCError::BincodeDecode(_)),
            ocb_meta_pair(bytes@) is Some && ocb_table_bytes(bytes@) is None ==> r matches Err(OpenCCError::Io(_)),
            ocb_table_bytes(bytes@) is Some && ocb_rows(bytes@) is None ==> r matches Err(OpenCCError::BincodeDecode(_)),
            ocb_rows(bytes@) is Some && !fst_accepts(ocb_fst(bytes@)) ==> r matches Err(OpenCCError::Fst(_)),
            r is Ok <==> ocb_rows(bytes@) is Some && fst_accepts(ocb_fst(bytes@)),
            r is Ok ==> ocb_rows(bytes@) == Some((r->Ok_0.spec_rows(), r->Ok_0.spec_max_key_length() as usize)),
            r is Ok && fst_image(ocb_fst(bytes@)) is Some ==> r->Ok_0.wf() && Some(r->Ok_0.spec_entries())
                == fst_image(ocb_fst(bytes@)),
    {
        if bytes.len() < 8 {
            return Err(OpenCCError::Truncated);
        }
        let head = &bytes[0..8];
        let len = u64_from_le_bytes(head);
        assert(bytes@.subrange(0, 8) =~= head@);
        if len > (bytes.len() - 8) as u64 {
            return Err(OpenCCError::Truncated);
        }
        let l = len as usize;
        let meta = &bytes[8..8 + l];
        assert(meta@ =~= ocb_meta(bytes@));
        let ((comp, max_key_length), _) = match decode_meta(meta) {
            Ok(x) => x,
            Err(e) => return Err(OpenCCError::BincodeDecode(e)),
        };
        let table_bytes = match decompress(comp.as_slice()) {
            Ok(t) => t,
            Err(e) => return Err(OpenCCError::Io(e)),
        };
        let (wire, _) = match decode_table(table_bytes.as_slice()) {
            Ok(x) => x,
            Err(e) => return Err(OpenCCError::BincodeDecode(e)),
        };
        let values = table_from_wire(wire);
        let fst_part = slice_to_vec(&bytes[8 + l..bytes.len()]);
        assert(fst_part@ =~= ocb_fst(bytes@));
        let map = match fst_from_bytes(fst_part) {
            Ok(m) => m,
            Err(e) => return Err(OpenCCError::Fst(e)),
        };
        Ok(FstDict { map, values, max_key_length })
    }
}

/// Serializing a dictionary and reading the bytes back gives a dictionary
/// that reports the same match as `d` on every word, and the same key
/// bound: `b` is what `to_ocb_bytes` returns for `d` where the encoding
/// fits the decoding limit, and `e` what `from_ocb_bytes` returns for `b`.
pub proof fn lemma_reload_same_matches(d: FstDict, b: Seq<u8>, e: FstDict, w: Seq<char>)
    requires
        ocb_encodes(b, d.spec_entries(), d.spec_rows(), d.spec_max_key_length() as usize),
        ocb_rows(b) == Some((d.spec_rows(), d.spec_max_key_length() as usize)),
        ocb_rows(b) == Some((e.spec_rows(), e.spec_max_key_length() as usize)),
        Some(e.spec_entries()) == fst_image(ocb_fst(b)),
    ensures
        e.spec_match(w) == d.spec_match(w),
        e.spec_max_key_length() == d.spec_max_key_length(),
{
    d.lemma_view_from_parts();
    e.lemma_view_from_parts();
    assert(e.spec_max_key_length() == d.spec_max_key_length());
}

/// For every key `k` of a dictionary and any text `rest` after it, the
/// match on `k + rest` is `k` or a longer key of the dictionary that also
/// prefixes `k + rest`, never a shorter one.
pub proof fn lemma_key_matches_at_least_itself(d: FstDict, k: Seq<char>, rest: Seq<char>)
    requires
        d@.contains_key(k),
    ensures
        d.spec_match(k + rest) is Some,
        match_len(d.spec_match(k + rest)) >= k.len(),
        d@.contains_key((k + rest).take(match_len(d.spec_match(k + rest)) as int)),
{
    d.lemma_keys_bounded();
    lemma_longest_never_shorter(d@, k, rest);
}

/// Keys past `m` characters do not change the longest match.
proof fn lemma_best_len_stops(dict: DictView, w: Seq<char>, m: int, n: int)
    requires
        0 <= m,
        forall|k: Seq<char>| #[trigger] dict.contains_key(k) ==> 0 < k.len() <= m,
    ensures
        best_len(dict, w, n) == best_len(dict, w, if n < m { n } else { m }),
    decreases n,
{
    if n > m {
        assert(!dict.contains_key(w.take(n)) || n > w.len());
        lemma_best_len_stops(dict, w, m, n - 1);
    }
}

} // verus!
