//! Replacement values stored relative to their keys.

use crate::text::{chars_of, string_of};
use vstd::prelude::*;
use vstd::slice::slice_to_vec;
use vstd::utf8::encode_utf8;

verus! {

/// One candidate replacement, stored relative to the key it belongs to.
#[derive(Debug, PartialEq, Eq)]
pub enum Delta {
    /// The key's characters with the listed positions overwritten.
    CharDiffs(Vec<(u16, char)>),
    /// The replacement in full, used where differences would not pay off.
    FullReplacement(String),
}

/// Bytes that one stored difference is reckoned to cost.
pub const DIFF_COST: usize = 6;

/// Keys up to this many characters have every position representable in a diff.
pub const MAX_DIFF_KEY_CHARS: usize = 65536;

/// The positions below `n` where `value` differs from `key`, each with the
/// character of `value` there.
pub open spec fn diffs_upto(key: Seq<char>, value: Seq<char>, n: int) -> Seq<(u16, char)>
    decreases n,
{
    if n <= 0 {
        Seq::empty()
    } else {
        let prev = diffs_upto(key, value, n - 1);
        if key[n - 1] != value[n - 1] {
            prev.push(((n - 1) as u16, value[n - 1]))
        } else {
            prev
        }
    }
}

/// Every position where `value` differs from `key`, in ascending order.
pub open spec fn char_diffs(key: Seq<char>, value: Seq<char>) -> Seq<(u16, char)> {
    diffs_upto(key, value, key.len() as int)
}

/// Whether `value` is stored as differences from `key` rather than in full.
pub open spec fn stored_as_diffs(key: Seq<char>, value: Seq<char>) -> bool {
    &&& key.len() == value.len()
    &&& key.len() <= MAX_DIFF_KEY_CHARS
    &&& char_diffs(key, value).len() * DIFF_COST <= encode_utf8(value).len()
}

/// `key` with each listed position overwritten in turn; positions past the
/// end are left out.
pub open spec fn apply_diffs(key: Seq<char>, diffs: Seq<(u16, char)>) -> Seq<char>
    decreases diffs.len(),
{
    if diffs.len() == 0 {
        key
    } else {
        let prev = apply_diffs(key, diffs.drop_last());
        let (i, c) = diffs.last();
        if (i as int) < prev.len() {
            prev.update(i as int, c)
        } else {
            prev
        }
    }
}

/// Whether every listed position lies within a key of `n` characters.
pub open spec fn diffs_fit(diffs: Seq<(u16, char)>, n: nat) -> bool {
    forall|j: int| 0 <= j < diffs.len() ==> (#[trigger] diffs[j]).0 < n
}

/// A delta as a mathematical value.
pub enum DeltaView {
    Diffs(Seq<(u16, char)>),
    Full(Seq<char>),
}

impl DeltaView {
    /// Whether this delta can be decoded against a key of `n` characters.
    pub open spec fn fits(self, n: nat) -> bool {
        match self {
            DeltaView::Diffs(d) => diffs_fit(d, n),
            DeltaView::Full(_) => true,
        }
    }

    /// The value this delta stands for, relative to `key`.
    pub open spec fn decoded(self, key: Seq<char>) -> Seq<char> {
        match self {
            DeltaView::Diffs(d) => apply_diffs(key, d),
            DeltaView::Full(s) => s,
        }
    }
}

impl View for Delta {
    type V = DeltaView;

    open spec fn view(&self) -> DeltaView {
        match self {
            Delta::CharDiffs(d) => DeltaView::Diffs(d@),
            Delta::FullReplacement(s) => DeltaView::Full(s@),
        }
    }
}

impl Delta {
    /// Whether this delta can be decoded against a key of `n` characters.
    pub open spec fn fits(&self, n: nat) -> bool {
        self@.fits(n)
    }

    /// The value this delta stands for, relative to `key`.
    pub open spec fn decoded(&self, key: Seq<char>) -> Seq<char> {
        self@.decoded(key)
    }

    /// The delta that encodes `value` relative to `key`.
    pub open spec fn encodes(&self, key: Seq<char>, value: Seq<char>) -> bool {
        if stored_as_diffs(key, value) {
            &&& self is CharDiffs
            &&& self->CharDiffs_0@ == char_diffs(key, value)
        } else {
            &&& self is FullReplacement
            &&& self->FullReplacement_0@ == value
        }
    }
}

proof fn lemma_diffs_upto_len(key: Seq<char>, value: Seq<char>, n: int)
    requires
        0 <= n,
    ensures
        diffs_upto(key, value, n).len() <= n,
    decreases n,
{
    if n > 0 {
        lemma_diffs_upto_len(key, value, n - 1);
    }
}

proof fn lemma_apply_diffs_upto(key: Seq<char>, value: Seq<char>, n: int)
    requires
        key.len() == value.len(),
        key.len() <= MAX_DIFF_KEY_CHARS,
        0 <= n <= key.len(),
    ensures
        apply_diffs(key, diffs_upto(key, value, n)) == value.take(n) + key.skip(n),
        diffs_fit(diffs_upto(key, value, n), key.len()),
    decreases n,
{
    if n == 0 {
        assert(value.take(0) + key.skip(0) =~= key);
    } else {
        lemma_apply_diffs_upto(key, value, n - 1);
        let prev = diffs_upto(key, value, n - 1);
        if key[n - 1] != value[n - 1] {
            let d = prev.push(((n - 1) as u16, value[n - 1]));
            assert(d.drop_last() =~= prev);
            assert(((n - 1) as u16) as int == n - 1);
            assert(apply_diffs(key, prev).update(n - 1, value[n - 1]) =~= value.take(n) + key.skip(n));
            assert forall|j: int| 0 <= j < d.len() implies (#[trigger] d[j]).0 < key.len() by {
                if j < prev.len() {
                    assert(d[j] == prev[j]);
                }
            }
        } else {
            assert(value.take(n - 1) + key.skip(n - 1) =~= value.take(n) + key.skip(n));
        }
    }
}

/// Decoding the delta chosen for `value` against `key` gives `value` back.
pub proof fn lemma_decode_encode(key: Seq<char>, value: Seq<char>, d: Delta)
    requires
        d.encodes(key, value),
    ensures
        d.decoded(key) == value,
        d.fits(key.len()),
{
    if stored_as_diffs(key, value) {
        lemma_apply_diffs_upto(key, value, key.len() as int);
        assert(value.take(key.len() as int) + key.skip(key.len() as int) =~= value);
    }
}

/// Chooses how to store `value` relative to `key`: as the positions where
/// the characters differ when both have the same length and the differences
/// take no more room than the value itself, else in full.
pub fn compute_delta(key: &str, value: &str) -> (r: Delta)
    ensures
        r.encodes(key@, value@),
{
    let k = chars_of(key);
    let v = chars_of(value);
    if k.len() != v.len() || k.len() > MAX_DIFF_KEY_CHARS {
        return Delta::FullReplacement(string_of(v.as_slice()));
    }
    let mut diffs: Vec<(u16, char)> = Vec::new();
    let mut i: usize = 0;
    while i < k.len()
        invariant
            k@ == key@,
            v@ == value@,
            k.len() == v.len(),
            k.len() <= MAX_DIFF_KEY_CHARS,
            i <= k.len(),
            diffs@ == diffs_upto(key@, value@, i as int),
        decreases k.len() - i,
    {
        if k[i] != v[i] {
            diffs.push((i as u16, v[i]));
        }
        i += 1;
    }
    proof {
        lemma_diffs_upto_len(key@, value@, k.len() as int);
    }
    let value_bytes = value.as_bytes().len();
    if diffs.len() > value_bytes / DIFF_COST {
        assert(diffs.len() * DIFF_COST > encode_utf8(value@).len()) by (nonlinear_arith)
            requires
                diffs.len() > value_bytes / DIFF_COST,
                value_bytes == encode_utf8(value@).len(),
                DIFF_COST == 6;
        Delta::FullReplacement(string_of(v.as_slice()))
    } else {
        assert(diffs.len() * DIFF_COST <= encode_utf8(value@).len()) by (nonlinear_arith)
            requires
                diffs.len() <= value_bytes / DIFF_COST,
                value_bytes == encode_utf8(value@).len(),
                DIFF_COST == 6;
        Delta::CharDiffs(diffs)
    }
}

/// The value that `d` stands for relative to `key`.
pub fn decode_delta(key: &[char], d: &Delta) -> (r: String)
    requires
        d.fits(key@.len()),
    ensures
        r@ == d.decoded(key@),
{
    match d {
        Delta::FullReplacement(s) => s.clone(),
        Delta::CharDiffs(diffs) => {
            let mut out: Vec<char> = slice_to_vec(key);
            let mut j: usize = 0;
            while j < diffs.len()
                invariant
                    diffs_fit(diffs@, key@.len()),
                    j <= diffs.len(),
                    out@ == apply_diffs(key@, diffs@.take(j as int)),
                    out@.len() == key@.len(),
                decreases diffs.len() - j,
            {
                let (p, c) = diffs[j];
                assert(diffs@.take(j + 1).drop_last() =~= diffs@.take(j as int));
                assert(diffs@[j as int].0 < key@.len());
                out.set(p as usize, c);
                j += 1;
            }
            assert(diffs@.take(diffs.len() as int) =~= diffs@);
            string_of(out.as_slice())
        }
    }
}

/// The values that a row of deltas stands for, relative to `key`.
pub open spec fn decoded_row(key: Seq<char>, row: Seq<Delta>) -> Seq<Seq<char>> {
    row.map_values(|d: Delta| d.decoded(key))
}

/// Whether every delta of `row` can be decoded against a key of `n` characters.
pub open spec fn row_fits(row: Seq<Delta>, n: nat) -> bool {
    forall|j: int| 0 <= j < row.len() ==> (#[trigger] row[j]).fits(n)
}

/// Whether `d` can be decoded against a key of `n` characters.
pub fn delta_fits(d: &Delta, n: usize) -> (r: bool)
    ensures
        r == d.fits(n as nat),
{
    match d {
        Delta::FullReplacement(_) => true,
        Delta::CharDiffs(diffs) => {
            let mut j: usize = 0;
            while j < diffs.len()
                invariant
                    *d == Delta::CharDiffs(*diffs),
                    j <= diffs.len(),
                    forall|i: int| 0 <= i < j ==> (#[trigger] diffs@[i]).0 < n,
                decreases diffs.len() - j,
            {
                if diffs[j].0 as usize >= n {
                    assert(diffs@[j as int].0 >= n);
                    return false;
                }
                j += 1;
            }
            true
        },
    }
}

/// Whether every delta of `row` can be decoded against a key of `n` characters.
pub fn deltas_fit(row: &Vec<Delta>, n: usize) -> (r: bool)
    ensures
        r == row_fits(row@, n as nat),
{
    let mut j: usize = 0;
    while j < row.len()
        invariant
            j <= row.len(),
            forall|i: int| 0 <= i < j ==> (#[trigger] row@[i]).fits(n as nat),
        decreases row.len() - j,
    {
        if !delta_fits(&row[j], n) {
            return false;
        }
        j += 1;
    }
    true
}

/// The values that `row` stands for relative to `key`, in order.
pub fn decode_row(key: &[char], row: &Vec<Delta>) -> (r: Vec<String>)
    requires
        row_fits(row@, key@.len()),
    ensures
        r@.map_values(|s: String| s@) == decoded_row(key@, row@),
{
    let mut r: Vec<String> = Vec::new();
    let mut j: usize = 0;
    while j < row.len()
        invariant
            row_fits(row@, key@.len()),
            j <= row.len(),
            r@.len() == j,
            forall|i: int| 0 <= i < j ==> (#[trigger] r@[i])@ == row@[i].decoded(key@),
        decreases row.len() - j,
    {
        assert(row@[j as int].fits(key@.len()));
        let s = decode_delta(key, &row[j]);
        r.push(s);
        j += 1;
    }
    assert(r@.map_values(|s: String| s@) =~= decoded_row(key@, row@));
    r
}

} // verus!
