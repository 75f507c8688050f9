//! The byte-keyed automaton that maps each dictionary key to its row in the
//! value table, as provided by the `fst` crate.

use vstd::prelude::*;

verus! {

#[verifier::external_type_specification]
#[verifier::external_body]
#[verifier::reject_recursive_types(D)]
pub struct ExFstMap<D>(fst::Map<D>);

#[verifier::external_type_specification]
#[verifier::external_body]
pub struct ExFstError(fst::Error);

/// The keys of an automaton, each with the value it maps to.
pub uninterp spec fn fst_entries(m: fst::Map<Vec<u8>>) -> Map<Seq<u8>, u64>;

/// Whether reading the automaton is safe: true of every automaton whose
/// bytes the `fst` builder wrote.
pub uninterp spec fn fst_readable(m: fst::Map<Vec<u8>>) -> bool;

/// For bytes that the `fst` builder wrote, the entries of the automaton
/// they hold; `None` for other bytes.
pub uninterp spec fn fst_image(b: Seq<u8>) -> Option<Map<Seq<u8>, u64>>;

/// Whether `fst::Map::new` accepts `b`: its header and root address are
/// consistent.
pub uninterp spec fn fst_accepts(b: Seq<u8>) -> bool;

/// Byte-lexicographic order, the order `fst` keys must be inserted in.
pub open spec fn bytes_lt(a: Seq<u8>, b: Seq<u8>) -> bool
    decreases a.len(),
{
    if b.len() == 0 {
        false
    } else if a.len() == 0 {
        true
    } else if a[0] != b[0] {
        a[0] < b[0]
    } else {
        bytes_lt(a.drop_first(), b.drop_first())
    }
}

/// The order is transitive.
pub proof fn lemma_bytes_lt_transitive(a: Seq<u8>, b: Seq<u8>, c: Seq<u8>)
    requires
        bytes_lt(a, b),
        bytes_lt(b, c),
    ensures
        bytes_lt(a, c),
    decreases a.len(),
{
    if a.len() > 0 && a[0] == b[0] && b[0] == c[0] {
        lemma_bytes_lt_transitive(a.drop_first(), b.drop_first(), c.drop_first());
    }
}

/// Of two byte strings, exactly one comes first, or they are equal.
pub proof fn lemma_bytes_lt_total(a: Seq<u8>, b: Seq<u8>)
    ensures
        bytes_lt(a, b) || a == b || bytes_lt(b, a),
        !(bytes_lt(a, b) && bytes_lt(b, a)),
        !bytes_lt(a, a),
    decreases a.len(),
{
    if a.len() > 0 && b.len() > 0 {
        lemma_bytes_lt_total(a.drop_first(), b.drop_first());
        if a[0] == b[0] && a.drop_first() == b.drop_first() {
            assert(a =~= seq![a[0]] + a.drop_first());
            assert(b =~= seq![b[0]] + b.drop_first());
        }
    } else if a.len() == 0 && b.len() == 0 {
        assert(a =~= b);
    }
    if a.len() > 0 {
        lemma_bytes_lt_total(a.drop_first(), a.drop_first());
    }
}

/// Compares two byte strings: negative where `a` comes first, zero where
/// they are equal, positive where `b` comes first.
pub fn compare_bytes(a: &[u8], b: &[u8]) -> (r: i8)
    ensures
        r < 0 <==> bytes_lt(a@, b@),
        r == 0 <==> a@ == b@,
        r > 0 <==> bytes_lt(b@, a@),
{
    let mut i: usize = 0;
    assert(a@.skip(0) =~= a@);
    assert(b@.skip(0) =~= b@);
    while i < a.len() && i < b.len()
        invariant
            i <= a@.len(),
            i <= b@.len(),
            a@.take(i as int) == b@.take(i as int),
            bytes_lt(a@, b@) == bytes_lt(a@.skip(i as int), b@.skip(i as int)),
            bytes_lt(b@, a@) == bytes_lt(b@.skip(i as int), a@.skip(i as int)),
        decreases a@.len() - i,
    {
        if a[i] != b[i] {
            proof {
                lemma_bytes_lt_total(a@, b@);
                if a@ == b@ {
                    assert(a@[i as int] == b@[i as int]);
                }
            }
            if a[i] < b[i] {
                return -1;
            } else {
                return 1;
            }
        }
        assert(a@.skip(i as int).drop_first() =~= a@.skip(i + 1));
        assert(b@.skip(i as int).drop_first() =~= b@.skip(i + 1));
        assert(a@.take(i + 1) =~= a@.take(i as int).push(a@[i as int]));
        assert(b@.take(i + 1) =~= b@.take(i as int).push(b@[i as int]));
        i += 1;
    }
    proof {
        lemma_bytes_lt_total(a@, b@);
        if a@.len() == b@.len() {
            assert(a@ =~= a@.take(i as int));
            assert(b@ =~= b@.take(i as int));
        } else {
            if a@ == b@ {
                assert(a@.len() == b@.len());
            }
        }
    }
    if a.len() < b.len() {
        -1
    } else if a.len() > b.len() {
        1
    } else {
        0
    }
}

/// Whether the keys of `entries` ascend strictly, each above the one before.
pub open spec fn keys_ascending(entries: Seq<(Vec<u8>, u64)>) -> bool {
    forall|i: int| 0 < i < entries.len() ==> bytes_lt(entries[i - 1].0@, #[trigger] entries[i].0@)
}

/// Relies on `fst::Map::from_iter`: keys given in strictly ascending byte
/// order are accepted, and the automaton maps each to its value.
#[verifier::external_body]
pub(crate) fn fst_from_sorted(entries: &Vec<(Vec<u8>, u64)>) -> (r: Result<fst::Map<Vec<u8>>, fst::Error>)
    ensures
        keys_ascending(entries@) ==> r is Ok,
        r is Ok ==> fst_readable(r->Ok_0),
        keys_ascending(entries@) ==> forall|i: int| 0 <= i < entries@.len()
            ==> #[trigger] fst_entries(r->Ok_0).contains_key(entries@[i].0@)
                && fst_entries(r->Ok_0)[entries@[i].0@] == entries@[i].1,
        keys_ascending(entries@) ==> forall|k: Seq<u8>| #[trigger] fst_entries(r->Ok_0).contains_key(k)
            ==> exists|i: int| 0 <= i < entries@.len() && entries@[i].0@ == k,
{
    fst::Map::from_iter(entries.iter().map(|e| (&e.0, e.1)))
}

/// Relies on `fst::Map::get`: the value of `key`, if it is a key.
#[verifier::external_body]
pub(crate) fn fst_get(m: &fst::Map<Vec<u8>>, key: &[u8]) -> (r: Option<u64>)
    requires
        fst_readable(*m),
    ensures
        r is Some <==> fst_entries(*m).contains_key(key@),
        r is Some ==> r->0 == fst_entries(*m)[key@],
{
    m.get(key)
}

/// Relies on `fst::raw::Fst::to_vec`: a copy of the automaton's bytes.
#[verifier::external_body]
pub(crate) fn fst_to_bytes(m: &fst::Map<Vec<u8>>) -> (r: Vec<u8>)
    ensures
        fst_readable(*m) ==> fst_image(r@) == Some(fst_entries(*m)),
{
    m.as_fst().to_vec()
}

/// Relies on `fst::Map::new`: it accepts or refuses bytes by their header,
/// and bytes that the builder wrote are accepted and read back as the
/// automaton they hold.
#[verifier::external_body]
pub(crate) fn fst_from_bytes(b: Vec<u8>) -> (r: Result<fst::Map<Vec<u8>>, fst::Error>)
    ensures
        r is Ok <==> fst_accepts(b@),
        fst_image(b@) is Some ==> r is Ok,
        fst_image(b@) is Some ==> fst_readable(r->Ok_0),
        fst_image(b@) is Some ==> fst_entries(r->Ok_0) == fst_image(b@)->0,
{
    fst::Map::new(b)
}

} // verus!
