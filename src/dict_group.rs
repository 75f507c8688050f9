//! A dictionary made of several others, answering with the longest match
//! among them.

use crate::dictionary::{
    keyed_match, lemma_longest_match_in_bounds, match_in_bounds, match_len, reports_len_match,
    DictType, Dictionary, MatchView,
};
use crate::fst_dict::FstDict;
use crate::text::chars_of;
use vstd::prelude::*;

verus! {

/// The first of the longest matches in `ms`: a later match replaces the one
/// kept so far only when it is strictly longer.
pub open spec fn first_longest(ms: Seq<MatchView>) -> MatchView
    decreases ms.len(),
{
    if ms.len() == 0 {
        None
    } else {
        let prev = first_longest(ms.drop_last());
        let cur = ms.last();
        if cur is Some && (prev is None || match_len(cur) > match_len(prev)) {
            cur
        } else {
            prev
        }
    }
}

/// Of a match kept so far and a later one, the one a scan keeps: the later
/// one only when it is strictly longer.
pub open spec fn keep_longer(p: MatchView, q: MatchView) -> MatchView {
    if q is Some && (p is None || match_len(q) > match_len(p)) {
        q
    } else {
        p
    }
}

proof fn lemma_keep_longer_assoc(a: MatchView, b: MatchView, c: MatchView)
    ensures
        keep_longer(a, keep_longer(b, c)) == keep_longer(keep_longer(a, b), c),
{
}

/// Scanning two sequences one after the other keeps what scanning each and
/// then combining the two results keeps.
proof fn lemma_first_longest_concat(a: Seq<MatchView>, b: Seq<MatchView>)
    ensures
        first_longest(a + b) == keep_longer(first_longest(a), first_longest(b)),
    decreases b.len(),
{
    if b.len() == 0 {
        assert(a + b =~= a);
    } else {
        assert((a + b).drop_last() =~= a + b.drop_last());
        lemma_first_longest_concat(a, b.drop_last());
        lemma_keep_longer_assoc(first_longest(a), first_longest(b.drop_last()), b.last());
    }
}

/// The matches that each of `dicts` reports at the start of `w`.
pub open spec fn type_matches(dicts: Seq<DictType>, w: Seq<char>) -> Seq<MatchView> {
    Seq::new(dicts.len(), |i: int| dicts[i].spec_match(w))
}

/// The largest bound among `dicts`, or 0 where there are none.
pub open spec fn max_type_bound(dicts: Seq<DictType>) -> nat
    decreases dicts.len(),
{
    if dicts.len() == 0 {
        0
    } else {
        let prev = max_type_bound(dicts.drop_last());
        let cur = dicts.last().spec_max_key_length();
        if cur > prev {
            cur
        } else {
            prev
        }
    }
}

proof fn lemma_max_bound_concat(a: Seq<FstDict>, b: Seq<FstDict>)
    ensures
        max_bound(a + b) == if max_bound(b) > max_bound(a) {
            max_bound(b)
        } else {
            max_bound(a)
        },
    decreases b.len(),
{
    if b.len() == 0 {
        assert(a + b =~= a);
    } else {
        assert((a + b).drop_last() =~= a + b.drop_last());
        lemma_max_bound_concat(a, b.drop_last());
    }
}

/// The matches that each of `dicts` reports at the start of `w`, in order.
pub open spec fn member_matches(dicts: Seq<FstDict>, w: Seq<char>) -> Seq<MatchView> {
    Seq::new(dicts.len(), |i: int| dicts[i].spec_match(w))
}

/// The largest of the bounds in `dicts`, or 0 where there are none.
pub open spec fn max_bound(dicts: Seq<FstDict>) -> nat
    decreases dicts.len(),
{
    if dicts.len() == 0 {
        0
    } else {
        let prev = max_bound(dicts.drop_last());
        let cur = dicts.last().spec_max_key_length();
        if cur > prev {
            cur
        } else {
            prev
        }
    }
}

proof fn lemma_first_longest_in_bounds(ms: Seq<MatchView>, w: Seq<char>)
    requires
        forall|i: int| 0 <= i < ms.len() ==> match_in_bounds(#[trigger] ms[i], w),
    ensures
        match_in_bounds(first_longest(ms), w),
    decreases ms.len(),
{
    if ms.len() > 0 {
        let p = ms.drop_last();
        assert forall|i: int| 0 <= i < p.len() implies match_in_bounds(#[trigger] p[i], w) by {
            assert(p[i] == ms[i]);
        }
        lemma_first_longest_in_bounds(p, w);
        assert(match_in_bounds(ms[ms.len() - 1], w));
    }
}

/// A group of dictionaries that behaves as one.
pub struct DictGroup {
    dicts: Vec<FstDict>,
    max_key_length: usize,
}

impl DictGroup {
    /// The stored bound is the largest of the members' bounds.
    #[verifier::type_invariant]
    spec fn bound_is_largest(self) -> bool {
        self.max_key_length == max_bound(self.dicts@)
    }
}

impl DictGroup {
    /// The member dictionaries, in order.
    pub closed spec fn members(&self) -> Seq<FstDict> {
        self.dicts@
    }

    /// Builds a group over `dicts`. A member that is itself a group adds
    /// its own members in its place, which changes no match: the group
    /// reports, at each word, the first of the longest matches that `dicts`
    /// report in order, and its bound on key length is the largest of theirs.
    pub fn new(dicts: Vec<DictType>) -> (r: Self)
        ensures
            forall|w: Seq<char>| #[trigger] r.spec_match(w) == first_longest(type_matches(dicts@, w)),
            r.spec_max_key_length() == max_type_bound(dicts@),
            (forall|i: int| 0 <= i < dicts@.len() ==> (#[trigger] dicts@[i]).wf()) ==> r.wf(),
    {
        let ghost ds = dicts@;
        let mut flat: Vec<FstDict> = Vec::new();
        let mut m: usize = 0;
        for d in it: dicts
            invariant
                it.seq() == ds,
                forall|w: Seq<char>| #[trigger] first_longest(member_matches(flat@, w))
                    == first_longest(type_matches(ds.take(it.index() as int), w)),
                m == max_bound(flat@),
                m == max_type_bound(ds.take(it.index() as int)),
                (forall|i: int| 0 <= i < ds.len() ==> (#[trigger] ds[i]).wf())
                    ==> forall|j: int| 0 <= j < flat@.len() ==> (#[trigger] flat@[j]).wf(),
        {
            let ghost i = it.index();
            let ghost old_flat = flat@;
            assert(ds.take(i + 1).drop_last() =~= ds.take(i as int));
            assert forall|w: Seq<char>| #[trigger] type_matches(ds.take(i + 1), w) =~= type_matches(ds.take(i as int), w).push(ds[i as int].spec_match(w)) by {}
            match d {
                DictType::Fst(f) => {
                    let b = f.max_key_length();
                    flat.push(f);
                    assert(flat@.drop_last() =~= old_flat);
                    assert forall|w: Seq<char>| #[trigger] first_longest(member_matches(flat@, w))
                        == first_longest(type_matches(ds.take(i + 1), w)) by {
                        let tm = type_matches(ds.take(i as int), w);
                        let mm = member_matches(old_flat, w);
                        assert(member_matches(flat@, w).drop_last() =~= mm);
                        assert(type_matches(ds.take(i + 1), w).drop_last() =~= tm);
                        assert(first_longest(mm) == first_longest(tm));
                    }
                    if b > m {
                        m = b;
                    }
                },
                DictType::Group(g) => {
                    proof {
                        use_type_invariant(&g);
                    }
                    let b = g.max_key_length;
                    let mut members = g.dicts;
                    let ghost added = members@;
                    flat.append(&mut members);
                    assert(flat@ =~= old_flat + added);
                    assert forall|w: Seq<char>| #[trigger] member_matches(flat@, w) =~= member_matches(old_flat, w) + member_matches(added, w) by {}
                    assert forall|w: Seq<char>| #[trigger] first_longest(member_matches(flat@, w))
                        == first_longest(type_matches(ds.take(i + 1), w)) by {
                        let tm = type_matches(ds.take(i as int), w);
                        let mm = member_matches(old_flat, w);
                        lemma_first_longest_concat(mm, member_matches(added, w));
                        assert(type_matches(ds.take(i + 1), w).drop_last() =~= tm);
                        assert(first_longest(mm) == first_longest(tm));
                        assert(g.spec_match(w) == first_longest(member_matches(added, w)));
                    }
                    proof {
                        lemma_max_bound_concat(old_flat, added);
                    }
                    if b > m {
                        m = b;
                    }
                },
            }
        }
        assert(ds.take(ds.len() as int) =~= ds);
        DictGroup { dicts: flat, max_key_length: m }
    }
}

impl Dictionary for DictGroup {
    closed spec fn wf(&self) -> bool {
        forall|i: int| 0 <= i < self.dicts@.len() ==> (#[trigger] self.dicts@[i]).wf()
    }

    open spec fn spec_match(&self, w: Seq<char>) -> MatchView {
        first_longest(member_matches(self.members(), w))
    }

    closed spec fn spec_max_key_length(&self) -> nat {
        max_bound(self.dicts@)
    }

    fn match_at(&self, text: &[char], pos: usize) -> (r: Option<(usize, Vec<String>)>) {
        let ghost w = text@.skip(pos as int);
        let ghost ms = member_matches(self.dicts@, w);
        let mut best: Option<(usize, Vec<String>)> = None;
        let mut i: usize = 0;
        while i < self.dicts.len()
            invariant
                self.wf(),
                pos <= text@.len(),
                w == text@.skip(pos as int),
                ms == member_matches(self.dicts@, w),
                i <= self.dicts.len(),
                reports_len_match(best, first_longest(ms.take(i as int))),
            decreases self.dicts.len() - i,
        {
            assert(self.dicts@[i as int].wf());
            let m = self.dicts[i].match_at(text, pos);
            let ghost prev = first_longest(ms.take(i as int));
            assert(ms.take(i + 1).drop_last() =~= ms.take(i as int));
            assert(ms.take(i + 1).last() == ms[i as int]);
            match m {
                None => {},
                Some((n, vals)) => {
                    let longer = match &best {
                        None => true,
                        Some((b, _)) => n > *b,
                    };
                    if longer {
                        best = Some((n, vals));
                    }
                },
            }
            i += 1;
        }
        proof {
            assert(ms.take(self.dicts@.len() as int) =~= ms);
            assert forall|j: int| 0 <= j < ms.len() implies match_in_bounds(#[trigger] ms[j], w) by {
                lemma_longest_match_in_bounds(self.dicts@[j]@, w);
            }
            lemma_first_longest_in_bounds(ms, w);
        }
        best
    }

    fn match_prefix(&self, word: &str) -> (r: Option<(String, Vec<String>)>) {
        let chars = chars_of(word);
        assert(chars@.skip(0) =~= chars@);
        let m = self.match_at(chars.as_slice(), 0);
        keyed_match(&chars, m)
    }

    fn max_key_length(&self) -> (r: usize) {
        proof {
            use_type_invariant(self);
        }
        self.max_key_length
    }
}

} // verus!
