//! Rewriting text by an ordered chain of dictionaries.

use crate::dictionary::{DictType, Dictionary};
use crate::text::{chars_of, string_of};
use vstd::prelude::*;
use vstd::slice::slice_to_vec;

verus! {

/// One pass of `d` over `t`, left to right: where a key with at least one
/// candidate starts, its first candidate replaces it; elsewhere one
/// character is kept as it is.
pub open spec fn pass(d: DictType, t: Seq<char>) -> Seq<char>
    decreases t.len(),
{
    if t.len() == 0 {
        Seq::empty()
    } else {
        match d.spec_match(t) {
            Some((n, cands)) => if 0 < n <= t.len() && cands.len() > 0 {
                cands[0] + pass(d, t.skip(n as int))
            } else {
                seq![t[0]] + pass(d, t.skip(1))
            },
            None => seq![t[0]] + pass(d, t.skip(1)),
        }
    }
}

/// Whether the pass of `d` over `t` replaces anything.
pub open spec fn substitutes(d: DictType, t: Seq<char>) -> bool
    decreases t.len(),
{
    if t.len() == 0 {
        false
    } else {
        match d.spec_match(t) {
            Some((n, cands)) => if 0 < n <= t.len() && cands.len() > 0 {
                true
            } else {
                substitutes(d, t.skip(1))
            },
            None => substitutes(d, t.skip(1)),
        }
    }
}

/// The passes of `ds` applied to `t` one after another, in order.
pub open spec fn chain(ds: Seq<DictType>, t: Seq<char>) -> Seq<char>
    decreases ds.len(),
{
    if ds.len() == 0 {
        t
    } else {
        pass(ds.last(), chain(ds.drop_last(), t))
    }
}

/// A pass that replaces nothing leaves the text as it was.
pub proof fn lemma_unchanged_without_substitution(d: DictType, t: Seq<char>)
    requires
        !substitutes(d, t),
    ensures
        pass(d, t) == t,
    decreases t.len(),
{
    if t.len() > 0 {
        lemma_unchanged_without_substitution(d, t.skip(1));
        assert(seq![t[0]] + t.skip(1) =~= t);
    }
}

/// Applies dictionaries to text in order, one full pass each.
pub struct ConversionChain {
    dictionaries: Vec<DictType>,
}

impl ConversionChain {
    /// The dictionaries, in the order they are applied.
    pub closed spec fn dicts(&self) -> Seq<DictType> {
        self.dictionaries@
    }

    /// Whether every dictionary is consistent.
    pub open spec fn wf(&self) -> bool {
        forall|i: int| 0 <= i < self.dicts().len() ==> (#[trigger] self.dicts()[i]).wf()
    }

    /// A chain that applies `dictionaries` in order.
    pub fn new(dictionaries: Vec<DictType>) -> (r: Self)
        ensures
            r.dicts() == dictionaries@,
    {
        ConversionChain { dictionaries }
    }

    /// `text` after the pass of every dictionary, each pass working on what
    /// the one before produced.
    pub fn convert(&self, text: &str) -> (r: String)
        requires
            self.wf(),
        ensures
            r@ == chain(self.dicts(), text@),
    {
        let mut cur = chars_of(text);
        let mut i: usize = 0;
        while i < self.dictionaries.len()
            invariant
                self.wf(),
                i <= self.dictionaries@.len(),
                cur@ == chain(self.dicts().take(i as int), text@),
            decreases self.dictionaries@.len() - i,
        {
            assert(self.dicts()[i as int].wf());
            let ghost before = cur@;
            if let Some(next) = Self::apply_dict(&cur, &self.dictionaries[i]) {
                cur = next;
            }
            assert(self.dicts().take(i + 1).drop_last() =~= self.dicts().take(i as int));
            i += 1;
        }
        assert(self.dicts().take(self.dictionaries@.len() as int) =~= self.dicts());
        string_of(cur.as_slice())
    }

    /// One pass of `dict` over `text`. Returns `None` where nothing was
    /// replaced, so that the text stands as it is without a copy; else the
    /// rewritten text, built from the first replacement on.
    pub fn apply_dict(text: &Vec<char>, dict: &DictType) -> (r: Option<Vec<char>>)
        requires
            dict.wf(),
        ensures
            r is None <==> !substitutes(*dict, text@),
            r is None ==> pass(*dict, text@) == text@,
            r is Some ==> r->0@ == pass(*dict, text@),
    {
        let mut result: Option<Vec<char>> = None;
        let mut i: usize = 0;
        assert(text@.skip(0) =~= text@);
        assert(text@.take(0) + pass(*dict, text@) =~= pass(*dict, text@));
        while i < text.len()
            invariant
                dict.wf(),
                i <= text@.len(),
                result is None ==> pass(*dict, text@) == text@.take(i as int) + pass(*dict, text@.skip(i as int)),
                result is None ==> (substitutes(*dict, text@) == substitutes(*dict, text@.skip(i as int))),
                result is Some ==> pass(*dict, text@) == result->0@ + pass(*dict, text@.skip(i as int)),
                result is Some ==> substitutes(*dict, text@),
            decreases text@.len() - i,
        {
            let ghost rest = text@.skip(i as int);
            let m = dict.match_at(text.as_slice(), i);
            let mut replaced = false;
            match m {
                Some((n, vals)) => {
                    if vals.len() > 0 {
                        assert(vals@.map_values(|s: String| s@)[0] == vals@[0]@);
                        let mut out = match result {
                            None => slice_to_vec(&text.as_slice()[0..i]),
                            Some(v) => v,
                        };
                        let mut add = chars_of(vals[0].as_str());
                        out.append(&mut add);
                        assert(rest.skip(n as int) =~= text@.skip(i + n));
                        assert(text@.subrange(0, i as int) =~= text@.take(i as int));
                        result = Some(out);
                        i += n;
                        replaced = true;
                    }
                },
                None => {},
            }
            if !replaced {
                assert(rest.skip(1) =~= text@.skip(i + 1));
                assert(text@.take(i as int).push(text@[i as int]) =~= text@.take(i + 1));
                match result {
                    None => {},
                    Some(mut v) => {
                        v.push(text[i]);
                        result = Some(v);
                    },
                }
                i += 1;
            }
        }
        proof {
            assert(text@.skip(text@.len() as int).len() == 0);
            assert(text@.take(text@.len() as int) =~= text@);
            if result is None {
                lemma_unchanged_without_substitution(*dict, text@);
            }
        }
        result
    }
}

} // verus!
