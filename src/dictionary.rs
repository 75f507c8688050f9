//! Longest-prefix-match dictionaries and what they have in common.

use crate::dict_group::DictGroup;
use crate::fst_dict::FstDict;
use crate::text::string_of;
use vstd::prelude::*;

verus! {

/// A dictionary's contents: each key with its candidate replacements, the
/// preferred one first.
pub type DictView = Map<Seq<char>, Seq<Seq<char>>>;

/// What a lookup found: the length of the matched key in characters, and
/// its candidates.
pub type MatchView = Option<(nat, Seq<Seq<char>>)>;

/// The views of a sequence of strings.
pub open spec fn strings_view(v: Seq<String>) -> Seq<Seq<char>> {
    v.map_values(|s: String| s@)
}

/// The length of the longest key of `dict` that is one of the first `n`
/// prefixes of `w`, or 0 where there is none.
pub open spec fn best_len(dict: DictView, w: Seq<char>, n: int) -> nat
    decreases n,
{
    if n <= 0 {
        0
    } else if n <= w.len() && dict.contains_key(w.take(n)) {
        n as nat
    } else {
        best_len(dict, w, n - 1)
    }
}

/// The longest key of `dict` that is a prefix of `w`, with its candidates.
pub open spec fn longest_match(dict: DictView, w: Seq<char>) -> MatchView {
    let n = best_len(dict, w, w.len() as int);
    if n == 0 {
        None
    } else {
        Some((n, dict[w.take(n as int)]))
    }
}

/// The length of the matched key, or 0 where nothing matched.
pub open spec fn match_len(m: MatchView) -> nat {
    match m {
        Some((n, _)) => n,
        None => 0,
    }
}

/// Whether `r` reports the match `m` found at the start of `w`.
pub open spec fn reports_match(r: Option<(String, Vec<String>)>, w: Seq<char>, m: MatchView) -> bool {
    match (r, m) {
        (None, None) => true,
        (Some((key, vals)), Some((n, cands))) => key@ == w.take(n as int) && strings_view(vals@) == cands,
        _ => false,
    }
}

/// Whether `r` reports the match `m` by its length and candidates.
pub open spec fn reports_len_match(r: Option<(usize, Vec<String>)>, m: MatchView) -> bool {
    match (r, m) {
        (None, None) => true,
        (Some((len, vals)), Some((n, cands))) => len == n && strings_view(vals@) == cands,
        _ => false,
    }
}

/// Whether a reported match covers at least one character and stays within `w`.
pub open spec fn match_in_bounds(m: MatchView, w: Seq<char>) -> bool {
    m is Some ==> 0 < match_len(m) <= w.len()
}

/// Facts about the length `best_len` reports.
pub proof fn lemma_best_len_bounds(dict: DictView, w: Seq<char>, n: int)
    ensures
        best_len(dict, w, n) <= n || n <= 0,
        best_len(dict, w, n) <= w.len(),
        best_len(dict, w, n) > 0 ==> dict.contains_key(w.take(best_len(dict, w, n) as int)),
    decreases n,
{
    if n > 0 {
        lemma_best_len_bounds(dict, w, n - 1);
    }
}

/// The longest match is never shorter than any key that is a prefix of `w`.
pub proof fn lemma_best_len_maximal(dict: DictView, w: Seq<char>, n: int, k: int)
    requires
        0 < k <= n,
        k <= w.len(),
        dict.contains_key(w.take(k)),
    ensures
        best_len(dict, w, n) >= k,
    decreases n,
{
    if n > k {
        lemma_best_len_maximal(dict, w, n - 1, k);
    }
}

/// A reported match lies within the word it was found in.
pub proof fn lemma_longest_match_in_bounds(dict: DictView, w: Seq<char>)
    ensures
        match_in_bounds(longest_match(dict, w), w),
{
    lemma_best_len_bounds(dict, w, w.len() as int);
}

/// For every key `k` of a dictionary and any text that follows it, the
/// longest match on `k + rest` is `k` or a longer key that is also a
/// prefix of `k + rest`; never a shorter one.
pub proof fn lemma_longest_never_shorter(dict: DictView, k: Seq<char>, rest: Seq<char>)
    requires
        dict.contains_key(k),
        k.len() > 0,
    ensures
        longest_match(dict, k + rest) is Some,
        match_len(longest_match(dict, k + rest)) >= k.len(),
        dict.contains_key((k + rest).take(match_len(longest_match(dict, k + rest)) as int)),
{
    let w = k + rest;
    assert(w.take(k.len() as int) =~= k);
    lemma_best_len_maximal(dict, w, w.len() as int, k.len() as int);
    lemma_best_len_bounds(dict, w, w.len() as int);
}

/// Behaviour shared by every kind of dictionary: the longest key that
/// prefixes a word, and a bound on key length.
pub trait Dictionary {
    /// Whether the dictionary's internal state is consistent.
    spec fn wf(&self) -> bool;

    /// The match that a lookup at the start of `w` reports.
    spec fn spec_match(&self, w: Seq<char>) -> MatchView;

    /// The bound on key length, in characters, that the dictionary reports.
    spec fn spec_max_key_length(&self) -> nat;

    /// The match found at character position `pos` of `text`: the length
    /// of the key in characters, and its candidates.
    fn match_at(&self, text: &[char], pos: usize) -> (r: Option<(usize, Vec<String>)>)
        requires
            self.wf(),
            pos <= text@.len(),
        ensures
            reports_len_match(r, self.spec_match(text@.skip(pos as int))),
            match_in_bounds(self.spec_match(text@.skip(pos as int)), text@.skip(pos as int)),
    ;

    /// The longest key that is a prefix of `word`, with its candidate
    /// replacements, or `None` where no key is a prefix of it.
    fn match_prefix(&self, word: &str) -> (r: Option<(String, Vec<String>)>)
        requires
            self.wf(),
        ensures
            reports_match(r, word@, self.spec_match(word@)),
    ;

    /// The bound on key length, in characters.
    fn max_key_length(&self) -> (r: usize)
        ensures
            r == self.spec_max_key_length(),
    ;
}

/// Turns a match reported by length at the start of `chars` into one
/// reported by key.
pub(crate) fn keyed_match(chars: &Vec<char>, m: Option<(usize, Vec<String>)>) -> (r: Option<(String, Vec<String>)>)
    ensures
        forall|mv: MatchView| #[trigger] reports_len_match(m, mv) && match_in_bounds(mv, chars@)
            ==> reports_match(r, chars@, mv),
{
    match m {
        None => None,
        Some((n, vals)) => {
            if n <= chars.len() {
                let key = string_of(&chars.as_slice()[0..n]);
                assert(chars@.subrange(0, n as int) =~= chars@.take(n as int));
                Some((key, vals))
            } else {
                None
            }
        },
    }
}

/// The dictionaries a conversion step can use: one backed by an automaton,
/// or a group of them.
pub enum DictType {
    Fst(FstDict),
    Group(DictGroup),
}

impl Dictionary for DictType {
    open spec fn wf(&self) -> bool {
        match self {
            DictType::Fst(d) => d.wf(),
            DictType::Group(g) => g.wf(),
        }
    }

    open spec fn spec_match(&self, w: Seq<char>) -> MatchView {
        match self {
            DictType::Fst(d) => d.spec_match(w),
            DictType::Group(g) => g.spec_match(w),
        }
    }

    open spec fn spec_max_key_length(&self) -> nat {
        match self {
            DictType::Fst(d) => d.spec_max_key_length(),
            DictType::Group(g) => g.spec_max_key_length(),
        }
    }

    fn match_at(&self, text: &[char], pos: usize) -> (r: Option<(usize, Vec<String>)>) {
        match self {
            DictType::Fst(d) => d.match_at(text, pos),
            DictType::Group(g) => g.match_at(text, pos),
        }
    }

    fn match_prefix(&self, word: &str) -> (r: Option<(String, Vec<String>)>) {
        match self {
            DictType::Fst(d) => d.match_prefix(word),
            DictType::Group(g) => g.match_prefix(word),
        }
    }

    fn max_key_length(&self) -> (r: usize) {
        match self {
            DictType::Fst(d) => d.max_key_length(),
            DictType::Group(g) => g.max_key_length(),
        }
    }
}

} // verus!
