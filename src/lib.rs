//! Rewrites text between script variants by applying chains of
//! longest-prefix-match dictionaries.

pub mod automaton;
pub mod compiler;
pub mod config;
pub mod conversion;
pub mod delta;
pub mod dict_group;
pub mod dictionary;
pub mod error;
pub mod fst_dict;
pub mod segmentation;
pub mod serial;
pub mod text;

use conversion::{chain, ConversionChain};
use dictionary::{DictType, Dictionary};
use vstd::prelude::*;

verus! {

/// A converter: a named chain of dictionaries.
pub struct OpenCC {
    name: String,
    conversion_chain: ConversionChain,
}

impl OpenCC {
    /// The configuration's name.
    pub closed spec fn spec_name(&self) -> Seq<char> {
        self.name@
    }

    /// The dictionaries, in the order they are applied.
    pub closed spec fn dicts(&self) -> Seq<DictType> {
        self.conversion_chain.dicts()
    }

    /// Whether every dictionary is consistent.
    pub open spec fn wf(&self) -> bool {
        forall|i: int| 0 <= i < self.dicts().len() ==> (#[trigger] self.dicts()[i]).wf()
    }

    /// A converter named `name` that applies `dictionaries` in order.
    pub fn new(name: String, dictionaries: Vec<DictType>) -> (r: Self)
        ensures
            r.spec_name() == name@,
            r.dicts() == dictionaries@,
    {
        OpenCC { name, conversion_chain: ConversionChain::new(dictionaries) }
    }

    /// `input` converted by each dictionary in turn.
    pub fn convert(&self, input: &str) -> (r: String)
        requires
            self.wf(),
        ensures
            r@ == chain(self.dicts(), input@),
    {
        self.conversion_chain.convert(input)
    }

    /// The configuration's name.
    pub fn name(&self) -> (r: &str)
        ensures
            r@ == self.spec_name(),
    {
        self.name.as_str()
    }
}

} // verus!
