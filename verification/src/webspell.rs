//! Spelling-correction results: a corrected sentence as a list of terms,
//! each kept as typed or replaced.

use vstd::prelude::*;

verus! {

/// A corrected sentence: the text as typed, and one entry per term.
#[derive(Debug, Clone)]
pub struct Correction {
    original: String,
    pub terms: Vec<CorrectionTerm>,
}

/// One term of a correction: replaced by a suggestion, or kept as typed.
#[derive(Debug, Clone)]
pub enum CorrectionTerm {
    Corrected { orig: String, correction: String },
    NotCorrected(String),
}

impl Correction {
    /// The text the correction was made for.
    pub closed spec fn original_spec(self) -> Seq<char> {
        self.original@
    }

    /// The terms of the correction, in order.
    pub closed spec fn terms_spec(self) -> Seq<CorrectionTerm> {
        self.terms@
    }

    /// A correction of `original` with no terms yet.
    pub fn empty(original: String) -> (r: Self)
        ensures
            r.original_spec() == original@,
            r.terms_spec() =~= Seq::<CorrectionTerm>::empty(),
    {
        Correction { original, terms: Vec::new() }
    }

    /// Appends one term.
    pub fn push(&mut self, term: CorrectionTerm)
        ensures
            final(self).terms_spec() == old(self).terms_spec().push(term),
            final(self).original_spec() == old(self).original_spec(),
    {
        self.terms.push(term);
    }

    /// Whether every term was kept as typed.
    pub fn is_all_orig(&self) -> (r: bool)
        ensures
            r == forall|i: int| 0 <= i < self.terms_spec().len() ==> self.terms_spec()[i] is NotCorrected,
    {
        let n = self.terms.len();
        let mut i: usize = 0;
        while i < n
            invariant
                i <= n,
                n == self.terms_spec().len(),
                forall|k: int| 0 <= k < i ==> self.terms_spec()[k] is NotCorrected,
            decreases n - i,
        {
            match &self.terms[i] {
                CorrectionTerm::Corrected { .. } => {
                    return false;
                },
                CorrectionTerm::NotCorrected(_) => {},
            }
            i = i + 1;
        }
        true
    }
}

} // verus!
