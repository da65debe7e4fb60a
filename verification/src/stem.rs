//! Term normalization through rust_stemmers. The stemmed form of a term is
//! given the name `stem_of`; every stemmer this crate builds runs the English
//! Snowball algorithm, so the result depends on the term alone.

use vstd::prelude::*;

verus! {

/// The stemmed form of a term, as the English Snowball stemmer computes it.
pub uninterp spec fn stem_of(term: Seq<char>) -> Seq<char>;

#[verifier::external_type_specification]
#[verifier::external_body]
pub struct ExStemmer(rust_stemmers::Stemmer);

/// Relies on rust_stemmers::Stemmer::create with Algorithm::English: builds
/// the English stemmer, the only one this crate ever constructs.
#[verifier::external_body]
pub(crate) fn english_stemmer() -> rust_stemmers::Stemmer {
    rust_stemmers::Stemmer::create(rust_stemmers::Algorithm::English)
}

/// Relies on rust_stemmers::Stemmer::stem: a pure function of the input term
/// (the stemmer passed in always runs the English algorithm, see above).
#[verifier::external_body]
pub(crate) fn stem_term(stemmer: &rust_stemmers::Stemmer, term: &str) -> (r: String)
    ensures
        r@ == stem_of(term@),
{
    stemmer.stem(term).into_owned()
}

} // verus!
