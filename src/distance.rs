use vstd::prelude::*;

use crate::error::VettoreError;

verus! {

/// The five ways a collection can compare vectors.
#[derive(Clone, Copy, Debug, PartialEq, Eq, Structural)]
pub enum Distance {
    Euclidean,
    Cosine,
    DotProduct,
    Hnsw,
    Binary,
}

/// The lower-case form of a string, as the standard library computes it.
pub uninterp spec fn lower_of(s: Seq<char>) -> Seq<char>;

/// Relies on `str::to_lowercase`: its result depends on the characters alone.
#[verifier::external_body]
fn lowercase(s: &str) -> (r: String)
    ensures
        r@ == lower_of(s@),
{
    s.to_lowercase()
}

/// The distance that a lower-case name denotes, if any.
pub open spec fn distance_named(t: Seq<char>) -> Option<Distance> {
    if t == "euclidean"@ || t == "l2"@ {
        Some(Distance::Euclidean)
    } else if t == "cosine"@ {
        Some(Distance::Cosine)
    } else if t == "dot"@ || t == "dotproduct"@ {
        Some(Distance::DotProduct)
    } else if t == "binary"@ || t == "hamming"@ {
        Some(Distance::Binary)
    } else if t == "hnsw"@ {
        Some(Distance::Hnsw)
    } else {
        None
    }
}

/// What parsing a lower-case name gives.
pub open spec fn parsed_distance(t: Seq<char>) -> Result<Distance, VettoreError> {
    match distance_named(t) {
        Some(d) => Ok(d),
        None => Err(VettoreError::UnknownDistance),
    }
}

fn same_text(a: &str, b: &str) -> (r: bool)
    ensures
        r == (a@ == b@),
{
    let x = a.to_owned();
    let y = b.to_owned();
    x == y
}

/// Recognises a distance name that is already in lower case.
pub fn distance_from_lowered(t: &str) -> (r: Result<Distance, VettoreError>)
    ensures
        r == parsed_distance(t@),
{
    if same_text(t, "euclidean") || same_text(t, "l2") {
        Ok(Distance::Euclidean)
    } else if same_text(t, "cosine") {
        Ok(Distance::Cosine)
    } else if same_text(t, "dot") || same_text(t, "dotproduct") {
        Ok(Distance::DotProduct)
    } else if same_text(t, "binary") || same_text(t, "hamming") {
        Ok(Distance::Binary)
    } else if same_text(t, "hnsw") {
        Ok(Distance::Hnsw)
    } else {
        Err(VettoreError::UnknownDistance)
    }
}

/// Recognises a distance name in any letter case.
pub fn distance_from_str(s: &str) -> (r: Result<Distance, VettoreError>)
    ensures
        r == parsed_distance(lower_of(s@)),
{
    let t = lowercase(s);
    distance_from_lowered(t.as_str())
}

} // verus!
