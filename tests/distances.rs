use vettore::distance::{distance_from_lowered, distance_from_str, Distance};
use vettore::error::VettoreError;

#[test]
fn every_name_is_recognised() {
    assert_eq!(distance_from_str("euclidean"), Ok(Distance::Euclidean));
    assert_eq!(distance_from_str("l2"), Ok(Distance::Euclidean));
    assert_eq!(distance_from_str("cosine"), Ok(Distance::Cosine));
    assert_eq!(distance_from_str("dot"), Ok(Distance::DotProduct));
    assert_eq!(distance_from_str("dotproduct"), Ok(Distance::DotProduct));
    assert_eq!(distance_from_str("binary"), Ok(Distance::Binary));
    assert_eq!(distance_from_str("hamming"), Ok(Distance::Binary));
    assert_eq!(distance_from_str("hnsw"), Ok(Distance::Hnsw));
}

#[test]
fn names_are_case_insensitive() {
    assert_eq!(distance_from_str("EUCLIDEAN"), Ok(Distance::Euclidean));
    assert_eq!(distance_from_str("CoSiNe"), Ok(Distance::Cosine));
    assert_eq!(distance_from_str("HNSW"), Ok(Distance::Hnsw));
    assert_eq!(distance_from_str("DotProduct"), Ok(Distance::DotProduct));
}

#[test]
fn unknown_names_are_refused() {
    assert_eq!(distance_from_str("manhattan"), Err(VettoreError::UnknownDistance));
    assert_eq!(distance_from_str(""), Err(VettoreError::UnknownDistance));
    assert_eq!(distance_from_str(" cosine"), Err(VettoreError::UnknownDistance));
}

#[test]
fn lowered_names_must_already_be_lower_case() {
    assert_eq!(distance_from_lowered("binary"), Ok(Distance::Binary));
    assert_eq!(distance_from_lowered("Binary"), Err(VettoreError::UnknownDistance));
}
