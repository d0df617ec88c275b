//! Trusted interface to the `fst` crate: building a finite-state transducer
//! map from sorted byte keys to integer values, and streaming fuzzy and
//! prefix queries against its serialized bytes.

use fst::automaton::Automaton;
use fst::{IntoStreamer, Streamer};
use vstd::prelude::*;
use vstd::utf8::encode_utf8;

use crate::order::lex_lt;

verus! {

/// A query error.
#[derive(Debug, PartialEq, Eq)]
pub enum SearchError {
    /// The index bytes do not parse, or a stored reference points outside
    /// the index.
    CorruptIndex,
    /// A query term was too large for the fuzzy automaton.
    QueryTooComplex,
}

/// A build error.
#[derive(Debug, PartialEq, Eq)]
pub enum BuildError {
    /// Keys were handed to the transducer builder out of order.
    KeyOrder,
}

#[verifier::external_type_specification]
#[verifier::external_body]
#[verifier::reject_recursive_types(W)]
pub struct ExMapBuilder<W>(fst::MapBuilder<W>);

/// The key/value pairs inserted into a transducer builder so far, in
/// insertion order.
pub uninterp spec fn fst_builder_model(b: fst::MapBuilder<Vec<u8>>) -> Seq<(Seq<u8>, u64)>;

/// The key/value pairs stored in serialized transducer bytes, in ascending
/// key order; `None` when the bytes fail the library's container and
/// integrity checks.  The library verifies nothing deeper than those checks,
/// so the entry list is meaningful only for bytes its builder produced
/// ([`fst_safe`]); elsewhere it is unspecified.
pub uninterp spec fn fst_parse(bytes: Seq<u8>) -> Option<Seq<(Seq<u8>, u64)>>;

/// The byte strings the transducer builder can produce.  The fst library
/// checks only the container header and checksum when opening a map and
/// does not verify the node structure it traverses, so only on these bytes
/// is streaming known to return normally; the search wrappers promise
/// results and classified failures only under this condition.
pub uninterp spec fn fst_safe(bytes: Seq<u8>) -> bool;

/// Whether `key` is within Levenshtein distance 1 of `term`; names the
/// acceptance of `fst::automaton::Levenshtein::new(term, 1)`.
pub uninterp spec fn lev1_match(term: Seq<char>, key: Seq<u8>) -> bool;

/// Whether the distance-1 automaton for `term` fits the library's fixed
/// state limit; names the success of `fst::automaton::Levenshtein::new`,
/// whose deterministic construction depends on the term alone.
pub uninterp spec fn lev1_feasible(term: Seq<char>) -> bool;

/// Whether `p` is a prefix of `s`.
pub open spec fn is_prefix(p: Seq<u8>, s: Seq<u8>) -> bool {
    p.len() <= s.len() && s.take(p.len() as int) == p
}

/// Relies on fst::MapBuilder::memory: a fresh builder holds nothing.
#[verifier::external_body]
pub fn fst_builder_new() -> (b: fst::MapBuilder<Vec<u8>>)
    ensures
        fst_builder_model(b) == Seq::<(Seq<u8>, u64)>::empty(),
{
    fst::MapBuilder::memory()
}

/// Relies on fst::MapBuilder::insert: it appends the pair when the key is
/// strictly greater than every key inserted before, and otherwise fails
/// without changing the builder (the in-memory writer itself cannot fail).
#[verifier::external_body]
pub fn fst_insert(b: &mut fst::MapBuilder<Vec<u8>>, key: &Vec<u8>, val: u64) -> (r: Result<(), BuildError>)
    ensures
        ({
            let m = fst_builder_model(*old(b));
            m.len() == 0 || lex_lt(m.last().0, key@)
        }) <==> r is Ok,
        r is Ok ==> fst_builder_model(*final(b)) == fst_builder_model(*old(b)).push((key@, val)),
        r is Err ==> fst_builder_model(*final(b)) == fst_builder_model(*old(b)),
{
    b.insert(key.as_slice(), val).map_err(|_| BuildError::KeyOrder)
}

/// Relies on fst::MapBuilder::into_inner: the finished bytes open and pass
/// the integrity check, parse back to exactly the inserted pairs, and are
/// safe to traverse (the in-memory writer cannot fail).
#[verifier::external_body]
pub fn fst_finish(b: fst::MapBuilder<Vec<u8>>) -> (r: Vec<u8>)
    ensures
        fst_parse(r@) == Some(fst_builder_model(b)),
        fst_safe(r@),
{
    b.into_inner().expect("writing a transducer to memory cannot fail")
}

/// Relies on fst::Map::new, fst::raw::Fst::verify and
/// fst::automaton::Levenshtein.  Bytes that fail the container or integrity
/// checks are `CorruptIndex`; a term beyond the automaton's state limit is
/// `QueryTooComplex` (checked before any traversal).  On builder-produced
/// bytes the search returns exactly the stored pairs whose keys match, in
/// key order; on other bytes that pass the checks the library's unverified
/// traversal decides, and nothing more is promised.
#[verifier::external_body]
pub fn fst_fuzzy_hits(bytes: &Vec<u8>, term: &String) -> (r: Result<Vec<(Vec<u8>, u64)>, SearchError>)
    ensures
        fst_parse(bytes@) is None ==> (r is Err && r->Err_0 == SearchError::CorruptIndex),
        (r is Err && r->Err_0 == SearchError::CorruptIndex) ==> fst_parse(bytes@) is None,
        r is Ok ==> fst_parse(bytes@) is Some,
        (fst_parse(bytes@) is Some && !lev1_feasible(term@)) <==> (r is Err && r->Err_0
            == SearchError::QueryTooComplex),
        (fst_safe(bytes@) && fst_parse(bytes@) is Some && lev1_feasible(term@)) ==> r is Ok,
        fst_safe(bytes@) ==> (r matches Ok(hits) ==> hits.deep_view() == fst_parse(
            bytes@,
        ).unwrap().filter(|e: (Seq<u8>, u64)| lev1_match(term@, e.0))),
{
    let map = match fst::Map::new(bytes.as_slice()) {
        Ok(m) => m,
        Err(_) => return Err(SearchError::CorruptIndex),
    };
    if map.as_fst().verify().is_err() {
        return Err(SearchError::CorruptIndex);
    }
    let aut = match fst::automaton::Levenshtein::new(term.as_str(), 1) {
        Ok(a) => a,
        Err(_) => return Err(SearchError::QueryTooComplex),
    };
    Ok(map.search(&aut).into_stream().into_byte_vec())
}

/// Relies on fst::Map::new, fst::raw::Fst::verify and
/// fst::automaton::Str::starts_with.  Bytes that fail the container or
/// integrity checks are `CorruptIndex`; on builder-produced bytes the search
/// returns exactly the stored pairs whose keys start with the term's bytes,
/// in key order; on other bytes that pass the checks the library's
/// unverified traversal decides, and nothing more is promised.
#[verifier::external_body]
pub fn fst_prefix_hits(bytes: &Vec<u8>, term: &String) -> (r: Result<Vec<(Vec<u8>, u64)>, SearchError>)
    ensures
        fst_parse(bytes@) is None ==> (r is Err && r->Err_0 == SearchError::CorruptIndex),
        r is Err ==> (r->Err_0 == SearchError::CorruptIndex && fst_parse(bytes@) is None),
        r is Ok ==> fst_parse(bytes@) is Some,
        (fst_safe(bytes@) && fst_parse(bytes@) is Some) ==> r is Ok,
        fst_safe(bytes@) ==> (r matches Ok(hits) ==> hits.deep_view() == fst_parse(
            bytes@,
        ).unwrap().filter(|e: (Seq<u8>, u64)| is_prefix(encode_utf8(term@), e.0))),
{
    let map = match fst::Map::new(bytes.as_slice()) {
        Ok(m) => m,
        Err(_) => return Err(SearchError::CorruptIndex),
    };
    if map.as_fst().verify().is_err() {
        return Err(SearchError::CorruptIndex);
    }
    let aut = fst::automaton::Str::new(term.as_str()).starts_with();
    Ok(map.search(&aut).into_stream().into_byte_vec())
}

} // verus!
