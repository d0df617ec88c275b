//! A compact, self-contained full-text search index.
//!
//! The crate builds a fuzzy keyword-search index from a document corpus:
//! keywords are extracted per document ([`keywords`]), posting lists are
//! assembled behind a finite-state transducer over the keyword set
//! ([`index`], [`fst_map`]), and the document strings are compressed into a
//! random-access column ([`column`]).  The finished index serializes to a
//! deterministic byte format with a proved round trip ([`codec`]), queries
//! run fuzzy and prefix matches with saturating score accumulation
//! ([`search`]), and an assembler patches the serialized index into a
//! prebuilt WebAssembly module so that the module boots with the index
//! already resident in linear memory ([`assembler`]).

pub mod assembler;
pub mod codec;
pub mod column;
pub mod fst_map;
pub mod index;
pub mod keywords;
pub mod leb;
pub mod order;
pub mod search;
pub mod text;

use vstd::prelude::*;

verus! {

/// Saturating addition on byte-sized scores: the sum clamps at 255.
pub fn saturating_add_u8(a: u8, b: u8) -> (r: u8)
    ensures
        r == if a + b <= 255 {
            a + b
        } else {
            255u8 as int
        },
{
    if a as u16 + b as u16 <= 255 {
        a + b
    } else {
        255
    }
}

} // verus!
