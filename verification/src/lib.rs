//! A small two-level key-value store: a mapping from project names to
//! sample names to filesystem paths, persisted as a JSON object of
//! objects of strings.
//!
//! All names and paths are handled as byte strings; the surrounding
//! binary converts between text and bytes at the process boundary.

use vstd::prelude::*;

pub mod bytes;
pub mod store;
pub mod json;
pub mod command;

verus! {

/// The reserved project (and sample) name `"DB"`, as bytes.
/// The entry `DB -> DB -> <path>` records the location of the backing file.
pub open spec fn db_key() -> Seq<u8> {
    seq![68u8, 66u8]
}

/// The reserved key `"DB"` as an executable byte vector.
pub fn db_key_vec() -> (r: Vec<u8>)
    ensures
        r@ == db_key(),
{
    let mut v: Vec<u8> = Vec::new();
    v.push(68u8);
    v.push(66u8);
    proof {
        assert(v@ =~= db_key());
    }
    v
}

} // verus!
