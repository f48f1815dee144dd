use vstd::prelude::*;

pub mod dictionary;
pub mod lang_map;
pub mod word;

pub use dictionary::{search_uuid, search_word, Dictionary};
pub use lang_map::{LangList, LangMap};
pub use word::{Query, Word, WordView};

verus! {

/// The text served at the root of the service, used as a liveness check.
pub fn index() -> (r: &'static str)
    ensures
        r@ == "Hello, world!"@,
{
    "Hello, world!"
}

} // verus!
