//! The whole mushaf as one ordered verse list, read straight from the
//! document.

use vstd::prelude::*;
use crate::json::Json;
use crate::json::JsonV;
use crate::json::json_parse;
use crate::json::parse_json;
use crate::sdk::all_verses;
use crate::sdk::chapters_from_json;
use crate::sdk::flatten;
use crate::sdk::is_mushaf_of;
use crate::sdk::lemma_mushaf_unique;
pub use crate::sdk::VerseRef;
use crate::sdk::Chapter;

verus! {

/// The mushaf of the document `root` (see `is_mushaf_of`).
pub open spec fn mushaf_of(root: JsonV) -> Seq<Chapter> {
    choose|chapters: Seq<Chapter>| is_mushaf_of(chapters, root)
}

/// The ordered verse list of the document `root`: chapter by chapter in
/// ascending number, each chapter's verses in order.
pub fn verses_from_json(root: &Json) -> (verses: Vec<VerseRef>)
    ensures
        verses@ == all_verses(mushaf_of(root@)),
{
    let chapters = chapters_from_json(root);
    proof {
        lemma_mushaf_unique(chapters@, mushaf_of(root@), root@);
    }
    flatten(&chapters)
}

/// Read the ordered verse list out of the mushaf document `raw`; `None` when
/// `raw` is not valid JSON.
pub fn parse_verses(raw: &str) -> (res: Option<Vec<VerseRef>>)
    ensures
        match json_parse(raw@) {
            Some(root) => res matches Some(verses) && verses@ == all_verses(mushaf_of(root)),
            None => res is None,
        },
{
    match parse_json(raw) {
        Some(root) => Some(verses_from_json(&root)),
        None => None,
    }
}

} // verus!
