use vstd::prelude::*;

verus! {

/// One record fetched from the remote listing source: a stable unique
/// identifier, an optional categorical label, and a boolean flag.
/// Immutable once ingested by the collector.
pub struct Item {
    pub id: String,
    pub label: Option<String>,
    pub flag: bool,
}

/// No two items of the sequence share an identifier.
pub open spec fn ids_distinct(s: Seq<Item>) -> bool {
    forall|i: int, j: int| 0 <= i < j < s.len() ==> s[i].id@ != s[j].id@
}

/// Some item of the sequence has the given identifier.
pub open spec fn seq_contains_id(s: Seq<Item>, id: Seq<char>) -> bool {
    exists|i: int| 0 <= i < s.len() && s[i].id@ == id
}

/// The label under which an item is tallied: its own label where it has
/// one, otherwise the sentinel label for unlabeled items.
pub open spec fn item_key(it: Item) -> Seq<char> {
    match it.label {
        Some(l) => l@,
        None => "None"@,
    }
}

/// Whether an item takes part in a category tally: always when unlabeled
/// items are included, otherwise only when it carries a label.
pub open spec fn tallied(it: Item, include_unlabeled: bool) -> bool {
    include_unlabeled || it.label is Some
}

/// Looks an identifier up among the items collected so far.
pub fn contains_id(items: &Vec<Item>, id: &String) -> (r: bool)
    ensures
        r == seq_contains_id(items@, id@),
{
    let mut k: usize = 0;
    while k < items.len()
        invariant
            k <= items@.len(),
            forall|i: int| 0 <= i < k ==> items@[i].id@ != id@,
        decreases items@.len() - k,
    {
        if items[k].id == *id {
            return true;
        }
        k += 1;
    }
    false
}

/// The tally label of an item as an owned string.
pub fn key_of(it: &Item) -> (k: String)
    ensures
        k@ == item_key(*it),
{
    match &it.label {
        Some(l) => l.clone(),
        None => "None".to_owned(),
    }
}

} // verus!
