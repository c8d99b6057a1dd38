//! The membership snapshot: the entries that the pool holds at one moment,
//! each with the number of descendants that the node reports for it.

use vstd::prelude::*;

verus! {

#[verifier::external_type_specification]
#[verifier::external_body]
pub struct ExValue(serde_json::Value);

/// The integers of a JSON object: each key of the object under which an
/// integer in the range of `i64` stands, with that integer. Empty for a
/// value that is no object.
pub uninterp spec fn integer_members(metadata: serde_json::Value) -> Map<Seq<char>, i64>;

/// `serde_json::Value::get` with a string key and, on what it finds,
/// `serde_json::Value::as_i64`: the integer under `key` where the value is
/// an object that holds an integer in the range of `i64` there, `None` for
/// anything else.
#[verifier::external_body]
fn integer_member(metadata: &serde_json::Value, key: &str) -> (found: Option<i64>)
    ensures
        found == lookup(integer_members(*metadata), key@),
{
    metadata.get(key).and_then(serde_json::Value::as_i64)
}

/// The integer under `key`, if there is one.
pub open spec fn lookup(members: Map<Seq<char>, i64>, key: Seq<char>) -> Option<i64> {
    if members.contains_key(key) {
        Some(members[key])
    } else {
        None
    }
}

/// The descendant count among the integers of an entry's metadata.
pub open spec fn reported_count(members: Map<Seq<char>, i64>) -> Option<i64> {
    lookup(members, "descendantcount"@)
}

/// One entry of a membership snapshot.
pub struct PoolEntry {
    pub id: String,
    /// The descendant count that the node reports, `None` where it reports
    /// none that is an integer.
    pub descendant_count: Option<i64>,
}

/// The identifiers of a snapshot.
pub open spec fn member_ids(entries: Seq<PoolEntry>) -> Set<Seq<char>> {
    Set::new(|id: Seq<char>| exists|i: int| 0 <= i < entries.len() && (#[trigger] entries[i]).id@ == id)
}

/// An entry is worth a query when its descendant count is known and positive.
pub open spec fn qualifies(count: Option<i64>) -> bool {
    count is Some && count->0 > 0
}

impl PoolEntry {
    /// An entry with the given identifier and descendant count.
    pub fn new(id: String, descendant_count: Option<i64>) -> (entry: PoolEntry)
        ensures
            entry.id == id,
            entry.descendant_count == descendant_count,
    {
        PoolEntry { id, descendant_count }
    }

    /// The entry that the node's metadata describes.
    pub fn from_metadata(id: String, metadata: &serde_json::Value) -> (entry: PoolEntry)
        ensures
            entry.id == id,
            entry.descendant_count == reported_count(integer_members(*metadata)),
    {
        PoolEntry { id, descendant_count: integer_member(metadata, "descendantcount") }
    }

    /// Whether the entry has descendants to discover.
    pub fn has_descendants(&self) -> (yes: bool)
        ensures
            yes == qualifies(self.descendant_count),
    {
        match self.descendant_count {
            Some(count) => count > 0,
            None => false,
        }
    }
}

/// Whether `id` is an entry of the snapshot.
pub fn is_member(entries: &Vec<PoolEntry>, id: &String) -> (yes: bool)
    ensures
        yes == member_ids(entries@).contains(id@),
{
    let mut i: usize = 0;
    while i < entries.len()
        invariant
            i <= entries.len(),
            forall|j: int| 0 <= j < i ==> (#[trigger] entries[j]).id@ != id@,
        decreases entries.len() - i,
    {
        if entries[i].id == *id {
            return true;
        }
        i += 1;
    }
    false
}

} // verus!
