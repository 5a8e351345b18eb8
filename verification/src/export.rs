//! From the decoded tree to a JSON value of `serde_json`.
//!
//! A component becomes an object. A field becomes an entry of it: the tag in
//! decimal is the key, the text the value. A group becomes an entry too: its
//! count tag is the key, and the value is the array of its instances, each an
//! object of its own. The entries keep the order of the tree.

use crate::message::FixMessage;
use crate::text::{int_text, int_to_string};
use crate::tree::{Entity, FixComponent, FixEntity};
use vstd::prelude::*;

verus! {

/// A JSON value as a mathematical value, as far as the export goes.
pub enum Json {
    /// A string.
    Text(Seq<char>),
    /// An array.
    List(Seq<Json>),
    /// An object: its entries in their order, with no key twice.
    Object(Seq<(Seq<char>, Json)>),
    /// Any other value.
    Other,
}

#[verifier::external_type_specification]
#[verifier::external_body]
pub struct ExValue(serde_json::Value);

#[verifier::external_type_specification]
#[verifier::external_body]
#[verifier::reject_recursive_types(K)]
#[verifier::reject_recursive_types(V)]
pub struct ExMap<K, V>(serde_json::Map<K, V>);

/// What a `serde_json::Value` holds.
pub uninterp spec fn json_of(value: serde_json::Value) -> Json;

/// The entries that a `serde_json::Map` holds, in the order in which it
/// hands them out.
pub uninterp spec fn entries_of(map: serde_json::Map<String, serde_json::Value>) -> Seq<
    (Seq<char>, Json),
>;

/// The index of the entry of `entries` with the key `key`; the length of
/// `entries` where there is none.
pub open spec fn key_index(entries: Seq<(Seq<char>, Json)>, key: Seq<char>) -> int
    decreases entries.len(),
{
    if entries.len() == 0 {
        0
    } else if entries[0].0 == key {
        0
    } else {
        1 + key_index(entries.drop_first(), key)
    }
}

/// The entries after `key` is set to `value`: an entry with that key keeps
/// its place and gets the value, a new key goes to the end.
pub open spec fn insert_entry(entries: Seq<(Seq<char>, Json)>, key: Seq<char>, value: Json) -> Seq<
    (Seq<char>, Json),
> {
    let i = key_index(entries, key);
    if i < entries.len() {
        entries.update(i, (key, value))
    } else {
        entries.push((key, value))
    }
}

/// The entry that a node becomes.
pub open spec fn export_entity(e: Entity) -> (Seq<char>, Json)
    decreases e, 0nat,
{
    match e {
        Entity::Field(tag, value) => (int_text(tag as int), Json::Text(value)),
        Entity::Group(group) => (
            int_text(group.count_tag as int),
            Json::List(
                Seq::new(
                    group.instances.len(),
                    |i: int|
                        if 0 <= i < group.instances.len() {
                            Json::Object(
                                export_entries(group.instances[i], group.instances[i].len()),
                            )
                        } else {
                            Json::Other
                        },
                ),
            ),
        ),
    }
}

/// The entries that the first `n` nodes of `c` become, set one after the
/// other.
pub open spec fn export_entries(c: Seq<Entity>, n: nat) -> Seq<(Seq<char>, Json)>
    decreases c, n,
{
    if n == 0 || n > c.len() {
        Seq::empty()
    } else {
        let entry = export_entity(c[n - 1]);
        insert_entry(export_entries(c, (n - 1) as nat), entry.0, entry.1)
    }
}

/// The JSON value that a tree is exported as.
pub open spec fn export(root: Seq<Entity>) -> Json {
    Json::Object(export_entries(root, root.len()))
}

/// Wraps a string as `serde_json::Value::String`, which holds that string.
#[verifier::external_body]
fn json_string(s: String) -> (value: serde_json::Value)
    ensures
        json_of(value) == Json::Text(s@),
{
    serde_json::Value::String(s)
}

/// Wraps values as `serde_json::Value::Array`, which holds them in their
/// order.
#[verifier::external_body]
fn json_array(items: Vec<serde_json::Value>) -> (value: serde_json::Value)
    ensures
        json_of(value) == Json::List(items@.map_values(|item: serde_json::Value| json_of(item))),
{
    serde_json::Value::Array(items)
}

/// Wraps a map as `serde_json::Value::Object`, which holds the map's entries.
#[verifier::external_body]
fn json_object(map: serde_json::Map<String, serde_json::Value>) -> (value: serde_json::Value)
    ensures
        json_of(value) == Json::Object(entries_of(map)),
{
    serde_json::Value::Object(map)
}

/// `serde_json::Map::new` makes a map without entries.
#[verifier::external_body]
fn map_new() -> (map: serde_json::Map<String, serde_json::Value>)
    ensures
        entries_of(map) == Seq::<(Seq<char>, Json)>::empty(),
{
    serde_json::Map::new()
}

/// `serde_json::Map::insert`, with the crate's feature `preserve_order`: the
/// map is then an `IndexMap`, in which the value of a key that is there is
/// replaced in its place, and a new key goes last.
#[verifier::external_body]
fn map_insert(
    map: &mut serde_json::Map<String, serde_json::Value>,
    key: String,
    value: serde_json::Value,
)
    ensures
        entries_of(*final(map)) == insert_entry(entries_of(*old(map)), key@, json_of(value)),
{
    map.insert(key, value);
}

impl FixComponent {
    /// The JSON object that this component is exported as.
    pub fn serialize(&self) -> (value: serde_json::Value)
        ensures
            json_of(value) == export(self@),
        decreases self,
    {
        let mut map = map_new();
        let n = self.entities.len();
        let mut i: usize = 0;
        while i < n
            invariant
                i <= n,
                n == self.entities.len(),
                entries_of(map) == export_entries(self@, i as nat),
            decreases n - i,
        {
            match &self.entities[i] {
                FixEntity::Field(tag, value) => {
                    assert(export_entity(self@[i as int]) == (
                        int_text(*tag as int),
                        Json::Text(value@),
                    ));
                    map_insert(&mut map, int_to_string(*tag), json_string(value.clone()));
                },
                FixEntity::Group(group) => {
                    let mut items: Vec<serde_json::Value> = Vec::new();
                    let m = group.instances.len();
                    let mut j: usize = 0;
                    while j < m
                        invariant
                            j <= m,
                            m == group.instances.len(),
                            i < n,
                            n == self.entities.len(),
                            self.entities[i as int] == FixEntity::Group(*group),
                            items.len() == j,
                            forall|k: int|
                                0 <= k < j ==> json_of(#[trigger] items[k]) == export(
                                    group.instances[k]@,
                                ),
                        decreases m - j,
                    {
                        proof {
                            assert(decreases_to!(self.entities[i as int] => self.entities[i as int]->Group_0));
                        }
                        items.push(group.instances[j].serialize());
                        j += 1;
                    }
                    let list = json_array(items);
                    proof {
                        let entry = export_entity(self@[i as int]);
                        assert(entry.1->List_0 =~= items@.map_values(
                            |item: serde_json::Value| json_of(item),
                        ));
                    }
                    map_insert(&mut map, int_to_string(group.no_tag), list);
                },
            }
            i += 1;
        }
        json_object(map)
    }
}

impl FixMessage {
    /// The message as a JSON value.
    ///
    /// For `8=FIX.4.4|555=2|600=CGY|604=2|605=F7|605=CGYU0|600=CGY|10=209`
    /// this is
    ///
    /// ```text
    /// {"8":"FIX.4.4","555":[{"600":"CGY","604":[{"605":"F7"},{"605":"CGYU0"}]},{"600":"CGY"}],"10":"209"}
    /// ```
    pub fn to_json(&self) -> (value: serde_json::Value)
        ensures
            json_of(value) == export(self@),
    {
        self.root().serialize()
    }
}

} // verus!
