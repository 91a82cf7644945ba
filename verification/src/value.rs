//! The value tree that parsing builds.
use vstd::prelude::*;
use crate::token::{has_no_quote, is_number_literal, Number};

verus! {

/// A JSON value. Each composite value owns its children.
#[derive(Debug, PartialEq)]
pub enum JsonValue {
    JsonString(String),
    JsonNumber(Number),
    JsonObject(ObjectMap),
    JsonArray(Vec<JsonValue>),
    JsonBool(bool),
    JsonNull,
}

/// The members of an object: a map from key to value, kept as a list in the
/// order in which the keys first came. A list that `insert` built has no key
/// twice; where a list holds a key twice, the last member with it counts.
///
/// The derived `==` compares the lists; two maps with the same members in
/// another order have the same view and are not `==`.
#[derive(Debug, PartialEq)]
pub struct ObjectMap {
    pub entries: Vec<(String, JsonValue)>,
}

/// What a value is, in terms of mathematical sequences and maps.
pub ghost enum Json {
    Text(Seq<char>),
    Number(Seq<char>),
    Object(Map<Seq<char>, Json>),
    Array(Seq<Json>),
    Bool(bool),
    Null,
}

/// The map that a list of members stands for: each member written over the
/// ones before it, so that the last value given to a key is the one kept.
pub open spec fn members_map(entries: Seq<(String, JsonValue)>) -> Map<Seq<char>, Json>
    decreases entries, 1int,
{
    if entries.len() == 0 {
        Map::empty()
    } else {
        members_map(entries.drop_last()).insert(entries.last().0@, json_of(entries.last().1))
    }
}

/// The mathematical values of a sequence of values, in order.
pub open spec fn jsons_of(items: Seq<JsonValue>) -> Seq<Json>
    decreases items, 1int,
{
    Seq::new(
        items.len(),
        |i: int|
            if 0 <= i < items.len() {
                json_of(items[i])
            } else {
                Json::Null
            },
    )
}

/// The mathematical value of `v`.
pub open spec fn json_of(v: JsonValue) -> Json
    decreases v, 0int,
{
    match v {
        JsonValue::JsonString(s) => Json::Text(s@),
        JsonValue::JsonNumber(n) => Json::Number(n.literal@),
        JsonValue::JsonObject(m) => Json::Object(members_map(m.entries@)),
        JsonValue::JsonArray(items) => Json::Array(jsons_of(items@)),
        JsonValue::JsonBool(b) => Json::Bool(b),
        JsonValue::JsonNull => Json::Null,
    }
}

/// No two members have the same key.
pub open spec fn keys_distinct(entries: Seq<(String, JsonValue)>) -> bool {
    forall|i: int, j: int|
        0 <= i < j < entries.len() ==> (#[trigger] entries[i]).0@ != (#[trigger] entries[j]).0@
}

/// In every object inside `v`, `v` included, no key occurs twice.
pub open spec fn well_formed(v: JsonValue) -> bool
    decreases v,
{
    match v {
        JsonValue::JsonObject(m) => {
            &&& keys_distinct(m.entries@)
            &&& forall|i: int|
                0 <= i < m.entries@.len() ==> well_formed((#[trigger] m.entries@[i]).1)
        },
        JsonValue::JsonArray(items) => forall|i: int|
            0 <= i < items@.len() ==> well_formed(#[trigger] items@[i]),
        _ => true,
    }
}

/// A value whose text reads back as the value: its strings and keys hold no
/// double quote, its numbers are spelled as numbers, and the items of its
/// arrays are objects.
pub open spec fn renderable(v: JsonValue) -> bool
    decreases v,
{
    match v {
        JsonValue::JsonString(s) => has_no_quote(s@),
        JsonValue::JsonNumber(n) => is_number_literal(n.literal@),
        JsonValue::JsonObject(m) => forall|i: int|
            0 <= i < m.entries@.len() ==> has_no_quote((#[trigger] m.entries@[i]).0@) && renderable(
                m.entries@[i].1,
            ),
        JsonValue::JsonArray(items) => forall|i: int|
            0 <= i < items@.len() ==> (#[trigger] items@[i]) is JsonObject && renderable(
                items@[i],
            ),
        _ => true,
    }
}

/// Every member of `entries` has a key without a quote and a renderable
/// value.
pub open spec fn members_renderable(entries: Seq<(String, JsonValue)>) -> bool {
    forall|i: int|
        0 <= i < entries.len() ==> has_no_quote((#[trigger] entries[i]).0@) && renderable(
            entries[i].1,
        )
}

/// Every item of `items` is a renderable object.
pub open spec fn items_renderable(items: Seq<JsonValue>) -> bool {
    forall|i: int|
        0 <= i < items.len() ==> (#[trigger] items[i]) is JsonObject && renderable(items[i])
}

/// A string, a number, a boolean or null.
pub open spec fn is_scalar(v: JsonValue) -> bool {
    !(v is JsonObject) && !(v is JsonArray)
}

impl View for JsonValue {
    type V = Json;

    open spec fn view(&self) -> Json {
        json_of(*self)
    }
}

impl View for ObjectMap {
    type V = Map<Seq<char>, Json>;

    open spec fn view(&self) -> Map<Seq<char>, Json> {
        members_map(self.entries@)
    }
}

impl JsonValue {
    /// In every object inside this value no key occurs twice.
    pub open spec fn wf(&self) -> bool {
        well_formed(*self)
    }
}

/// A key is in the map of a list exactly if some member has it.
pub proof fn lemma_members_map_dom(entries: Seq<(String, JsonValue)>, key: Seq<char>)
    ensures
        members_map(entries).dom().contains(key) <==> exists|i: int|
            0 <= i < entries.len() && (#[trigger] entries[i]).0@ == key,
    decreases entries.len(),
{
    if entries.len() > 0 {
        let front = entries.drop_last();
        lemma_members_map_dom(front, key);
        if members_map(entries).dom().contains(key) {
            if entries.last().0@ == key {
                assert(entries[entries.len() - 1].0@ == key);
            } else {
                let i = choose|i: int| 0 <= i < front.len() && (#[trigger] front[i]).0@ == key;
                assert(entries[i].0@ == key);
            }
        }
        if exists|i: int| 0 <= i < entries.len() && (#[trigger] entries[i]).0@ == key {
            let i = choose|i: int| 0 <= i < entries.len() && (#[trigger] entries[i]).0@ == key;
            if i < front.len() {
                assert(front[i].0@ == key);
            }
        }
    }
}

/// No member of `entries` has the key `key`.
pub open spec fn no_member_has(entries: Seq<(String, JsonValue)>, key: Seq<char>) -> bool {
    forall|j: int| 0 <= j < entries.len() ==> (#[trigger] entries[j]).0@ != key
}

/// The member at index `i` has the key `key`, and no member behind it has.
pub open spec fn last_with_key(entries: Seq<(String, JsonValue)>, key: Seq<char>, i: int) -> bool {
    &&& 0 <= i < entries.len()
    &&& entries[i].0@ == key
    &&& forall|j: int| i < j < entries.len() ==> (#[trigger] entries[j]).0@ != key
}

/// The map gives a key the value of the last member that has it.
pub proof fn lemma_members_map_last(entries: Seq<(String, JsonValue)>, key: Seq<char>, i: int)
    requires
        last_with_key(entries, key, i),
    ensures
        members_map(entries).dom().contains(key),
        members_map(entries)[key] == json_of(entries[i].1),
    decreases entries.len(),
{
    let front = entries.drop_last();
    if i < entries.len() - 1 {
        assert(entries[entries.len() - 1].0@ != key);
        assert(last_with_key(front, key, i)) by {
            assert(front[i] == entries[i]);
            assert forall|j: int| i < j < front.len() implies (#[trigger] front[j]).0@ != key by {
                assert(front[j] == entries[j]);
            }
        }
        lemma_members_map_last(front, key, i);
    }
}

/// Writing a member over the last one that has its key is inserting it into
/// the map.
pub proof fn lemma_members_map_update(
    entries: Seq<(String, JsonValue)>,
    i: int,
    member: (String, JsonValue),
)
    requires
        last_with_key(entries, member.0@, i),
    ensures
        members_map(entries.update(i, member)) == members_map(entries).insert(
            member.0@,
            json_of(member.1),
        ),
    decreases entries.len(),
{
    let after = entries.update(i, member);
    let front = entries.drop_last();
    let last = entries.last();
    let key = member.0@;
    let value = json_of(member.1);
    if i == entries.len() - 1 {
        assert(after.drop_last() =~= front);
        assert(members_map(front).insert(key, value) =~= members_map(front).insert(
            key,
            json_of(last.1),
        ).insert(key, value));
    } else {
        assert(entries[entries.len() - 1].0@ != key);
        assert(last_with_key(front, key, i)) by {
            assert(front[i] == entries[i]);
            assert forall|j: int| i < j < front.len() implies (#[trigger] front[j]).0@ != key by {
                assert(front[j] == entries[j]);
            }
        }
        lemma_members_map_update(front, i, member);
        assert(after.drop_last() =~= front.update(i, member));
        assert(after.last() == last);
        assert(members_map(front).insert(key, value).insert(last.0@, json_of(last.1))
            =~= members_map(front).insert(last.0@, json_of(last.1)).insert(key, value));
    }
}

/// `after` is `before` with `member` written into it: in place over the last
/// member that has its key, or at the end where no member has its key.
pub open spec fn written(
    before: Seq<(String, JsonValue)>,
    member: (String, JsonValue),
    after: Seq<(String, JsonValue)>,
) -> bool {
    ||| exists|i: int| #[trigger]
        last_with_key(before, member.0@, i) && after == before.update(i, member)
    ||| no_member_has(before, member.0@) && after == before.push(member)
}

/// Writing a member into a list without a repeated key leaves it without
/// one.
pub proof fn lemma_written_keys_distinct(
    before: Seq<(String, JsonValue)>,
    member: (String, JsonValue),
    after: Seq<(String, JsonValue)>,
)
    requires
        keys_distinct(before),
        written(before, member, after),
    ensures
        keys_distinct(after),
{
    if no_member_has(before, member.0@) && after == before.push(member) {
        assert forall|a: int, b: int| 0 <= a < b < after.len() implies (#[trigger] after[a]).0@
            != (#[trigger] after[b]).0@ by {
            assert(after[a] == before[a]);
            if b < before.len() {
                assert(after[b] == before[b]);
            }
        }
    } else {
        let i = choose|i: int| #[trigger]
            last_with_key(before, member.0@, i) && after == before.update(i, member);
        assert forall|a: int, b: int| 0 <= a < b < after.len() implies (#[trigger] after[a]).0@
            != (#[trigger] after[b]).0@ by {
            assert(before[a].0@ != before[b].0@);
        }
    }
}

/// Writing a member with a key without a quote and a renderable value into
/// renderable members leaves them renderable.
pub proof fn lemma_written_renderable(
    before: Seq<(String, JsonValue)>,
    member: (String, JsonValue),
    after: Seq<(String, JsonValue)>,
)
    requires
        members_renderable(before),
        has_no_quote(member.0@),
        renderable(member.1),
        written(before, member, after),
    ensures
        members_renderable(after),
{
    if no_member_has(before, member.0@) && after == before.push(member) {
        assert forall|j: int| 0 <= j < after.len() implies has_no_quote((#[trigger] after[j]).0@)
            && renderable(after[j].1) by {
            if j < before.len() {
                assert(after[j] == before[j]);
            }
        }
    } else {
        let i = choose|i: int| #[trigger]
            last_with_key(before, member.0@, i) && after == before.update(i, member);
        assert forall|j: int| 0 <= j < after.len() implies has_no_quote((#[trigger] after[j]).0@)
            && renderable(after[j].1) by {
            if j != i {
                assert(after[j] == before[j]);
            }
        }
    }
}

impl ObjectMap {
    /// No key occurs twice, here or in any object inside a member's value.
    pub open spec fn wf(&self) -> bool {
        well_formed(JsonValue::JsonObject(*self))
    }

    /// A map with no members.
    pub fn new() -> (m: Self)
        ensures
            m@ == Map::<Seq<char>, Json>::empty(),
            m.entries@.len() == 0,
            m.wf(),
    {
        ObjectMap { entries: Vec::new() }
    }

    /// Gives `key` the value `value`. A value that the key had before is
    /// written over, in place; a new key goes to the end of the list.
    pub fn insert(&mut self, key: String, value: JsonValue)
        ensures
            final(self)@ == old(self)@.insert(key@, value@),
            written(old(self).entries@, (key, value), final(self).entries@),
            old(self).wf() && value.wf() ==> final(self).wf(),
    {
        let ghost before = self.entries@;
        let mut i: usize = self.entries.len();
        while i > 0
            invariant
                before == old(self).entries@,
                self.entries@ == before,
                i <= before.len(),
                forall|j: int| i <= j < before.len() ==> (#[trigger] before[j]).0@ != key@,
            decreases i,
        {
            i = i - 1;
            if self.entries[i].0 == key {
                proof {
                    assert(last_with_key(before, key@, i as int));
                    lemma_members_map_update(before, i as int, (key, value));
                }
                self.entries.set(i, (key, value));
                proof {
                    let after = self.entries@;
                    assert(after == before.update(i as int, (key, value)));
                    if old(self).wf() && value.wf() {
                        lemma_written_keys_distinct(before, (key, value), after);
                        assert forall|j: int| 0 <= j < after.len() implies well_formed(
                            (#[trigger] after[j]).1,
                        ) by {
                            if j != i {
                                assert(after[j] == before[j]);
                            }
                        }
                    }
                }
                return ;
            }
        }
        self.entries.push((key, value));
        proof {
            let after = self.entries@;
            assert(after.drop_last() =~= before);
            assert(no_member_has(before, key@));
            if old(self).wf() && value.wf() {
                lemma_written_keys_distinct(before, (key, value), after);
                assert forall|j: int| 0 <= j < after.len() implies well_formed(
                    (#[trigger] after[j]).1,
                ) by {
                    if j < before.len() {
                        assert(after[j] == before[j]);
                    }
                }
            }
        }
    }

    /// The value of `key`, if the map has that key: the value of the last
    /// member with that key.
    pub fn get(&self, key: &str) -> (r: Option<&JsonValue>)
        ensures
            match r {
                Some(v) => {
                    &&& self@.dom().contains(key@)
                    &&& self@[key@] == v@
                    &&& exists|i: int| #[trigger]
                        last_with_key(self.entries@, key@, i) && *v == self.entries@[i].1
                },
                None => !self@.dom().contains(key@) && no_member_has(self.entries@, key@),
            },
    {
        let wanted = key.to_owned();
        let mut i: usize = self.entries.len();
        while i > 0
            invariant
                wanted@ == key@,
                i <= self.entries@.len(),
                forall|j: int|
                    i <= j < self.entries@.len() ==> (#[trigger] self.entries@[j]).0@ != key@,
            decreases i,
        {
            i = i - 1;
            if self.entries[i].0 == wanted {
                proof {
                    assert(last_with_key(self.entries@, key@, i as int));
                    lemma_members_map_last(self.entries@, key@, i as int);
                }
                return Some(&self.entries[i].1);
            }
        }
        proof {
            lemma_members_map_dom(self.entries@, key@);
        }
        None
    }
}

} // verus!
