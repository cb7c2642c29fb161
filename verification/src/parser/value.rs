//! The value tree that parsing builds and encoding reads.

use vstd::prelude::*;
use crate::number::{Number, NumberModel};

verus! {

/// What a [`JsonObject`] stands for: the same tree over mathematical
/// sequences. The members of an object are listed in the order in which
/// their keys were first inserted.
pub enum JsonModel {
    Object(Seq<(Seq<char>, JsonModel)>),
    Array(Seq<JsonModel>),
    String(Seq<char>),
    Number(NumberModel),
    Boolean(bool),
    Null,
}

/// A JSON value.
#[derive(Debug, PartialEq)]
pub enum JsonObject {
    Object(Members),
    Array(Vec<JsonObject>),
    String(String),
    Number(Number),
    Boolean(bool),
    Null,
}

/// One member of an object.
#[derive(Debug, PartialEq)]
pub struct Member {
    pub key: String,
    pub value: JsonObject,
}

/// The members of an object: a mapping from keys to values that keeps the
/// keys in the order in which they were first inserted. No two members have
/// the same key. Lookup and insertion walk the members one by one.
///
/// Two such mappings are equal where they hold the same members in the same
/// order.
#[derive(Debug, PartialEq)]
pub struct Members {
    entries: Vec<Member>,
}

/// Some member of `members` has the key `key`.
pub open spec fn has_key(members: Seq<(Seq<char>, JsonModel)>, key: Seq<char>) -> bool {
    exists|i: int| 0 <= i < members.len() && (#[trigger] members[i]).0 == key
}

/// `index` is where the first member with the key `key` stands.
pub open spec fn is_key_index(members: Seq<(Seq<char>, JsonModel)>, key: Seq<char>, index: int)
    -> bool {
    &&& 0 <= index < members.len()
    &&& members[index].0 == key
    &&& forall|j: int| 0 <= j < index ==> (#[trigger] members[j]).0 != key
}

/// Where the first member with the key `key` stands, if there is one.
pub open spec fn key_index(members: Seq<(Seq<char>, JsonModel)>, key: Seq<char>) -> int {
    choose|index: int| is_key_index(members, key, index)
}

/// No two members have the same key.
pub open spec fn distinct_keys(members: Seq<(Seq<char>, JsonModel)>) -> bool {
    forall|i: int, j: int|
        0 <= i < j < members.len() ==> (#[trigger] members[i]).0 != (#[trigger] members[j]).0
}

/// `members` after `value` is inserted under `key`: the value replaces the
/// one that the key had, in its place, or the pair joins at the end.
pub open spec fn with_member(
    members: Seq<(Seq<char>, JsonModel)>,
    key: Seq<char>,
    value: JsonModel,
) -> Seq<(Seq<char>, JsonModel)> {
    if has_key(members, key) {
        members.update(key_index(members, key), (key, value))
    } else {
        members.push((key, value))
    }
}

/// The members as a mapping from keys to values.
pub open spec fn as_map(members: Seq<(Seq<char>, JsonModel)>) -> Map<Seq<char>, JsonModel> {
    Map::new(
        |key: Seq<char>| has_key(members, key),
        |key: Seq<char>| members[key_index(members, key)].1,
    )
}

impl JsonModel {
    /// No object of the tree, at any depth, has two members with one key.
    pub open spec fn well_formed(self) -> bool
        decreases self,
    {
        match self {
            JsonModel::Object(members) => {
                &&& distinct_keys(members)
                &&& forall|i: int|
                    0 <= i < members.len() ==> (#[trigger] members[i]).1.well_formed()
            },
            JsonModel::Array(items) => forall|i: int|
                0 <= i < items.len() ==> (#[trigger] items[i]).well_formed(),
            _ => true,
        }
    }
}

/// A key that some member has stands first at exactly one index.
pub proof fn lemma_key_index(members: Seq<(Seq<char>, JsonModel)>, key: Seq<char>)
    requires
        has_key(members, key),
    ensures
        is_key_index(members, key, key_index(members, key)),
{
    let i = choose|i: int| 0 <= i < members.len() && (#[trigger] members[i]).0 == key;
    lemma_first_match(members, key, i);
}

proof fn lemma_first_match(members: Seq<(Seq<char>, JsonModel)>, key: Seq<char>, bound: int)
    requires
        0 <= bound < members.len(),
        members[bound].0 == key,
    ensures
        exists|index: int| is_key_index(members, key, index),
    decreases bound,
{
    if exists|j: int| 0 <= j < bound && (#[trigger] members[j]).0 == key {
        let j = choose|j: int| 0 <= j < bound && (#[trigger] members[j]).0 == key;
        lemma_first_match(members, key, j);
    } else {
        assert(is_key_index(members, key, bound));
    }
}

/// Inserting keeps the keys distinct.
pub proof fn lemma_with_member_distinct(
    members: Seq<(Seq<char>, JsonModel)>,
    key: Seq<char>,
    value: JsonModel,
)
    requires
        distinct_keys(members),
    ensures
        distinct_keys(with_member(members, key, value)),
{
    if has_key(members, key) {
        lemma_key_index(members, key);
    } else {
        let after = with_member(members, key, value);
        assert forall|i: int, j: int| 0 <= i < j < after.len() implies (#[trigger] after[i]).0 != (
        #[trigger] after[j]).0 by {
            if j == members.len() {
                assert(members[i].0 != key);
            }
        }
    }
}

/// The last write wins: after an insertion the key maps to the new value,
/// and every other key maps to what it mapped to before.
pub proof fn lemma_with_member_map(
    members: Seq<(Seq<char>, JsonModel)>,
    key: Seq<char>,
    value: JsonModel,
)
    ensures
        as_map(with_member(members, key, value)) == as_map(members).insert(key, value),
{
    let after = with_member(members, key, value);
    if has_key(members, key) {
        lemma_key_index(members, key);
    }
    let at = if has_key(members, key) {
        key_index(members, key)
    } else {
        members.len() as int
    };
    assert(after[at].0 == key);
    assert(is_key_index(after, key, at));
    assert forall|k: Seq<char>| has_key(after, k) <==> (k == key || has_key(members, k)) by {
        if has_key(after, k) && k != key {
            let i = choose|i: int| 0 <= i < after.len() && (#[trigger] after[i]).0 == k;
            assert(members[i].0 == k);
        }
        if has_key(members, k) {
            let i = choose|i: int| 0 <= i < members.len() && (#[trigger] members[i]).0 == k;
            assert(after[i].0 == k || k == key);
        }
    }
    assert forall|k: Seq<char>| has_key(after, k) implies after[key_index(after, k)].1
        == as_map(members).insert(key, value)[k] by {
        lemma_key_index(after, k);
        let i = key_index(after, k);
        if k == key {
            if i < at {
                assert(after[i].0 != key);
            } else if at < i {
                assert(after[at].0 != k);
            }
        } else {
            lemma_key_index(members, k);
            let m = key_index(members, k);
            assert(after[m].0 == k);
            assert(members[i].0 == k);
            if i < m {
                assert(members[i].0 != k);
            } else if m < i {
                assert(after[m].0 != k);
            }
        }
    }
    assert(as_map(after) =~= as_map(members).insert(key, value));
}

/// The tree that `value` stands for.
pub open spec fn model_of(value: JsonObject) -> JsonModel
    decreases value,
{
    match value {
        JsonObject::Object(members) => JsonModel::Object(members_of(members)),
        JsonObject::Array(items) => JsonModel::Array(
            Seq::new(
                items@.len(),
                |i: int|
                    if 0 <= i < items@.len() {
                        model_of(items@[i])
                    } else {
                        arbitrary()
                    },
            ),
        ),
        JsonObject::String(text) => JsonModel::String(text@),
        JsonObject::Number(number) => JsonModel::Number(number@),
        JsonObject::Boolean(b) => JsonModel::Boolean(b),
        JsonObject::Null => JsonModel::Null,
    }
}

/// The pairs that `members` stands for, in order.
pub closed spec fn members_of(members: Members) -> Seq<(Seq<char>, JsonModel)>
    decreases members,
{
    Seq::new(
        members.entries@.len(),
        |i: int|
            if 0 <= i < members.entries@.len() {
                (members.entries@[i].key@, model_of(members.entries@[i].value))
            } else {
                arbitrary()
            },
    )
}

impl View for JsonObject {
    type V = JsonModel;

    open spec fn view(&self) -> JsonModel {
        model_of(*self)
    }
}

impl DeepView for JsonObject {
    type V = JsonModel;

    open spec fn deep_view(&self) -> JsonModel {
        model_of(*self)
    }
}

impl View for Members {
    type V = Seq<(Seq<char>, JsonModel)>;

    open spec fn view(&self) -> Seq<(Seq<char>, JsonModel)> {
        members_of(*self)
    }
}

impl Members {
    #[verifier::type_invariant]
    spec fn keys_are_distinct(self) -> bool {
        distinct_keys(members_of(self))
    }

    /// No members.
    pub fn new() -> (members: Members)
        ensures
            members@ == Seq::<(Seq<char>, JsonModel)>::empty(),
    {
        Members { entries: Vec::new() }
    }

    /// The number of members. No two of them have the same key.
    pub fn len(&self) -> (count: usize)
        ensures
            count == self@.len(),
            distinct_keys(self@),
    {
        proof {
            use_type_invariant(self);
        }
        self.entries.len()
    }

    /// The member at `index`, counting in the order of first insertion.
    pub fn member(&self, index: usize) -> (member: &Member)
        requires
            index < self@.len(),
        ensures
            member.key@ == self@[index as int].0,
            member.value@ == self@[index as int].1,
            decreases_to!(self => member),
    {
        &self.entries[index]
    }

    /// The value under `key`, if a member has that key.
    pub fn get(&self, key: &String) -> (value: Option<&JsonObject>)
        ensures
            match value {
                Some(found) => has_key(self@, key@) && found@ == self@[key_index(self@, key@)].1,
                None => !has_key(self@, key@),
            },
    {
        let mut i: usize = 0;
        while i < self.entries.len()
            invariant
                i <= self.entries@.len(),
                forall|j: int| 0 <= j < i ==> (#[trigger] self@[j]).0 != key@,
            decreases self.entries@.len() - i,
        {
            if self.entries[i].key == *key {
                proof {
                    assert(is_key_index(self@, key@, i as int));
                    lemma_key_index(self@, key@);
                }
                return Some(&self.entries[i].value);
            }
            i += 1;
        }
        None
    }

    /// Inserts `value` under `key`. Where a member has that key already, the
    /// value replaces its value and the member keeps its place; otherwise
    /// the new member joins at the end.
    pub fn insert(&mut self, key: String, value: JsonObject)
        ensures
            final(self)@ == with_member(old(self)@, key@, value@),
            distinct_keys(final(self)@),
    {
        proof {
            use_type_invariant(&*self);
            lemma_with_member_distinct(self@, key@, value@);
        }
        let mut i: usize = 0;
        while i < self.entries.len()
            invariant
                *self == *old(self),
                i <= self.entries@.len(),
                forall|j: int| 0 <= j < i ==> (#[trigger] self@[j]).0 != key@,
                distinct_keys(with_member(self@, key@, value@)),
            decreases self.entries@.len() - i,
        {
            if self.entries[i].key == key {
                let ghost after = with_member(self@, key@, value@);
                proof {
                    assert(is_key_index(self@, key@, i as int));
                    lemma_key_index(self@, key@);
                    assert(after =~= Seq::new(
                        self.entries@.len(),
                        |j: int|
                            if j == i {
                                (key@, value@)
                            } else {
                                self@[j]
                            },
                    ));
                }
                let mut entries = Vec::new();
                std::mem::swap(&mut entries, &mut self.entries);
                entries.set(i, Member { key, value });
                proof {
                    assert(members_of(Members { entries }) =~= after);
                }
                self.entries = entries;
                return ;
            }
            i += 1;
        }
        let ghost after = with_member(self@, key@, value@);
        let mut entries = Vec::new();
        std::mem::swap(&mut entries, &mut self.entries);
        entries.push(Member { key, value });
        proof {
            assert(members_of(Members { entries }) =~= after);
        }
        self.entries = entries;
    }
}

} // verus!
