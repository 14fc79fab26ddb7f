//! Generic AMF0 properties: dynamically typed values under text keys.
//!
//! Numbers are binary64 numbers, held by their bits as a
//! [`Double`](crate::ieee754::Double).

use crate::ieee754::Double;
use vstd::prelude::*;

verus! {

/// A dynamically typed value.
#[derive(Debug)]
pub enum PropertyValue {
    Number(Double),
    Boolean(bool),
    Utf8String(String),
    Object(PropertyMap),
    StrictArray(Vec<PropertyValue>),
    Null,
    Undefined,
}

/// What a value is when it is read as a number, a boolean or a text.
pub enum Scalar {
    Number(Double),
    Boolean(bool),
    Text(Seq<char>),
    /// An object, an array, null or undefined.
    NotScalar,
}

impl PropertyValue {
    /// The value as a number, a boolean or a text, if it is one.
    pub open spec fn scalar(self) -> Scalar {
        match self {
            PropertyValue::Number(number) => Scalar::Number(number),
            PropertyValue::Boolean(flag) => Scalar::Boolean(flag),
            PropertyValue::Utf8String(text) => Scalar::Text(text@),
            _ => Scalar::NotScalar,
        }
    }

    /// The number that the value holds, if it is a number.
    pub fn get_number(&self) -> (number: Option<Double>)
        ensures
            number == (match self.scalar() {
                Scalar::Number(held) => Some(held),
                _ => None,
            }),
    {
        match self {
            PropertyValue::Number(held) => Some(*held),
            _ => None,
        }
    }

    /// The boolean that the value holds, if it is a boolean.
    pub fn get_boolean(&self) -> (flag: Option<bool>)
        ensures
            flag == (match self.scalar() {
                Scalar::Boolean(held) => Some(held),
                _ => None,
            }),
    {
        match self {
            PropertyValue::Boolean(held) => Some(*held),
            _ => None,
        }
    }

    /// A copy of the text that the value holds, if it is a text.
    pub fn get_string(&self) -> (text: Option<String>)
        ensures
            match self.scalar() {
                Scalar::Text(held) => text matches Some(copy) && copy@ == held,
                _ => text is None,
            },
    {
        match self {
            PropertyValue::Utf8String(held) => Some(held.clone()),
            _ => None,
        }
    }
}

/// No key stands twice among the entries.
spec fn keys_distinct(entries: Seq<(String, PropertyValue)>) -> bool {
    forall|i: int, j: int|
        0 <= i < j < entries.len() ==> (#[trigger] entries[i]).0@ != (#[trigger] entries[j]).0@
}

/// Where the entry of `key` stands.
spec fn position(entries: Seq<(String, PropertyValue)>, key: Seq<char>) -> Option<int> {
    if exists|i: int| 0 <= i < entries.len() && (#[trigger] entries[i]).0@ == key {
        Some(choose|i: int| 0 <= i < entries.len() && (#[trigger] entries[i]).0@ == key)
    } else {
        None
    }
}

/// The value under each key of the entries.
spec fn map_of(entries: Seq<(String, PropertyValue)>) -> Map<Seq<char>, PropertyValue> {
    Map::new(
        |key: Seq<char>| position(entries, key) is Some,
        |key: Seq<char>| entries[position(entries, key)->Some_0].1,
    )
}

/// What `position` finds is an entry of the key, and it finds one if there
/// is one.
proof fn lemma_position_found(entries: Seq<(String, PropertyValue)>, key: Seq<char>)
    ensures
        position(entries, key) matches Some(index) ==> 0 <= index < entries.len()
            && entries[index].0@ == key,
        position(entries, key) is None ==> forall|i: int|
            0 <= i < entries.len() ==> (#[trigger] entries[i]).0@ != key,
{
}

/// The entry at `index` is the one that `position` finds for its key.
proof fn lemma_position(entries: Seq<(String, PropertyValue)>, index: int)
    requires
        keys_distinct(entries),
        0 <= index < entries.len(),
    ensures
        position(entries, entries[index].0@) == Some(index),
        map_of(entries).contains_key(entries[index].0@),
        map_of(entries)[entries[index].0@] == entries[index].1,
{
    let key = entries[index].0@;
    lemma_position_found(entries, key);
    let found = position(entries, key)->Some_0;
    if found < index {
        assert(entries[found].0@ != entries[index].0@);
    } else if index < found {
        assert(entries[index].0@ != entries[found].0@);
    }
}

/// An entry put after the others leaves the other keys as they were.
proof fn lemma_push_other(
    entries: Seq<(String, PropertyValue)>,
    key: String,
    value: PropertyValue,
    other: Seq<char>,
)
    requires
        keys_distinct(entries),
        keys_distinct(entries.push((key, value))),
        other != key@,
    ensures
        map_of(entries.push((key, value))).contains_key(other) <==> map_of(entries).contains_key(
            other,
        ),
        map_of(entries).contains_key(other) ==> map_of(entries.push((key, value)))[other]
            == map_of(entries)[other],
{
    let after = entries.push((key, value));
    lemma_position_found(entries, other);
    lemma_position_found(after, other);
    if position(entries, other) is Some {
        let was = position(entries, other)->Some_0;
        assert(after[was] == entries[was]);
        lemma_position(after, was);
    }
    if position(after, other) is Some {
        let now = position(after, other)->Some_0;
        assert(after[entries.len() as int].0@ == key@);
        assert(now < entries.len());
        assert(after[now] == entries[now]);
        lemma_position(entries, now);
    }
}

/// An entry with a new key, put after the others, adds its key to the map.
proof fn lemma_push(entries: Seq<(String, PropertyValue)>, key: String, value: PropertyValue)
    requires
        keys_distinct(entries),
        position(entries, key@) is None,
    ensures
        keys_distinct(entries.push((key, value))),
        map_of(entries.push((key, value))) == map_of(entries).insert(key@, value),
{
    let after = entries.push((key, value));
    lemma_position_found(entries, key@);
    assert forall|i: int, j: int| 0 <= i < j < after.len() implies (#[trigger] after[i]).0@ != (
    #[trigger] after[j]).0@ by {
        if j < entries.len() {
            assert(after[i] == entries[i] && after[j] == entries[j]);
        } else {
            assert(after[i] == entries[i]);
        }
    }
    let end = entries.len() as int;
    lemma_position(after, end);
    assert(after[end].0@ == key@ && after[end].1 == value);
    let wanted = map_of(entries).insert(key@, value);
    assert forall|name: Seq<char>| map_of(after).dom().contains(name) <==> wanted.dom().contains(
        name,
    ) by {
        if name != key@ {
            lemma_push_other(entries, key, value, name);
        }
    }
    assert forall|name: Seq<char>| #[trigger]
        map_of(after).dom().contains(name) implies map_of(after)[name] == wanted[name] by {
        if name != key@ {
            lemma_push_other(entries, key, value, name);
        }
    }
    assert(map_of(after) =~= wanted);
}

/// Taking an entry out shifts the entries after it by one place.
proof fn lemma_remove_shift(entries: Seq<(String, PropertyValue)>, index: int, now: int)
    requires
        0 <= index < entries.len(),
        0 <= now < entries.len() - 1,
    ensures
        entries.remove(index)[now] == entries[if now < index {
            now
        } else {
            now + 1
        }],
{
}

/// Taking an entry out leaves the other keys as they were.
proof fn lemma_remove_other(
    entries: Seq<(String, PropertyValue)>,
    index: int,
    other: Seq<char>,
)
    requires
        keys_distinct(entries),
        keys_distinct(entries.remove(index)),
        0 <= index < entries.len(),
        other != entries[index].0@,
    ensures
        map_of(entries.remove(index)).contains_key(other) <==> map_of(entries).contains_key(
            other,
        ),
        map_of(entries).contains_key(other) ==> map_of(entries.remove(index))[other] == map_of(
            entries,
        )[other],
{
    let after = entries.remove(index);
    lemma_position_found(entries, other);
    lemma_position_found(after, other);
    if position(entries, other) is Some {
        let was = position(entries, other)->Some_0;
        let now = if was < index { was } else { was - 1 };
        lemma_remove_shift(entries, index, now);
        lemma_position(after, now);
    }
    if position(after, other) is Some {
        let now = position(after, other)->Some_0;
        let was = if now < index { now } else { now + 1 };
        lemma_remove_shift(entries, index, now);
        lemma_position(entries, was);
    }
}

/// Taking an entry out takes its key out of the map.
proof fn lemma_remove(entries: Seq<(String, PropertyValue)>, index: int)
    requires
        keys_distinct(entries),
        0 <= index < entries.len(),
    ensures
        keys_distinct(entries.remove(index)),
        map_of(entries.remove(index)) == map_of(entries).remove(entries[index].0@),
        position(entries.remove(index), entries[index].0@) is None,
{
    let after = entries.remove(index);
    let key = entries[index].0@;
    assert forall|i: int, j: int| 0 <= i < j < after.len() implies (#[trigger] after[i]).0@ != (
    #[trigger] after[j]).0@ by {
        lemma_remove_shift(entries, index, i);
        lemma_remove_shift(entries, index, j);
    }
    lemma_position(entries, index);
    lemma_position_found(after, key);
    if position(after, key) is Some {
        let now = position(after, key)->Some_0;
        let was = if now < index { now } else { now + 1 };
        lemma_remove_shift(entries, index, now);
        lemma_position(entries, was);
    }
    let wanted = map_of(entries).remove(key);
    assert forall|name: Seq<char>| map_of(after).dom().contains(name) <==> wanted.dom().contains(
        name,
    ) by {
        if name != key {
            lemma_remove_other(entries, index, name);
        }
    }
    assert forall|name: Seq<char>| #[trigger]
        map_of(after).dom().contains(name) implies map_of(after)[name] == wanted[name] by {
        if name != key {
            lemma_remove_other(entries, index, name);
        }
    }
    assert(map_of(after) =~= wanted);
}

/// The keys of the entries before `end`.
spec fn keys_up_to(entries: Seq<(String, PropertyValue)>, end: int) -> Set<Seq<char>> {
    Set::new(
        |key: Seq<char>| position(entries, key) is Some && position(entries, key)->Some_0 < end,
    )
}

/// There are as many keys as entries.
proof fn lemma_keys_counted(entries: Seq<(String, PropertyValue)>, end: int)
    requires
        keys_distinct(entries),
        0 <= end <= entries.len(),
    ensures
        keys_up_to(entries, end).finite(),
        keys_up_to(entries, end).len() == end,
    decreases end,
{
    if end == 0 {
        assert(keys_up_to(entries, 0) =~= Set::<Seq<char>>::empty());
    } else {
        lemma_keys_counted(entries, end - 1);
        lemma_position(entries, end - 1);
        let key = entries[end - 1].0@;
        assert forall|other: Seq<char>| keys_up_to(entries, end).contains(other)
            <==> keys_up_to(entries, end - 1).insert(key).contains(other) by {
            lemma_position_found(entries, other);
        }
        assert(keys_up_to(entries, end) =~= keys_up_to(entries, end - 1).insert(key));
    }
}

/// Values under text keys, each key at most once. The order of the entries
/// carries no meaning.
#[derive(Debug)]
pub struct PropertyMap {
    entries: Vec<(String, PropertyValue)>,
}

impl View for PropertyMap {
    type V = Map<Seq<char>, PropertyValue>;

    /// The value under each key.
    closed spec fn view(&self) -> Map<Seq<char>, PropertyValue> {
        map_of(self.entries@)
    }
}

impl PropertyMap {
    #[verifier::type_invariant]
    spec fn well_formed(self) -> bool {
        keys_distinct(self.entries@)
    }

    /// The scalar under each key.
    pub open spec fn scalars(self) -> Map<Seq<char>, Scalar> {
        self@.map_values(|value: PropertyValue| value.scalar())
    }

    /// A map without entries.
    pub fn new() -> (map: PropertyMap)
        ensures
            map@ == Map::<Seq<char>, PropertyValue>::empty(),
    {
        let map = PropertyMap { entries: Vec::new() };
        assert(map@ =~= Map::<Seq<char>, PropertyValue>::empty());
        map
    }

    /// The number of entries.
    pub fn len(&self) -> (count: usize)
        ensures
            self@.dom().finite(),
            count == self@.dom().len(),
    {
        proof {
            use_type_invariant(self);
            let entries = self.entries@;
            lemma_keys_counted(entries, entries.len() as int);
            assert forall|key: Seq<char>| keys_up_to(entries, entries.len() as int).contains(key)
                <==> self@.dom().contains(key) by {
                lemma_position_found(entries, key);
            }
            assert(keys_up_to(entries, entries.len() as int) =~= self@.dom());
        }
        self.entries.len()
    }

    /// The index of the entry of `key`, if the map has one.
    fn find(&self, key: &String) -> (found: Option<usize>)
        ensures
            found matches Some(index) ==> position(self.entries@, key@) == Some(index as int)
                && index < self.entries@.len(),
            found is None ==> position(self.entries@, key@) is None,
    {
        proof {
            use_type_invariant(self);
        }
        let mut index: usize = 0;
        while index < self.entries.len()
            invariant
                index <= self.entries@.len(),
                keys_distinct(self.entries@),
                forall|i: int| 0 <= i < index ==> (#[trigger] self.entries@[i]).0@ != key@,
            decreases self.entries@.len() - index,
        {
            if self.entries[index].0 == *key {
                proof {
                    lemma_position(self.entries@, index as int);
                }
                return Some(index);
            }
            index += 1;
        }
        proof {
            lemma_position_found(self.entries@, key@);
        }
        None
    }

    /// The value under `key`, if the map has one.
    pub fn get(&self, key: &str) -> (value: Option<&PropertyValue>)
        ensures
            match value {
                Some(held) => self@.contains_key(key@) && *held == self@[key@],
                None => !self@.contains_key(key@),
            },
    {
        let owned: String = key.to_owned();
        match self.find(&owned) {
            Some(index) => Some(&self.entries[index].1),
            None => None,
        }
    }

    /// Whether the map has a value under `key`.
    pub fn contains_key(&self, key: &str) -> (present: bool)
        ensures
            present == self@.contains_key(key@),
    {
        let owned: String = key.to_owned();
        self.find(&owned).is_some()
    }

    /// Puts `value` under `key`, in place of the value that was there, and
    /// returns the value that was there.
    pub fn insert(&mut self, key: String, value: PropertyValue) -> (replaced: Option<
        PropertyValue,
    >)
        ensures
            final(self)@ == old(self)@.insert(key@, value),
            replaced == (if old(self)@.contains_key(key@) {
                Some(old(self)@[key@])
            } else {
                None::<PropertyValue>
            }),
    {
        proof {
            use_type_invariant(&*self);
        }
        let found = self.find(&key);
        let mut taken = PropertyMap { entries: Vec::new() };
        core::mem::swap(self, &mut taken);
        let mut entries = taken.entries;
        let ghost before = entries@;
        let replaced = match found {
            Some(index) => {
                proof {
                    lemma_remove(before, index as int);
                }
                let (_, held) = entries.remove(index);
                Some(held)
            },
            None => None,
        };
        proof {
            lemma_push(entries@, key, value);
            assert(map_of(entries@).insert(key@, value) =~= map_of(before).insert(key@, value));
        }
        entries.push((key, value));
        *self = PropertyMap { entries };
        replaced
    }

    /// The entries, in no order that has a meaning: each key of the map
    /// once, with its value.
    pub fn into_entries(self) -> (entries: Vec<(String, PropertyValue)>)
        ensures
            forall|i: int|
                0 <= i < entries@.len() ==> self@.contains_key((#[trigger] entries@[i]).0@)
                    && self@[entries@[i].0@] == entries@[i].1,
            forall|key: Seq<char>|
                self@.contains_key(key) ==> exists|i: int|
                    0 <= i < entries@.len() && (#[trigger] entries@[i]).0@ == key,
            forall|i: int, j: int|
                0 <= i < j < entries@.len() ==> (#[trigger] entries@[i]).0@ != (
                #[trigger] entries@[j]).0@,
    {
        proof {
            use_type_invariant(&self);
            assert forall|i: int| 0 <= i < self.entries@.len() implies self@.contains_key(
                (#[trigger] self.entries@[i]).0@,
            ) && self@[self.entries@[i].0@] == self.entries@[i].1 by {
                lemma_position(self.entries@, i);
            }
            assert forall|key: Seq<char>| self@.contains_key(key) implies exists|i: int|
                0 <= i < self.entries@.len() && (#[trigger] self.entries@[i]).0@ == key by {
                lemma_position_found(self.entries@, key);
            }
        }
        self.entries
    }
}

} // verus!
