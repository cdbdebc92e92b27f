//! JSON values as trees of plain values.

use vstd::prelude::*;

use crate::text::same;

verus! {

/// A parsed JSON value.
#[verifier::external_type_specification]
#[verifier::external_body]
pub struct ExValue(serde_json::Value);

/// A JSON number, carried through as it is.
#[verifier::external_type_specification]
#[verifier::external_body]
pub struct ExNumber(serde_json::Number);

/// `Clone` of `serde_json::Number`: the copy is the same number.
pub assume_specification[ <serde_json::Number as Clone>::clone ](
    number: &serde_json::Number,
) -> (r: serde_json::Number)
    ensures
        r == *number,
;

/// A JSON value. A number that is a whole one from zero to `u64::MAX` is a
/// `Count`, any other one a `Number`.
#[derive(Debug)]
pub enum Json {
    Null,
    Flag(bool),
    Count(u64),
    Number(serde_json::Number),
    Text(String),
    List(Vec<Json>),
    Members(Vec<(String, Json)>),
}

/// The content of a [`Json`].
pub enum JsonTree {
    Null,
    Flag(bool),
    Count(u64),
    Number(serde_json::Number),
    Text(Seq<char>),
    List(Seq<JsonTree>),
    Members(Seq<(Seq<char>, JsonTree)>),
}

impl View for Json {
    type V = JsonTree;

    open spec fn view(&self) -> JsonTree {
        self.tree()
    }
}

impl Json {
    pub open spec fn tree(self) -> JsonTree
        decreases self,
    {
        match self {
            Json::Null => JsonTree::Null,
            Json::Flag(flag) => JsonTree::Flag(flag),
            Json::Count(count) => JsonTree::Count(count),
            Json::Number(number) => JsonTree::Number(number),
            Json::Text(text) => JsonTree::Text(text@),
            Json::List(items) => JsonTree::List(
                Seq::new(
                    items@.len(),
                    |i: int|
                        if 0 <= i < items@.len() {
                            items@[i].tree()
                        } else {
                            JsonTree::Null
                        },
                ),
            ),
            Json::Members(members) => JsonTree::Members(
                Seq::new(
                    members@.len(),
                    |i: int|
                        if 0 <= i < members@.len() {
                            (members@[i].0@, members@[i].1.tree())
                        } else {
                            (Seq::empty(), JsonTree::Null)
                        },
                ),
            ),
        }
    }
}

/// The value of the first member with the key.
pub open spec fn lookup(members: Seq<(Seq<char>, JsonTree)>, key: Seq<char>) -> Option<JsonTree>
    decreases members.len(),
{
    if members.len() == 0 {
        None
    } else if members[0].0 == key {
        Some(members[0].1)
    } else {
        lookup(members.drop_first(), key)
    }
}

impl JsonTree {
    /// The member with the key, where this is an object that has it.
    pub open spec fn member(self, key: Seq<char>) -> Option<JsonTree> {
        match self {
            JsonTree::Members(members) => lookup(members, key),
            _ => None,
        }
    }
}

/// A parsed value, opened one level deep.
pub enum OpenValue {
    Null,
    Flag(bool),
    Count(u64),
    Number(serde_json::Number),
    Text(String),
    List(Vec<serde_json::Value>),
    Members(Vec<(String, serde_json::Value)>),
}

/// What a parsed value holds, objects with their members in the order of
/// iteration.
pub uninterp spec fn value_content(value: serde_json::Value) -> JsonTree;

impl OpenValue {
    /// What the value holds.
    pub open spec fn content(self) -> JsonTree {
        match self {
            OpenValue::Null => JsonTree::Null,
            OpenValue::Flag(flag) => JsonTree::Flag(flag),
            OpenValue::Count(count) => JsonTree::Count(count),
            OpenValue::Number(number) => JsonTree::Number(number),
            OpenValue::Text(text) => JsonTree::Text(text@),
            OpenValue::List(items) => JsonTree::List(
                Seq::new(items@.len(), |i: int| value_content(items@[i])),
            ),
            OpenValue::Members(members) => JsonTree::Members(
                Seq::new(
                    members@.len(),
                    |i: int| (members@[i].0@, value_content(members@[i].1)),
                ),
            ),
        }
    }
}

/// What `serde_json::from_str` makes of a text: the content of the value, or
/// the words of the error.
pub uninterp spec fn reading(text: Seq<char>) -> Result<JsonTree, Seq<char>>;

/// `serde_json::from_str` into a `serde_json::Value`; an error as its
/// `Display` text. Both depend on the text alone.
#[verifier::external_body]
fn parse_value(text: &str) -> (r: Result<serde_json::Value, String>)
    ensures
        match r {
            Ok(value) => reading(text@) == Ok::<JsonTree, Seq<char>>(value_content(value)),
            Err(words) => reading(text@) == Err::<JsonTree, Seq<char>>(words@),
        },
{
    serde_json::from_str(text).map_err(|error: serde_json::Error| error.to_string())
}

/// The variants of `serde_json::Value` one by one; whole numbers are told from
/// others by `serde_json::Number::as_u64`. The members of an object come in
/// the order of its iteration.
#[verifier::external_body]
fn open_value(value: serde_json::Value) -> (r: OpenValue)
    ensures
        r.content() == value_content(value),
{
    match value {
        serde_json::Value::Null => OpenValue::Null,
        serde_json::Value::Bool(flag) => OpenValue::Flag(flag),
        serde_json::Value::Number(number) => number.as_u64().map_or(
            OpenValue::Number(number), OpenValue::Count),
        serde_json::Value::String(text) => OpenValue::Text(text),
        serde_json::Value::Array(items) => OpenValue::List(items),
        serde_json::Value::Object(members) => OpenValue::Members(members.into_iter().collect()),
    }
}

/// A parsed value as a tree.
fn from_value(value: serde_json::Value) -> (r: Json)
    ensures
        r@ == value_content(value),
    decreases value_content(value),
{
    let ghost whole = value_content(value);
    match open_value(value) {
        OpenValue::Null => Json::Null,
        OpenValue::Flag(flag) => Json::Flag(flag),
        OpenValue::Count(count) => Json::Count(count),
        OpenValue::Number(number) => Json::Number(number),
        OpenValue::Text(text) => Json::Text(text),
        OpenValue::List(items) => {
            let mut list: Vec<Json> = Vec::new();
            let ghost all = items@;
            for item in iter: items
                invariant
                    iter.seq() == all,
                    whole == value_content(value),
                    whole == OpenValue::List(items).content(),
                    all == items@,
                    list@.len() == iter.index(),
                    forall|i: int|
                        0 <= i < list@.len() ==> (#[trigger] list@[i])@ == value_content(all[i]),
            {
                proof {
                    assert(whole->List_0[iter.index()] == value_content(item));
                }
                list.push(from_value(item));
            }
            let json = Json::List(list);
            assert(json@->List_0 =~= whole->List_0);
            json
        },
        OpenValue::Members(members) => {
            let mut list: Vec<(String, Json)> = Vec::new();
            let ghost all = members@;
            for member in iter: members
                invariant
                    iter.seq() == all,
                    whole == value_content(value),
                    whole == OpenValue::Members(members).content(),
                    all == members@,
                    list@.len() == iter.index(),
                    forall|i: int|
                        0 <= i < list@.len() ==> (#[trigger] list@[i]).0@ == all[i].0@
                            && list@[i].1@ == value_content(all[i].1),
            {
                let (key, inner) = member;
                proof {
                    assert(whole->Members_0[iter.index()].1 == value_content(inner));
                }
                list.push((key, from_value(inner)));
            }
            let json = Json::Members(list);
            assert(json@->Members_0 =~= whole->Members_0);
            json
        },
    }
}

/// Reads a JSON text.
pub fn parse(text: &str) -> (r: Result<Json, String>)
    ensures
        match r {
            Ok(json) => reading(text@) == Ok::<JsonTree, Seq<char>>(json@),
            Err(words) => reading(text@) == Err::<JsonTree, Seq<char>>(words@),
        },
{
    match parse_value(text) {
        Ok(value) => Ok(from_value(value)),
        Err(words) => Err(words),
    }
}

proof fn lemma_lookup(members: Seq<(Seq<char>, JsonTree)>, key: Seq<char>, at: int)
    requires
        0 <= at <= members.len(),
        forall|i: int| 0 <= i < at ==> (#[trigger] members[i]).0 != key,
        at < members.len() ==> members[at].0 == key,
    ensures
        lookup(members, key) == if at < members.len() {
            Some(members[at].1)
        } else {
            None
        },
    decreases at,
{
    if at > 0 {
        assert(members[0].0 != key);
        lemma_lookup(members.drop_first(), key, at - 1);
    }
}

/// The contents of the members of an object.
pub open spec fn member_contents(members: Seq<(String, Json)>) -> Seq<(Seq<char>, JsonTree)> {
    Seq::new(members.len(), |i: int| (members[i].0@, members[i].1@))
}

/// The place of the first member with the key, or the number of members where
/// there is none.
fn member_place(members: &Vec<(String, Json)>, key: &str) -> (r: usize)
    ensures
        r <= members@.len(),
        forall|i: int| 0 <= i < r ==> (#[trigger] members@[i]).0@ != key@,
        r < members@.len() ==> members@[r as int].0@ == key@,
        lookup(member_contents(members@), key@) == if r < members@.len() {
            Some(members@[r as int].1@)
        } else {
            None
        },
{
    let mut i: usize = 0;
    while i < members.len() && !same(members[i].0.as_str(), key)
        invariant
            i <= members.len(),
            forall|j: int| 0 <= j < i ==> (#[trigger] members@[j]).0@ != key@,
        decreases members.len() - i,
    {
        i += 1;
    }
    proof {
        lemma_lookup(member_contents(members@), key@, i as int);
    }
    i
}

impl Json {
    /// The member with the key, where this is an object that has it.
    pub fn member(&self, key: &str) -> (r: Option<&Json>)
        ensures
            match r {
                Some(json) => self@.member(key@) == Some(json@),
                None => self@.member(key@) is None,
            },
    {
        match self {
            Json::Members(members) => {
                assert(self@->Members_0 =~= member_contents(members@));
                let place: usize = member_place(members, key);
                if place < members.len() {
                    Some(&members[place].1)
                } else {
                    None
                }
            },
            _ => None,
        }
    }

    /// A value with the same content.
    pub fn copy(&self) -> (r: Json)
        ensures
            r@ == self@,
        decreases self,
    {
        match self {
            Json::Null => Json::Null,
            Json::Flag(flag) => Json::Flag(*flag),
            Json::Count(count) => Json::Count(*count),
            Json::Number(number) => Json::Number(number.clone()),
            Json::Text(text) => Json::Text(text.clone()),
            Json::List(items) => {
                let list = copy_list(items);
                proof {
                    assert(contents(list@).len() == contents(items@).len());
                    assert forall|i: int| 0 <= i < items@.len() implies (#[trigger] list@[i])@
                        == items@[i]@ by {
                        assert(contents(list@)[i] == contents(items@)[i]);
                    }
                    assert(Json::List(list)@->List_0 =~= self@->List_0);
                }
                Json::List(list)
            },
            Json::Members(members) => {
                let mut list: Vec<(String, Json)> = Vec::new();
                let mut i: usize = 0;
                #[verifier::loop_isolation(false)]
                while i < members.len()
                    invariant
                        i <= members.len(),
                        list@.len() == i,
                        forall|j: int|
                            0 <= j < i ==> (#[trigger] list@[j]).0@ == members@[j].0@
                                && list@[j].1@ == members@[j].1@,
                    decreases members.len() - i,
                {
                    list.push((members[i].0.clone(), members[i].1.copy()));
                    i += 1;
                }
                assert(Json::Members(list)@->Members_0 =~= self@->Members_0);
                Json::Members(list)
            },
        }
    }
}

/// The contents of a list of values.
pub open spec fn contents(items: Seq<Json>) -> Seq<JsonTree> {
    Seq::new(items.len(), |i: int| items[i]@)
}

/// A list with the same contents.
pub fn copy_list(items: &Vec<Json>) -> (r: Vec<Json>)
    ensures
        contents(r@) == contents(items@),
    decreases items,
{
    let mut list: Vec<Json> = Vec::new();
    let mut i: usize = 0;
    #[verifier::loop_isolation(false)]
    while i < items.len()
        invariant
            i <= items.len(),
            list@.len() == i,
            forall|j: int| 0 <= j < i ==> (#[trigger] list@[j])@ == items@[j]@,
        decreases items.len() - i,
    {
        list.push(items[i].copy());
        i += 1;
    }
    list
}

/// A map from keys to JSON values.
#[derive(Debug)]
pub struct JsonMap {
    pub entries: Vec<(String, Json)>,
}

impl View for JsonMap {
    type V = Map<Seq<char>, JsonTree>;

    open spec fn view(&self) -> Map<Seq<char>, JsonTree> {
        mapping(member_contents(self.entries@))
    }
}

impl JsonMap {
    /// No key occurs twice.
    pub open spec fn distinct(self) -> bool {
        forall|i: int, j: int|
            0 <= i < j < self.entries@.len() ==> (#[trigger] self.entries@[i]).0@ != (
            #[trigger] self.entries@[j]).0@
    }

    /// A map without entries.
    pub fn new() -> (r: JsonMap)
        ensures
            r@ == Map::<Seq<char>, JsonTree>::empty(),
            r.distinct(),
    {
        let map = JsonMap { entries: Vec::new() };
        assert(map@ =~= Map::<Seq<char>, JsonTree>::empty());
        map
    }

    /// Gives the key the value, whatever it had before.
    pub fn insert(&mut self, key: &str, value: Json)
        ensures
            final(self)@ == old(self)@.insert(key@, value@),
            old(self).distinct() ==> final(self).distinct(),
    {
        let ghost before = member_contents(self.entries@);
        let place: usize = member_place(&self.entries, key);
        if place < self.entries.len() {
            self.entries.set(place, (key.to_owned(), value));
        } else {
            self.entries.push((key.to_owned(), value));
        }
        proof {
            let after = member_contents(self.entries@);
            assert forall|k: Seq<char>| #[trigger] lookup(after, k) == if k == key@ {
                Some(value@)
            } else {
                lookup(before, k)
            } by {
                if place < before.len() {
                    assert(after =~= before.update(place as int, (key@, value@)));
                    lemma_lookup_update(before, place as int, key@, value@, k);
                } else {
                    assert(after =~= before.push((key@, value@)));
                    assert forall|i: int| 0 <= i < before.len() implies (#[trigger] before[i]).0
                        != key@ by {
                        assert(self.entries@[i].0@ != key@);
                    }
                    lemma_lookup_push(before, key@, value@, k);
                }
            }
            assert(self@ =~= old(self)@.insert(key@, value@));
        }
    }

    /// The value of the key, where it has one.
    pub fn get(&self, key: &str) -> (r: Option<&Json>)
        ensures
            match r {
                Some(json) => self@.contains_key(key@) && self@[key@] == json@,
                None => !self@.contains_key(key@),
            },
    {
        let place: usize = member_place(&self.entries, key);
        if place < self.entries.len() {
            Some(&self.entries[place].1)
        } else {
            None
        }
    }

    /// Gives every key of `other` the value that it has there.
    pub fn extend(&mut self, other: &JsonMap)
        ensures
            final(self)@ == old(self)@.union_prefer_right(other@),
            old(self).distinct() ==> final(self).distinct(),
    {
        let mut left: usize = other.entries.len();
        let ghost content = member_contents(other.entries@);
        proof {
            assert(content.skip(content.len() as int) =~= Seq::empty());
            assert(self@ =~= old(self)@.union_prefer_right(mapping(Seq::empty())));
        }
        while left > 0
            invariant
                left <= other.entries@.len(),
                content == member_contents(other.entries@),
                self@ == old(self)@.union_prefer_right(mapping(content.skip(left as int))),
                old(self).distinct() ==> self.distinct(),
            decreases left,
        {
            left -= 1;
            let entry = &other.entries[left];
            self.insert(entry.0.as_str(), entry.1.copy());
            proof {
                let rest = content.skip(left as int);
                assert(rest.drop_first() =~= content.skip(left + 1));
                assert(rest[0] == (entry.0@, entry.1@));
                assert(mapping(rest) =~= mapping(rest.drop_first()).insert(entry.0@, entry.1@));
                assert(self@ =~= old(self)@.union_prefer_right(mapping(rest)));
            }
        }
        assert(content.skip(0) =~= content);
    }
}

/// The map that a list of members stands for.
pub open spec fn mapping(members: Seq<(Seq<char>, JsonTree)>) -> Map<Seq<char>, JsonTree> {
    Map::new(
        |key: Seq<char>| lookup(members, key) is Some,
        |key: Seq<char>| lookup(members, key)->0,
    )
}

proof fn lemma_lookup_update(
    members: Seq<(Seq<char>, JsonTree)>,
    place: int,
    key: Seq<char>,
    value: JsonTree,
    wanted: Seq<char>,
)
    requires
        0 <= place < members.len(),
        members[place].0 == key,
        forall|i: int| 0 <= i < place ==> (#[trigger] members[i]).0 != key,
    ensures
        lookup(members.update(place, (key, value)), wanted) == if wanted == key {
            Some(value)
        } else {
            lookup(members, wanted)
        },
    decreases members.len(),
{
    let after = members.update(place, (key, value));
    if place == 0 {
        assert(after.drop_first() =~= members.drop_first());
    } else {
        assert(members[0].0 != key);
        assert(after.drop_first() =~= members.drop_first().update(place - 1, (key, value)));
        lemma_lookup_update(members.drop_first(), place - 1, key, value, wanted);
    }
}

proof fn lemma_lookup_push(
    members: Seq<(Seq<char>, JsonTree)>,
    key: Seq<char>,
    value: JsonTree,
    wanted: Seq<char>,
)
    requires
        forall|i: int| 0 <= i < members.len() ==> (#[trigger] members[i]).0 != key,
    ensures
        lookup(members.push((key, value)), wanted) == if wanted == key {
            Some(value)
        } else {
            lookup(members, wanted)
        },
    decreases members.len(),
{
    let after = members.push((key, value));
    if members.len() == 0 {
        assert(after.drop_first() =~= Seq::empty());
    } else {
        assert(members[0].0 != key);
        assert(after.drop_first() =~= members.drop_first().push((key, value)));
        lemma_lookup_push(members.drop_first(), key, value, wanted);
    }
}

} // verus!
