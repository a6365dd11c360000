//! JSON values: what an operation is given and what it answers.

use vstd::prelude::*;
use vstd::string::*;

use crate::text::{str_eq, texts};

verus! {

/// The model of a JSON value. A whole number is its value, any other number its
/// text, an object the list of its members.
#[verifier::ext_equal]
pub enum JsonView {
    Null,
    Bool(bool),
    Int(int),
    Float(Seq<char>),
    Str(Seq<char>),
    Array(Seq<JsonView>),
    Object(Seq<(Seq<char>, JsonView)>),
}

/// A JSON value.
#[derive(Debug, PartialEq, Eq)]
pub enum Json {
    Null,
    Bool(bool),
    /// A whole number.
    Int(i128),
    /// Any other number, by its text.
    Float(String),
    Str(String),
    Array(Vec<Json>),
    /// The members in the order in which the object lists them.
    Object(Vec<(String, Json)>),
}

/// The value of the first member named `key`.
pub open spec fn lookup(members: Seq<(Seq<char>, JsonView)>, key: Seq<char>) -> Option<JsonView>
    decreases members.len(),
{
    if members.len() == 0 {
        None
    } else if members[0].0 == key {
        Some(members[0].1)
    } else {
        lookup(members.skip(1), key)
    }
}

impl JsonView {
    /// An object without members.
    pub open spec fn object() -> JsonView {
        JsonView::Object(Seq::empty())
    }

    /// The object with one member more, behind the others.
    pub open spec fn with(self, key: Seq<char>, value: JsonView) -> JsonView {
        match self {
            JsonView::Object(members) => JsonView::Object(members.push((key, value))),
            _ => self,
        }
    }

    /// The member named `key`, where the value is an object that has one.
    pub open spec fn get(self, key: Seq<char>) -> Option<JsonView> {
        match self {
            JsonView::Object(members) => lookup(members, key),
            _ => None,
        }
    }

    /// The text, where the value is a string.
    pub open spec fn as_str(self) -> Option<Seq<char>> {
        match self {
            JsonView::Str(s) => Some(s),
            _ => None,
        }
    }

    /// The number, where the value is a whole number that fits.
    pub open spec fn as_u64(self) -> Option<u64> {
        match self {
            JsonView::Int(n) => if 0 <= n <= u64::MAX {
                Some(n as u64)
            } else {
                None
            },
            _ => None,
        }
    }

    /// The number, where the value is a whole number that fits.
    pub open spec fn as_i64(self) -> Option<i64> {
        match self {
            JsonView::Int(n) => if i64::MIN <= n <= i64::MAX {
                Some(n as i64)
            } else {
                None
            },
            _ => None,
        }
    }

    /// The truth value, where the value is one.
    pub open spec fn as_bool(self) -> Option<bool> {
        match self {
            JsonView::Bool(b) => Some(b),
            _ => None,
        }
    }

    /// The items, where the value is an array.
    pub open spec fn as_array(self) -> Option<Seq<JsonView>> {
        match self {
            JsonView::Array(items) => Some(items),
            _ => None,
        }
    }

    /// The members, where the value is an object.
    pub open spec fn as_object(self) -> Option<Seq<(Seq<char>, JsonView)>> {
        match self {
            JsonView::Object(members) => Some(members),
            _ => None,
        }
    }

    /// The text of the member `key`.
    pub open spec fn text(self, key: Seq<char>) -> Option<Seq<char>> {
        match self.get(key) {
            Some(v) => v.as_str(),
            None => None,
        }
    }

    /// The unsigned number of the member `key`.
    pub open spec fn unsigned(self, key: Seq<char>) -> Option<u64> {
        match self.get(key) {
            Some(v) => v.as_u64(),
            None => None,
        }
    }

    /// The signed number of the member `key`.
    pub open spec fn signed(self, key: Seq<char>) -> Option<i64> {
        match self.get(key) {
            Some(v) => v.as_i64(),
            None => None,
        }
    }

    /// The truth value of the member `key`.
    pub open spec fn flag(self, key: Seq<char>) -> Option<bool> {
        match self.get(key) {
            Some(v) => v.as_bool(),
            None => None,
        }
    }

    /// The items of the member `key`.
    pub open spec fn items(self, key: Seq<char>) -> Option<Seq<JsonView>> {
        match self.get(key) {
            Some(v) => v.as_array(),
            None => None,
        }
    }

    /// The members of the member `key`.
    pub open spec fn members(self, key: Seq<char>) -> Option<Seq<(Seq<char>, JsonView)>> {
        match self.get(key) {
            Some(v) => v.as_object(),
            None => None,
        }
    }

    /// A string, or null in the absence of one.
    pub open spec fn opt_str(text: Option<Seq<char>>) -> JsonView {
        match text {
            Some(s) => JsonView::Str(s),
            None => JsonView::Null,
        }
    }

    /// A number, or null in the absence of one.
    pub open spec fn opt_int(n: Option<i64>) -> JsonView {
        match n {
            Some(n) => JsonView::Int(n as int),
            None => JsonView::Null,
        }
    }

    /// An array of numbers.
    pub open spec fn numbers(list: Seq<u64>) -> JsonView {
        JsonView::Array(list.map_values(|n: u64| JsonView::Int(n as int)))
    }

    /// An array of signed numbers.
    pub open spec fn ints(list: Seq<i32>) -> JsonView {
        JsonView::Array(list.map_values(|n: i32| JsonView::Int(n as int)))
    }

    /// An array of strings.
    pub open spec fn strings(list: Seq<Seq<char>>) -> JsonView {
        JsonView::Array(list.map_values(|s: Seq<char>| JsonView::Str(s)))
    }
}

/// The members with one set: in its place where it has one, else behind the
/// others.
pub open spec fn put_member(
    members: Seq<(Seq<char>, JsonView)>,
    key: Seq<char>,
    value: JsonView,
) -> Seq<(Seq<char>, JsonView)>
    decreases members.len(),
{
    if members.len() == 0 {
        seq![(key, value)]
    } else if members[0].0 == key {
        seq![(key, value)] + members.skip(1)
    } else {
        seq![members[0]] + put_member(members.skip(1), key, value)
    }
}

/// Sets a member.
pub fn set_member(members: &mut Vec<(String, Json)>, key: String, value: Json)
    ensures
        member_views(final(members)@) == put_member(member_views(old(members)@), key@, value@),
{
    let ghost all = member_views(members@);
    let mut i: usize = 0;
    assert(all.skip(0) =~= all);
    assert(all.take(0) + put_member(all, key@, value@) =~= put_member(all, key@, value@));
    while i < members.len()
        invariant
            i <= members@.len(),
            *members == *old(members),
            all == member_views(members@),
            all.take(i as int) + put_member(all.skip(i as int), key@, value@) == put_member(
                all,
                key@,
                value@,
            ),
        decreases members@.len() - i,
    {
        let ghost rest = all.skip(i as int);
        proof {
            assert(rest[0] == all[i as int]);
            assert(rest.skip(1) =~= all.skip(i + 1));
        }
        if str_eq(members[i].0.as_str(), key.as_str()) {
            let ghost entry = (key@, value@);
            members.set(i, (key, value));
            assert(member_views(members@) =~= all.take(i as int) + (seq![entry] + rest.skip(1)));
            return;
        }
        assert(all.take(i + 1) + put_member(all.skip(i + 1), key@, value@) =~= all.take(i as int) + (
        seq![rest[0]] + put_member(rest.skip(1), key@, value@)));
        i = i + 1;
    }
    let ghost entry = (key@, value@);
    members.push((key, value));
    proof {
        assert(all.skip(i as int) =~= Seq::empty());
        assert(member_views(members@) =~= all.take(i as int) + seq![entry]);
    }
}

/// A member that was set is found, and no other is changed.
pub proof fn law_put_member(
    members: Seq<(Seq<char>, JsonView)>,
    key: Seq<char>,
    value: JsonView,
    other: Seq<char>,
)
    ensures
        lookup(put_member(members, key, value), other) == if other == key {
            Some(value)
        } else {
            lookup(members, other)
        },
    decreases members.len(),
{
    let after = put_member(members, key, value);
    assert(after.len() > 0);
    if members.len() == 0 {
        assert(after.skip(1) =~= members);
        assert(after[0].0 == key);
    } else if members[0].0 == key {
        assert(after.skip(1) =~= members.skip(1));
    } else {
        law_put_member(members.skip(1), key, value, other);
        assert(after.skip(1) =~= put_member(members.skip(1), key, value));
    }
}

/// The models of a list of values.
pub open spec fn views(items: Seq<Json>) -> Seq<JsonView> {
    items.map_values(|j: Json| j@)
}

/// The models of a list of members.
pub open spec fn member_views(members: Seq<(String, Json)>) -> Seq<(Seq<char>, JsonView)> {
    members.map_values(|m: (String, Json)| (m.0@, m.1@))
}

impl Json {
    /// The model of the value.
    pub open spec fn model(self) -> JsonView
        decreases self,
    {
        match self {
            Json::Null => JsonView::Null,
            Json::Bool(b) => JsonView::Bool(b),
            Json::Int(n) => JsonView::Int(n as int),
            Json::Float(s) => JsonView::Float(s@),
            Json::Str(s) => JsonView::Str(s@),
            Json::Array(items) => JsonView::Array(
                Seq::new(
                    items@.len(),
                    |i: int|
                        if 0 <= i < items@.len() {
                            items@[i].model()
                        } else {
                            JsonView::Null
                        },
                ),
            ),
            Json::Object(members) => JsonView::Object(
                Seq::new(
                    members@.len(),
                    |i: int|
                        if 0 <= i < members@.len() {
                            (members@[i].0@, members@[i].1.model())
                        } else {
                            (Seq::<char>::empty(), JsonView::Null)
                        },
                ),
            ),
        }
    }

    /// The model of an array is the list of its items' models.
    pub proof fn lemma_array(items: Vec<Json>)
        ensures
            Json::Array(items)@ == JsonView::Array(views(items@)),
    {
        assert(Json::Array(items).model()->Array_0 =~= views(items@));
    }

    /// The model of an object is the list of its members' models.
    pub proof fn lemma_object(members: Vec<(String, Json)>)
        ensures
            Json::Object(members)@ == JsonView::Object(member_views(members@)),
    {
        assert(Json::Object(members).model()->Object_0 =~= member_views(members@));
    }

    /// An object without members.
    pub fn object() -> (r: Json)
        ensures
            r@ == JsonView::object(),
    {
        let members: Vec<(String, Json)> = Vec::new();
        proof {
            Json::lemma_object(members);
            assert(member_views(members@) =~= Seq::empty());
        }
        Json::Object(members)
    }

    /// The object with one member more, behind the others.
    pub fn with(self, key: &str, value: Json) -> (r: Json)
        ensures
            r@ == self@.with(key@, value@),
    {
        match self {
            Json::Object(ms) => {
                let mut members = ms;
                let name = key.to_owned();
                proof {
                    Json::lemma_object(members);
                    assert(member_views(members@.push((name, value))) =~= member_views(
                        members@,
                    ).push((key@, value@)));
                }
                members.push((name, value));
                proof {
                    Json::lemma_object(members);
                }
                Json::Object(members)
            },
            other => other,
        }
    }

    /// The member named `key`, where the value is an object that has one.
    pub fn get(&self, key: &str) -> (r: Option<&Json>)
        ensures
            match r {
                Some(v) => self@.get(key@) == Some(v@),
                None => self@.get(key@) is None,
            },
    {
        match self {
            Json::Object(members) => {
                proof {
                    Json::lemma_object(*members);
                }
                let ghost all = member_views(members@);
                let mut i: usize = 0;
                assert(all.skip(0) =~= all);
                while i < members.len()
                    invariant
                        i <= members@.len(),
                        all == member_views(members@),
                        self@ == JsonView::Object(all),
                        lookup(all.skip(i as int), key@) == lookup(all, key@),
                    decreases members@.len() - i,
                {
                    assert(all.skip(i as int)[0] == all[i as int]);
                    if str_eq(members[i].0.as_str(), key) {
                        return Some(&members[i].1);
                    }
                    assert(all.skip(i as int).skip(1) =~= all.skip(i + 1));
                    i = i + 1;
                }
                None
            },
            _ => None,
        }
    }

    /// The text, where the value is a string.
    pub fn as_str(&self) -> (r: Option<&str>)
        ensures
            match r {
                Some(s) => self@.as_str() == Some(s@),
                None => self@.as_str() is None,
            },
    {
        match self {
            Json::Str(s) => Some(s.as_str()),
            _ => None,
        }
    }

    /// The number, where the value is a whole number that fits.
    pub fn as_u64(&self) -> (r: Option<u64>)
        ensures
            r == self@.as_u64(),
    {
        match self {
            Json::Int(n) => if 0 <= *n && *n <= u64::MAX as i128 {
                Some(*n as u64)
            } else {
                None
            },
            _ => None,
        }
    }

    /// The number, where the value is a whole number that fits.
    pub fn as_i64(&self) -> (r: Option<i64>)
        ensures
            r == self@.as_i64(),
    {
        match self {
            Json::Int(n) => if i64::MIN as i128 <= *n && *n <= i64::MAX as i128 {
                Some(*n as i64)
            } else {
                None
            },
            _ => None,
        }
    }

    /// The truth value, where the value is one.
    pub fn as_bool(&self) -> (r: Option<bool>)
        ensures
            r == self@.as_bool(),
    {
        match self {
            Json::Bool(b) => Some(*b),
            _ => None,
        }
    }

    /// The items, where the value is an array.
    pub fn as_array(&self) -> (r: Option<&Vec<Json>>)
        ensures
            match r {
                Some(items) => self@.as_array() == Some(views(items@)),
                None => self@.as_array() is None,
            },
    {
        match self {
            Json::Array(items) => {
                proof {
                    Json::lemma_array(*items);
                }
                Some(items)
            },
            _ => None,
        }
    }

    /// The members, where the value is an object.
    pub fn as_object(&self) -> (r: Option<&Vec<(String, Json)>>)
        ensures
            match r {
                Some(members) => self@.as_object() == Some(member_views(members@)),
                None => self@.as_object() is None,
            },
    {
        match self {
            Json::Object(members) => {
                proof {
                    Json::lemma_object(*members);
                }
                Some(members)
            },
            _ => None,
        }
    }

    /// The text of the member `key`.
    pub fn text(&self, key: &str) -> (r: Option<&str>)
        ensures
            match r {
                Some(s) => self@.text(key@) == Some(s@),
                None => self@.text(key@) is None,
            },
    {
        match self.get(key) {
            Some(v) => v.as_str(),
            None => None,
        }
    }

    /// The unsigned number of the member `key`.
    pub fn unsigned(&self, key: &str) -> (r: Option<u64>)
        ensures
            r == self@.unsigned(key@),
    {
        match self.get(key) {
            Some(v) => v.as_u64(),
            None => None,
        }
    }

    /// The signed number of the member `key`.
    pub fn signed(&self, key: &str) -> (r: Option<i64>)
        ensures
            r == self@.signed(key@),
    {
        match self.get(key) {
            Some(v) => v.as_i64(),
            None => None,
        }
    }

    /// The truth value of the member `key`.
    pub fn flag(&self, key: &str) -> (r: Option<bool>)
        ensures
            r == self@.flag(key@),
    {
        match self.get(key) {
            Some(v) => v.as_bool(),
            None => None,
        }
    }

    /// The items of the member `key`.
    pub fn items(&self, key: &str) -> (r: Option<&Vec<Json>>)
        ensures
            match r {
                Some(items) => self@.items(key@) == Some(views(items@)),
                None => self@.items(key@) is None,
            },
    {
        match self.get(key) {
            Some(v) => v.as_array(),
            None => None,
        }
    }

    /// The members of the member `key`.
    pub fn members(&self, key: &str) -> (r: Option<&Vec<(String, Json)>>)
        ensures
            match r {
                Some(members) => self@.members(key@) == Some(member_views(members@)),
                None => self@.members(key@) is None,
            },
    {
        match self.get(key) {
            Some(v) => v.as_object(),
            None => None,
        }
    }

    /// A string.
    pub fn str(text: &str) -> (r: Json)
        ensures
            r@ == JsonView::Str(text@),
    {
        Json::Str(text.to_owned())
    }

    /// A string, or null in the absence of one.
    pub fn opt_str(text: Option<String>) -> (r: Json)
        ensures
            r@ == JsonView::opt_str(
                match text {
                    Some(s) => Some(s@),
                    None => None,
                },
            ),
    {
        match text {
            Some(s) => Json::Str(s),
            None => Json::Null,
        }
    }

    /// A number, or null in the absence of one.
    pub fn opt_int(n: Option<i64>) -> (r: Json)
        ensures
            r@ == JsonView::opt_int(n),
    {
        match n {
            Some(n) => Json::Int(n as i128),
            None => Json::Null,
        }
    }

    /// An array of values.
    pub fn array(items: Vec<Json>) -> (r: Json)
        ensures
            r@ == JsonView::Array(views(items@)),
    {
        proof {
            Json::lemma_array(items);
        }
        Json::Array(items)
    }

    /// An array of numbers.
    pub fn numbers(list: &Vec<u64>) -> (r: Json)
        ensures
            r@ == JsonView::numbers(list@),
    {
        let mut items: Vec<Json> = Vec::new();
        let mut i: usize = 0;
        while i < list.len()
            invariant
                i <= list@.len(),
                items@.len() == i,
                forall|j: int|
                    0 <= j < i ==> (#[trigger] items@[j])@ == JsonView::Int(list@[j] as int),
            decreases list@.len() - i,
        {
            items.push(Json::Int(list[i] as i128));
            i = i + 1;
        }
        proof {
            Json::lemma_array(items);
            assert(views(items@) =~= list@.map_values(|n: u64| JsonView::Int(n as int)));
        }
        Json::Array(items)
    }

    /// An array of signed numbers.
    pub fn ints(list: &Vec<i32>) -> (r: Json)
        ensures
            r@ == JsonView::ints(list@),
    {
        let mut items: Vec<Json> = Vec::new();
        let mut i: usize = 0;
        while i < list.len()
            invariant
                i <= list@.len(),
                items@.len() == i,
                forall|j: int|
                    0 <= j < i ==> (#[trigger] items@[j])@ == JsonView::Int(list@[j] as int),
            decreases list@.len() - i,
        {
            items.push(Json::Int(list[i] as i128));
            i = i + 1;
        }
        proof {
            Json::lemma_array(items);
            assert(views(items@) =~= list@.map_values(|n: i32| JsonView::Int(n as int)));
        }
        Json::Array(items)
    }

    /// An array of strings.
    pub fn strings(list: &Vec<String>) -> (r: Json)
        ensures
            r@ == JsonView::strings(texts(list@)),
    {
        let mut items: Vec<Json> = Vec::new();
        let mut i: usize = 0;
        while i < list.len()
            invariant
                i <= list@.len(),
                items@.len() == i,
                forall|j: int| 0 <= j < i ==> (#[trigger] items@[j])@ == JsonView::Str(list@[j]@),
            decreases list@.len() - i,
        {
            items.push(Json::Str(list[i].clone()));
            i = i + 1;
        }
        proof {
            Json::lemma_array(items);
            assert(views(items@) =~= texts(list@).map_values(|s: Seq<char>| JsonView::Str(s)));
        }
        Json::Array(items)
    }
}

impl View for Json {
    type V = JsonView;

    open spec fn view(&self) -> JsonView {
        self.model()
    }
}

// ---- what values and members are ----

/// A member is found behind those that an object had before, which are found as they
/// were.
pub broadcast proof fn law_with_member(object: JsonView, key: Seq<char>, value: JsonView, other: Seq<char>)
    requires
        object is Object,
    ensures
        (#[trigger] object.with(key, value).get(other)) == match object.get(other) {
            Some(v) => Some(v),
            None => if other == key {
                Some(value)
            } else {
                None
            },
        },
{
    lemma_lookup_pushed(object->Object_0, key, value, other);
}

proof fn lemma_lookup_pushed(
    members: Seq<(Seq<char>, JsonView)>,
    key: Seq<char>,
    value: JsonView,
    other: Seq<char>,
)
    ensures
        lookup(members.push((key, value)), other) == match lookup(members, other) {
            Some(v) => Some(v),
            None => if other == key {
                Some(value)
            } else {
                None
            },
        },
    decreases members.len(),
{
    let after = members.push((key, value));
    if members.len() == 0 {
        assert(after.skip(1) =~= members);
    } else {
        lemma_lookup_pushed(members.skip(1), key, value, other);
        assert(after.skip(1) =~= members.skip(1).push((key, value)));
    }
}

/// An object stays one when it gets a member, and holds the member behind the others.
pub broadcast proof fn law_with_object(object: JsonView, key: Seq<char>, value: JsonView)
    requires
        object is Object,
    ensures
        (#[trigger] object.with(key, value)) is Object,
        object.with(key, value)->Object_0.len() == object->Object_0.len() + 1,
        object.with(key, value)->Object_0.last() == (key, value),
{
}

/// An object without members has none.
pub broadcast proof fn law_no_member(key: Seq<char>)
    ensures
        (#[trigger] JsonView::object().get(key)) is None,
        JsonView::object() is Object,
        JsonView::object()->Object_0.len() == 0,
{
}

pub broadcast group group_members {
    law_with_member,
    law_with_object,
    law_no_member,
}

/// The member found under a name is the first of that name; none is found exactly where
/// there is none.
pub proof fn law_first_member(members: Seq<(Seq<char>, JsonView)>, key: Seq<char>)
    ensures
        match JsonView::Object(members).get(key) {
            Some(v) => exists|i: int|
                0 <= i < members.len() && #[trigger] members[i] == (key, v) && forall|j: int|
                    0 <= j < i ==> (#[trigger] members[j]).0 != key,
            None => forall|i: int| 0 <= i < members.len() ==> (#[trigger] members[i]).0 != key,
        },
    decreases members.len(),
{
    if members.len() > 0 && members[0].0 != key {
        let rest = members.skip(1);
        law_first_member(rest, key);
        assert forall|i: int| 0 <= i < rest.len() implies #[trigger] rest[i] == members[i + 1] by {}
        match JsonView::Object(rest).get(key) {
            Some(v) => {
                let i = choose|i: int|
                    0 <= i < rest.len() && #[trigger] rest[i] == (key, v) && forall|j: int|
                        0 <= j < i ==> (#[trigger] rest[j]).0 != key;
                assert(members[i + 1] == (key, v));
                assert forall|j: int| 0 <= j < i + 1 implies (#[trigger] members[j]).0 != key by {
                    if j > 0 {
                        assert(rest[j - 1] == members[j]);
                    }
                }
            },
            None => {
                assert forall|i: int| 0 <= i < members.len() implies (#[trigger] members[i]).0
                    != key by {
                    if i > 0 {
                        assert(rest[i - 1] == members[i]);
                    }
                }
            },
        }
    } else if members.len() > 0 {
        assert(members[0] == (key, members[0].1));
    }
}

/// Only an object has members.
pub proof fn law_only_objects_have_members(value: JsonView, key: Seq<char>)
    requires
        !(value is Object),
    ensures
        value.get(key) is None,
{
}

/// What a value is read as is what it is, and it is read as nothing else.
pub proof fn law_value_read(value: JsonView, s: Seq<char>, n: int, b: bool)
    ensures
        value.as_str() == Some(s) <==> value == JsonView::Str(s),
        value.as_bool() == Some(b) <==> value == JsonView::Bool(b),
        0 <= n <= u64::MAX ==> (value.as_u64() == Some(n as u64) <==> value == JsonView::Int(n)),
        i64::MIN <= n <= i64::MAX ==> (value.as_i64() == Some(n as i64) <==> value
            == JsonView::Int(n)),
        value.as_u64() is None <==> !(value matches JsonView::Int(k) && 0 <= k <= u64::MAX),
        value.as_i64() is None <==> !(value matches JsonView::Int(k) && i64::MIN <= k <= i64::MAX),
        value.as_str() is None <==> !(value is Str),
        value.as_bool() is None <==> !(value is Bool),
{
}

/// The items and the members that a value is read as are all of its own.
pub proof fn law_parts_read(value: JsonView)
    ensures
        match value {
            JsonView::Array(items) => value.as_array() == Some(items),
            _ => value.as_array() is None,
        },
        match value {
            JsonView::Object(members) => value.as_object() == Some(members),
            _ => value.as_object() is None,
        },
{
}

/// What is read of a member is what is read of the value found under its name.
pub proof fn law_member_read(object: JsonView, key: Seq<char>)
    ensures
        match object.get(key) {
            Some(JsonView::Str(s)) => object.text(key) == Some(s),
            _ => object.text(key) is None,
        },
        match object.get(key) {
            Some(JsonView::Bool(b)) => object.flag(key) == Some(b),
            _ => object.flag(key) is None,
        },
        match object.get(key) {
            Some(JsonView::Int(n)) => if 0 <= n <= u64::MAX {
                object.unsigned(key) == Some(n as u64)
            } else {
                object.unsigned(key) is None
            },
            _ => object.unsigned(key) is None,
        },
        match object.get(key) {
            Some(JsonView::Int(n)) => if i64::MIN <= n <= i64::MAX {
                object.signed(key) == Some(n as i64)
            } else {
                object.signed(key) is None
            },
            _ => object.signed(key) is None,
        },
        match object.get(key) {
            Some(JsonView::Array(items)) => object.items(key) == Some(items),
            _ => object.items(key) is None,
        },
        match object.get(key) {
            Some(JsonView::Object(members)) => object.members(key) == Some(members),
            _ => object.members(key) is None,
        },
{
}

/// Something that may be there is shown as it is, and as null exactly where it is not.
pub proof fn law_optional_shown(text: Option<Seq<char>>, number: Option<i64>)
    ensures
        match text {
            Some(s) => JsonView::opt_str(text) == JsonView::Str(s),
            None => JsonView::opt_str(text) == JsonView::Null,
        },
        match number {
            Some(n) => JsonView::opt_int(number) == JsonView::Int(n as int),
            None => JsonView::opt_int(number) == JsonView::Null,
        },
{
}

/// A list is shown item by item.
pub proof fn law_lists_shown(numbers: Seq<u64>, ints: Seq<i32>, strings: Seq<Seq<char>>, i: int)
    ensures
        JsonView::numbers(numbers) matches JsonView::Array(items) && items.len() == numbers.len()
            && (0 <= i < items.len() ==> items[i] == JsonView::Int(numbers[i] as int)),
        JsonView::ints(ints) matches JsonView::Array(items) && items.len() == ints.len() && (0 <= i
            < items.len() ==> items[i] == JsonView::Int(ints[i] as int)),
        JsonView::strings(strings) matches JsonView::Array(items) && items.len() == strings.len()
            && (0 <= i < items.len() ==> items[i] == JsonView::Str(strings[i])),
{
}

/// The model of a value is the same kind of value, with the same parts in the same
/// order.
pub proof fn law_model(value: Json, i: int)
    ensures
        match value {
            Json::Null => value@ == JsonView::Null,
            Json::Bool(b) => value@ == JsonView::Bool(b),
            Json::Int(n) => value@ == JsonView::Int(n as int),
            Json::Float(s) => value@ == JsonView::Float(s@),
            Json::Str(s) => value@ == JsonView::Str(s@),
            Json::Array(items) => value@ matches JsonView::Array(all) && all.len() == items@.len()
                && (0 <= i < all.len() ==> all[i] == items@[i]@),
            Json::Object(members) => value@ matches JsonView::Object(all) && all.len()
                == members@.len() && (0 <= i < all.len() ==> all[i] == (
                members@[i].0@,
                members@[i].1@,
            )),
        },
{
}

/// Setting a member keeps the others in their places, and puts a new one behind them.
pub proof fn law_put_member_place(
    members: Seq<(Seq<char>, JsonView)>,
    key: Seq<char>,
    value: JsonView,
)
    ensures
        ({
            let after = put_member(members, key, value);
            let there = JsonView::Object(members).get(key) is Some;
            &&& after.len() == members.len() + if there {
                0int
            } else {
                1
            }
            &&& forall|i: int|
                0 <= i < members.len() ==> (#[trigger] after[i]).0 == members[i].0 && (members[i].0
                    != key ==> after[i] == members[i])
            &&& !there ==> after.last() == (key, value)
        }),
    decreases members.len(),
{
    let after = put_member(members, key, value);
    if members.len() > 0 && members[0].0 != key {
        law_put_member_place(members.skip(1), key, value);
        let rest = put_member(members.skip(1), key, value);
        assert forall|i: int| 0 <= i < members.len() implies (#[trigger] after[i]).0
            == members[i].0 && (members[i].0 != key ==> after[i] == members[i]) by {
            if i > 0 {
                assert(after[i] == rest[i - 1]);
                assert(members.skip(1)[i - 1] == members[i]);
            }
        }
    }
}

} // verus!
