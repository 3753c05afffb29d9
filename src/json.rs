//! A plain model of a parsed JSON document, and member lookup on it.
use vstd::prelude::*;
use crate::text::str_eq;

verus! {

/// The mathematical value of a JSON document.
pub enum Json {
    Null,
    Bool(bool),
    Unsigned(u64),
    Decimal(Seq<char>),
    Str(Seq<char>),
    Array(Seq<Json>),
    Object(Seq<(Seq<char>, Json)>),
}

/// One `"key": value` member of a JSON object.
#[derive(Debug, PartialEq, Eq)]
pub struct Member {
    pub key: String,
    pub value: JsonValue,
}

/// A parsed JSON document held as plain values.
///
/// Numbers come in two forms: a non-negative integer that fits in 64 bits is
/// `Unsigned`; any other number is `Decimal`, written out in plain decimal
/// notation (`-3`, `894.3`). Object members keep the order of the source.
#[derive(Debug, PartialEq, Eq)]
pub enum JsonValue {
    Null,
    Bool(bool),
    Unsigned(u64),
    Decimal(String),
    Str(String),
    Array(Vec<JsonValue>),
    Object(Vec<Member>),
}

/// The values of a sequence of documents.
pub open spec fn view_items(s: Seq<JsonValue>) -> Seq<Json>
    decreases s,
{
    if s.len() == 0 {
        Seq::empty()
    } else {
        view_items(s.drop_last()).push(s.last().view())
    }
}

/// The values of a sequence of object members.
pub open spec fn view_members(s: Seq<Member>) -> Seq<(Seq<char>, Json)>
    decreases s,
{
    if s.len() == 0 {
        Seq::empty()
    } else {
        view_members(s.drop_last()).push((s.last().key@, s.last().value.view()))
    }
}

impl View for JsonValue {
    type V = Json;

    open spec fn view(&self) -> Json
        decreases self,
    {
        match self {
            JsonValue::Null => Json::Null,
            JsonValue::Bool(b) => Json::Bool(*b),
            JsonValue::Unsigned(n) => Json::Unsigned(*n),
            JsonValue::Decimal(t) => Json::Decimal(t@),
            JsonValue::Str(s) => Json::Str(s@),
            JsonValue::Array(items) => Json::Array(view_items(items@)),
            JsonValue::Object(members) => Json::Object(view_members(members@)),
        }
    }
}

pub proof fn lemma_view_items(s: Seq<JsonValue>)
    ensures
        view_items(s).len() == s.len(),
        forall|i: int| 0 <= i < s.len() ==> #[trigger] view_items(s)[i] == s[i]@,
    decreases s.len(),
{
    if s.len() > 0 {
        lemma_view_items(s.drop_last());
        assert(view_items(s) == view_items(s.drop_last()).push(s.last().view()));
    } else {
        assert(view_items(s) == Seq::<Json>::empty());
    }
}

pub proof fn lemma_view_members(s: Seq<Member>)
    ensures
        view_members(s).len() == s.len(),
        forall|i: int|
            0 <= i < s.len() ==> #[trigger] view_members(s)[i] == (s[i].key@, s[i].value@),
    decreases s.len(),
{
    if s.len() > 0 {
        lemma_view_members(s.drop_last());
        assert(view_members(s) == view_members(s.drop_last()).push(
            (s.last().key@, s.last().value.view()),
        ));
    } else {
        assert(view_members(s) == Seq::<(Seq<char>, Json)>::empty());
    }
}

/// The value of an optional document.
pub open spec fn opt_view(o: Option<&JsonValue>) -> Option<Json> {
    match o {
        Some(j) => Some(j@),
        None => None,
    }
}

/// The value of the first member named `key`, if any.
pub open spec fn lookup(members: Seq<(Seq<char>, Json)>, key: Seq<char>) -> Option<Json>
    decreases members.len(),
{
    if members.len() == 0 {
        None
    } else if members[0].0 == key {
        Some(members[0].1)
    } else {
        lookup(members.subrange(1, members.len() as int), key)
    }
}

pub proof fn lemma_lookup_first(ms: Seq<(Seq<char>, Json)>, key: Seq<char>, i: int)
    requires
        0 <= i < ms.len(),
        ms[i].0 == key,
        forall|j: int| 0 <= j < i ==> ms[j].0 != key,
    ensures
        lookup(ms, key) == Some(ms[i].1),
    decreases i,
{
    if i > 0 {
        let rest = ms.subrange(1, ms.len() as int);
        assert forall|j: int| 0 <= j < i - 1 implies rest[j].0 != key by {
            assert(rest[j] == ms[j + 1]);
        }
        lemma_lookup_first(rest, key, i - 1);
    }
}

pub proof fn lemma_lookup_absent(ms: Seq<(Seq<char>, Json)>, key: Seq<char>)
    requires
        forall|j: int| 0 <= j < ms.len() ==> ms[j].0 != key,
    ensures
        lookup(ms, key) is None,
    decreases ms.len(),
{
    if ms.len() > 0 {
        let rest = ms.subrange(1, ms.len() as int);
        assert forall|j: int| 0 <= j < rest.len() implies rest[j].0 != key by {
            assert(rest[j] == ms[j + 1]);
        }
        lemma_lookup_absent(rest, key);
    }
}

/// The value of the first member of `members` named `key`, if any.
pub fn get_member<'a>(members: &'a Vec<Member>, key: &str) -> (r: Option<&'a JsonValue>)
    ensures
        match lookup(view_members(members@), key@) {
            None => r is None,
            Some(v) => r is Some && r->0@ == v,
        },
        r matches Some(v) ==> exists|i: int| 0 <= i < members@.len() && members@[i].value == *v,
{
    let ghost ms = view_members(members@);
    proof {
        lemma_view_members(members@);
        assert(ms.subrange(0, ms.len() as int) =~= ms);
    }
    let mut i: usize = 0;
    while i < members.len()
        invariant
            ms == view_members(members@),
            ms.len() == members@.len(),
            forall|j: int|
                0 <= j < members@.len() ==> #[trigger] ms[j] == (members@[j].key@, members@[j].value@),
            i <= members@.len(),
            lookup(ms, key@) == lookup(ms.subrange(i as int, ms.len() as int), key@),
        decreases members.len() - i,
    {
        let ghost rest = ms.subrange(i as int, ms.len() as int);
        assert(rest[0] == ms[i as int]);
        assert(lookup(rest, key@) == if rest[0].0 == key@ {
            Some(rest[0].1)
        } else {
            lookup(rest.subrange(1, rest.len() as int), key@)
        });
        assert(rest.subrange(1, rest.len() as int) =~= ms.subrange(i + 1, ms.len() as int));
        if str_eq(members[i].key.as_str(), key) {
            return Some(&members[i].value);
        }
        i = i + 1;
    }
    None
}

} // verus!
