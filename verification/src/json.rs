//! JSON values: reading them, looking into them, and writing them.
use vstd::prelude::*;
use vstd::string::*;

use crate::text;

verus! {

broadcast use vstd::string::group_string_axioms;

/// A value of `serde_json`. What it holds is named by [`json_view`].
#[verifier::external_type_specification]
#[verifier::external_body]
pub struct ExValue(serde_json::Value);

/// A number of `serde_json`, which is carried through as it is.
#[verifier::external_type_specification]
#[verifier::external_body]
pub struct ExNumber(serde_json::Number);

/// A JSON value.
#[derive(Debug, PartialEq, Eq)]
pub enum Json {
    Null,
    Bool(bool),
    Number(serde_json::Number),
    Text(String),
    List(Vec<Json>),
    /// Members in the order of their keys.
    Object(Vec<(String, Json)>),
}

/// What a JSON value says.
pub ghost enum JsonView {
    Null,
    Bool(bool),
    Number(serde_json::Number),
    Text(Seq<char>),
    List(Seq<JsonView>),
    Object(Seq<(Seq<char>, JsonView)>),
}

impl Json {
    /// What the value says.
    pub open spec fn said(self) -> JsonView
        decreases self,
    {
        match self {
            Json::Null => JsonView::Null,
            Json::Bool(b) => JsonView::Bool(b),
            Json::Number(n) => JsonView::Number(n),
            Json::Text(s) => JsonView::Text(s@),
            Json::List(items) => JsonView::List(
                Seq::new(
                    items@.len(),
                    |i: int|
                        if 0 <= i < items@.len() {
                            items@[i].said()
                        } else {
                            JsonView::Null
                        },
                ),
            ),
            Json::Object(members) => JsonView::Object(
                Seq::new(
                    members@.len(),
                    |i: int|
                        if 0 <= i < members@.len() {
                            (members@[i].0@, members@[i].1.said())
                        } else {
                            (seq![], JsonView::Null)
                        },
                ),
            ),
        }
    }
}

impl View for Json {
    type V = JsonView;

    open spec fn view(&self) -> JsonView {
        self.said()
    }
}

/// What each of the values says.
pub open spec fn json_views(values: Seq<Json>) -> Seq<JsonView> {
    Seq::new(values.len(), |i: int| values[i]@)
}

/// What each of the members says.
pub open spec fn member_views(members: Seq<(String, Json)>) -> Seq<(Seq<char>, JsonView)> {
    Seq::new(members.len(), |i: int| (members[i].0@, members[i].1@))
}

/// Adds a value at the end of `list`.
pub fn push_json(list: &mut Vec<Json>, v: Json)
    ensures
        json_views(final(list)@) == json_views(old(list)@).push(v@),
{
    list.push(v);
    assert(json_views(list@) =~= json_views(old(list)@).push(v@));
}

/// Adds a member at the end of `members`.
pub fn push_member(members: &mut Vec<(String, Json)>, key: &str, value: Json)
    ensures
        member_views(final(members)@) == member_views(old(members)@).push((key@, value@)),
{
    members.push((key.to_owned(), value));
    assert(member_views(members@) =~= member_views(old(members)@).push((key@, value@)));
}

/// A text as JSON.
pub fn text_of(s: &str) -> (r: Json)
    ensures
        r@ == JsonView::Text(s@),
{
    Json::Text(s.to_owned())
}

/// A list as JSON.
pub fn list_of(items: Vec<Json>) -> (r: Json)
    ensures
        r@ == JsonView::List(json_views(items@)),
{
    let ghost views = json_views(items@);
    let r = Json::List(items);
    assert(r@->List_0 =~= views);
    r
}

/// An object as JSON.
pub fn object_of(members: Vec<(String, Json)>) -> (r: Json)
    ensures
        r@ == JsonView::Object(member_views(members@)),
{
    let ghost views = member_views(members@);
    let r = Json::Object(members);
    assert(r@->Object_0 =~= views);
    r
}

/// The member of an object under `key`.
pub open spec fn member(members: Seq<(Seq<char>, JsonView)>, key: Seq<char>) -> Option<JsonView>
    decreases members.len(),
{
    if members.len() == 0 {
        None
    } else if members[0].0 == key {
        Some(members[0].1)
    } else {
        member(members.drop_first(), key)
    }
}

impl JsonView {
    /// The member under `key`, where the value is an object that has it.
    pub open spec fn get(self, key: Seq<char>) -> Option<JsonView> {
        match self {
            JsonView::Object(members) => member(members, key),
            _ => None,
        }
    }

    /// The text that the value is.
    pub open spec fn text(self) -> Option<Seq<char>> {
        match self {
            JsonView::Text(s) => Some(s),
            _ => None,
        }
    }

    /// The text under `key`, where the value is an object that has one there.
    pub open spec fn text_at(self, key: Seq<char>) -> Option<Seq<char>> {
        match self.get(key) {
            Some(v) => v.text(),
            None => None,
        }
    }

    /// How deep lists and objects are nested in the value.
    pub open spec fn depth(self) -> nat
        decreases self, 1nat,
    {
        match self {
            JsonView::List(items) => 1 + list_depth(items),
            JsonView::Object(members) => 1 + object_depth(members),
            _ => 0,
        }
    }
}

/// The greatest depth among the items of a list.
pub open spec fn list_depth(items: Seq<JsonView>) -> nat
    decreases items, 0nat,
{
    if items.len() == 0 {
        0
    } else {
        let rest = list_depth(items.drop_first());
        let first = items[0].depth();
        if first > rest {
            first
        } else {
            rest
        }
    }
}

/// The greatest depth among the members of an object.
pub open spec fn object_depth(members: Seq<(Seq<char>, JsonView)>) -> nat
    decreases members, 0nat,
{
    if members.len() == 0 {
        0
    } else {
        let rest = object_depth(members.drop_first());
        let first = members[0].1.depth();
        if first > rest {
            first
        } else {
            rest
        }
    }
}

/// Members in the order of their keys, with the one under `key` set to `value`.
pub open spec fn with_member(
    members: Seq<(Seq<char>, JsonView)>,
    key: Seq<char>,
    value: JsonView,
) -> Seq<(Seq<char>, JsonView)>
    decreases members.len(),
{
    if members.len() == 0 {
        seq![(key, value)]
    } else if members[0].0 == key {
        seq![(key, value)] + members.drop_first()
    } else if text::text_le(key, members[0].0) {
        seq![(key, value)] + members
    } else {
        seq![members[0]] + with_member(members.drop_first(), key, value)
    }
}

/// Setting one member gives it its value, leaves the others as they are, and nests no deeper
/// than before.
pub proof fn lemma_with_member(
    members: Seq<(Seq<char>, JsonView)>,
    key: Seq<char>,
    value: JsonView,
    other: Seq<char>,
)
    ensures
        member(with_member(members, key, value), other) == if other == key {
            Some(value)
        } else {
            member(members, other)
        },
        object_depth(with_member(members, key, value)) <= if value.depth() > object_depth(members) {
            value.depth()
        } else {
            object_depth(members)
        },
    decreases members.len(),
{
    reveal_with_fuel(member, 2);
    reveal_with_fuel(object_depth, 2);
    let r = with_member(members, key, value);
    if members.len() == 0 {
        assert(r.drop_first() =~= seq![]);
    } else if members[0].0 == key {
        assert(r.drop_first() =~= members.drop_first());
    } else if text::text_le(key, members[0].0) {
        assert(r.drop_first() =~= members);
    } else {
        lemma_with_member(members.drop_first(), key, value, other);
        assert(r.drop_first() =~= with_member(members.drop_first(), key, value));
    }
}

// ── Reading and writing ──────────────────────────────────────────────────────

/// What a value of `serde_json` holds.
pub uninterp spec fn json_view(v: serde_json::Value) -> JsonView;

/// The value that a text is as JSON, where it is one.
pub uninterp spec fn parsed_json(s: Seq<char>) -> Option<JsonView>;

/// A value as indented JSON text.
pub uninterp spec fn pretty_json(v: JsonView) -> Seq<char>;

/// `serde_json::from_str` into a `Value`. Its result is a function of the text, named
/// [`parsed_json`]. The parser refuses a text with more than 127 lists and objects inside one
/// another.
#[verifier::external_body]
fn parse_value(s: &str) -> (r: Option<serde_json::Value>)
    ensures
        match r {
            Some(v) => parsed_json(s@) == Some(json_view(v)),
            None => parsed_json(s@) is None,
        },
        r matches Some(v) ==> json_view(v).depth() <= 127,
{
    serde_json::from_str(s).ok()
}

/// Takes a `serde_json::Value` apart by its variants. The result says what the value holds,
/// members in the order in which `serde_json::Map` yields them.
#[verifier::external_body]
fn open_value(v: serde_json::Value) -> (r: Json)
    requires
        json_view(v).depth() <= 127,
    ensures
        r@ == json_view(v),
{
    match v {
        serde_json::Value::Null => Json::Null,
        serde_json::Value::Bool(b) => Json::Bool(b),
        serde_json::Value::Number(n) => Json::Number(n),
        serde_json::Value::String(s) => Json::Text(s),
        serde_json::Value::Array(items) => Json::List(items.into_iter().map(open_value).collect()),
        serde_json::Value::Object(map) => {
            Json::Object(map.into_iter().map(|(k, v)| (k, open_value(v))).collect())
        },
    }
}

/// `serde_json::Map::new`: an object without members.
#[verifier::external_body]
fn new_object() -> (r: serde_json::Value)
    ensures
        json_view(r) == JsonView::Object(seq![]),
{
    serde_json::Value::Object(serde_json::Map::new())
}

/// `serde_json::Map::insert` of a string. The map keeps its members in the order of their
/// keys; a member under the same key is replaced. A value that is no object stays as it is.
#[verifier::external_body]
fn insert_text(v: &mut serde_json::Value, key: &str, value: &str)
    ensures
        json_view(*final(v)) == match json_view(*old(v)) {
            JsonView::Object(members) => JsonView::Object(
                with_member(members, key@, JsonView::Text(value@)),
            ),
            other => other,
        },
{
    if let serde_json::Value::Object(map) = v {
        map.insert(key.to_owned(), serde_json::Value::String(value.to_owned()));
    }
}

/// The indented form of a `serde_json::Value` (its alternate `Display`), named
/// [`pretty_json`]. An object that is not nested too deeply reads back, also with a line feed
/// behind it, as an object with the same strings under the same keys.
#[verifier::external_body]
fn print_value(v: &serde_json::Value) -> (r: String)
    ensures
        r@ == pretty_json(json_view(*v)),
        json_view(*v) is Object && json_view(*v).depth() <= 127 ==> parsed_json(r@ + "\n"@) is Some
            && parsed_json(r@ + "\n"@)->0 is Object && forall|k: Seq<char>| #[trigger]
            parsed_json(r@ + "\n"@)->0.text_at(k) == json_view(*v).text_at(k),
{
    format!("{:#}", v)
}

/// Read a JSON text.
pub fn parse(s: &str) -> (r: Option<Json>)
    ensures
        match r {
            Some(v) => parsed_json(s@) == Some(v@),
            None => parsed_json(s@) is None,
        },
{
    match parse_value(s) {
        Some(v) => Some(open_value(v)),
        None => None,
    }
}

/// The members of the object that `old` is as JSON text, none where it is no object.
pub open spec fn old_members(old: Option<JsonView>) -> Seq<(Seq<char>, JsonView)> {
    match old {
        Some(JsonView::Object(members)) => members,
        _ => seq![],
    }
}

/// The value that a text is, where there is a text and it is one.
pub open spec fn parsed_opt(s: Option<Seq<char>>) -> Option<JsonView> {
    match s {
        Some(t) => parsed_json(t),
        None => None,
    }
}

/// The text of the object that `old` was, with the string under `key` set to `value`.
pub open spec fn with_text(old: Option<Seq<char>>, key: Seq<char>, value: Seq<char>) -> Seq<char> {
    pretty_json(
        JsonView::Object(
            with_member(old_members(parsed_opt(old)), key, JsonView::Text(value)),
        ),
    ) + "\n"@
}

/// Set the string under `key` in an object given as JSON text, keeping its other members. Where
/// there is no text, or it is no object, a new object is made.
///
/// What is written reads back: the string is under the key, and the strings under other keys
/// are as they were.
pub fn set_text(old: Option<&str>, key: &str, value: &str) -> (r: String)
    ensures
        r@ == with_text(text::opt_text(old), key@, value@),
        parsed_json(r@) is Some,
        parsed_json(r@)->0.text_at(key@) == Some(value@),
        forall|k: Seq<char>|
            k != key@ ==> #[trigger] parsed_json(r@)->0.text_at(k) == JsonView::Object(
                old_members(parsed_opt(text::opt_text(old))),
            ).text_at(k),
{
    let ghost members = old_members(parsed_opt(text::opt_text(old)));
    let found = match old {
        Some(s) => parse_value(s),
        None => None,
    };
    let mut v = match found {
        Some(v) => {
            if is_object(&v) {
                v
            } else {
                new_object()
            }
        },
        None => new_object(),
    };
    assert(json_view(v) == JsonView::Object(members));
    insert_text(&mut v, key, value);
    let mut out = print_value(&v);
    out.append("\n");
    proof {
        let after = with_member(members, key@, JsonView::Text(value@));
        lemma_with_member(members, key@, JsonView::Text(value@), key@);
        assert forall|k: Seq<char>|
            k != key@ implies #[trigger] parsed_json(out@)->0.text_at(k) == JsonView::Object(
            members,
        ).text_at(k) by {
            lemma_with_member(members, key@, JsonView::Text(value@), k);
        }
    }
    out
}

/// `serde_json::Value::is_object`.
#[verifier::external_body]
fn is_object(v: &serde_json::Value) -> (r: bool)
    ensures
        r == (json_view(*v) is Object),
{
    v.is_object()
}

// ── Looking into values ──────────────────────────────────────────────────────

impl Json {
    /// The member under `key`, where the value is an object that has it.
    pub fn get(&self, key: &str) -> (r: Option<&Json>)
        ensures
            match r {
                Some(v) => self@.get(key@) == Some(v@),
                None => self@.get(key@) is None,
            },
    {
        match self {
            Json::Object(members) => {
                let ghost all = self@->Object_0;
                let mut i: usize = 0;
                assert(all.skip(0) =~= all);
                while i < members.len()
                    invariant
                        i <= members@.len(),
                        *self == Json::Object(*members),
                        all == self@->Object_0,
                        all.len() == members@.len(),
                        member(all, key@) == member(all.skip(i as int), key@),
                    decreases members@.len() - i,
                {
                    assert(all.skip(i as int)[0] == all[i as int]);
                    assert(all[i as int] == (members@[i as int].0@, members@[i as int].1@));
                    assert(all.skip(i as int).drop_first() =~= all.skip(i + 1));
                    if text::same(members[i].0.as_str(), key) {
                        return Some(&members[i].1);
                    }
                    i += 1;
                }
                None
            },
            _ => None,
        }
    }

    /// The text that the value is.
    pub fn as_str(&self) -> (r: Option<&str>)
        ensures
            text::opt_text(r) == self@.text(),
    {
        match self {
            Json::Text(s) => Some(s.as_str()),
            _ => None,
        }
    }
}

/// `Clone` of `serde_json::Number`: the copy is the same number.
pub assume_specification[ <serde_json::Number as Clone>::clone ](n: &serde_json::Number) -> (r:
    serde_json::Number)
    ensures
        r == *n,
;

impl Json {
    /// A copy of the value.
    pub fn copy(&self) -> (r: Json)
        ensures
            r@ == self@,
        decreases self,
    {
        match self {
            Json::Null => Json::Null,
            Json::Bool(b) => Json::Bool(*b),
            Json::Number(n) => Json::Number(n.clone()),
            Json::Text(s) => Json::Text(s.clone()),
            Json::List(items) => {
                let mut out: Vec<Json> = Vec::new();
                let mut i: usize = 0;
                while i < items.len()
                    invariant
                        i <= items@.len(),
                        *self == Json::List(*items),
                        out@.len() == i,
                        forall|k: int| 0 <= k < i ==> #[trigger] out@[k].said() == items@[k].said(),
                    decreases items@.len() - i,
                {
                    assert(decreases_to!(*self => self->List_0));
                    assert(decreases_to!(*items => items@));
                    assert(decreases_to!(items@ => items@[i as int]));
                    let item = items[i].copy();
                    out.push(item);
                    i += 1;
                }
                let r = Json::List(out);
                assert forall|k: int| 0 <= k < items@.len() implies #[trigger] r@->List_0[k]
                    == self@->List_0[k] by {
                    assert(out@[k].said() == items@[k].said());
                }
                assert(r@->List_0 =~= self@->List_0);
                r
            },
            Json::Object(members) => {
                let mut out: Vec<(String, Json)> = Vec::new();
                let mut i: usize = 0;
                while i < members.len()
                    invariant
                        i <= members@.len(),
                        *self == Json::Object(*members),
                        out@.len() == i,
                        forall|k: int|
                            0 <= k < i ==> #[trigger] out@[k].0@ == members@[k].0@
                                && out@[k].1.said() == members@[k].1.said(),
                    decreases members@.len() - i,
                {
                    assert(decreases_to!(*self => self->Object_0));
                    assert(decreases_to!(*members => members@));
                    assert(decreases_to!(members@ => members@[i as int]));
                    assert(decreases_to!(members@[i as int] => members@[i as int].1));
                    let value = members[i].1.copy();
                    let key = members[i].0.clone();
                    out.push((key, value));
                    i += 1;
                }
                let r = Json::Object(out);
                assert(r@->Object_0 =~= self@->Object_0);
                r
            },
        }
    }
}

/// Looking a key up in an object gives the value that stands beside it, and nothing where no
/// member has the key. A value that is no object has no members.
pub proof fn law_lookup(members: Seq<(Seq<char>, JsonView)>, i: int, key: Seq<char>)
    requires
        0 <= i < members.len(),
        forall|k: int| 0 <= k < i ==> (#[trigger] members[k]).0 != members[i].0,
        forall|k: int| 0 <= k < members.len() ==> (#[trigger] members[k]).0 != key,
    ensures
        JsonView::Object(members).get(members[i].0) == Some(members[i].1),
        JsonView::Object(members).get(key) is None,
        JsonView::List(seq![members[i].1]).get(key) is None,
        members[i].1 matches JsonView::Text(t) ==> JsonView::Object(members).text_at(members[i].0)
            == Some(t),
        members[i].1 !is Text ==> JsonView::Object(members).text_at(members[i].0) is None,
{
    lemma_lookup(members, i);
    lemma_no_member(members, key);
}

/// The first member with a key is the one found.
pub proof fn lemma_lookup(members: Seq<(Seq<char>, JsonView)>, i: int)
    requires
        0 <= i < members.len(),
        forall|k: int| 0 <= k < i ==> (#[trigger] members[k]).0 != members[i].0,
    ensures
        member(members, members[i].0) == Some(members[i].1),
    decreases members.len(),
{
    if i > 0 {
        let rest = members.drop_first();
        assert(rest[i - 1] == members[i]);
        assert forall|k: int| 0 <= k < i - 1 implies (#[trigger] rest[k]).0 != rest[i - 1].0 by {
            assert(rest[k] == members[k + 1]);
        }
        lemma_lookup(rest, i - 1);
        assert(members[0].0 != members[i].0);
    }
}

proof fn lemma_no_member(members: Seq<(Seq<char>, JsonView)>, key: Seq<char>)
    requires
        forall|k: int| 0 <= k < members.len() ==> (#[trigger] members[k]).0 != key,
    ensures
        member(members, key) is None,
    decreases members.len(),
{
    if members.len() > 0 {
        let rest = members.drop_first();
        assert forall|k: int| 0 <= k < rest.len() implies (#[trigger] rest[k]).0 != key by {
            assert(rest[k] == members[k + 1]);
        }
        lemma_no_member(rest, key);
        assert(members[0].0 != key);
    }
}

} // verus!
