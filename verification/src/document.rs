//! JSON documents as the library holds them, and the way from and to
//! `serde_json`, which looks up pointers in them and writes them as text.
use vstd::prelude::*;

use crate::tree::{
    at, lemma_add_member, lemma_listed_member, lemma_listed_names, lemma_replace_member, locate,
    member_map, names_once, put, Tree,
};

verus! {

/// `serde_json::Number`, carried through unread.
#[verifier::external_type_specification]
#[verifier::external_body]
pub struct ExNumber(serde_json::Number);

/// `serde_json::Value`, a JSON document as `serde_json` holds it.
#[verifier::external_type_specification]
#[verifier::external_body]
pub struct ExValue(serde_json::Value);

/// A copy of a `serde_json::Number` is the same number.
pub assume_specification[ <serde_json::Number as Clone>::clone ](
    n: &serde_json::Number,
) -> (r: serde_json::Number)
    ensures
        r == *n,
;

/// The document that a `serde_json::Value` holds.
pub uninterp spec fn value_tree(value: serde_json::Value) -> Tree;

/// A JSON document. Where an object lists a name twice, the later member
/// counts, as it does when members are inserted into a map one after another.
///
/// The derived `==` compares what is listed, so documents that list the same
/// members in another order, or one of them twice, are not `==` though their
/// views are equal. Their `serde_json::Value`s compare as documents.
#[derive(Debug, PartialEq)]
pub enum Json {
    Null,
    Bool(bool),
    Number(serde_json::Number),
    Str(String),
    Array(Vec<Json>),
    Object(Vec<(String, Json)>),
}

impl View for Json {
    type V = Tree;

    open spec fn view(&self) -> Tree
        decreases self, 1nat,
    {
        match self {
            Json::Null => Tree::Null,
            Json::Bool(b) => Tree::Bool(*b),
            Json::Number(n) => Tree::Number(*n),
            Json::Str(s) => Tree::Str(s@),
            Json::Array(items) => Tree::Array(
                Seq::new(
                    items@.len(),
                    |i: int|
                        if 0 <= i < items@.len() {
                            items@[i].view()
                        } else {
                            Tree::Null
                        },
                ),
            ),
            Json::Object(_) => Tree::Object(member_map(object_members(*self))),
        }
    }
}

/// The members that an object lists.
pub open spec fn object_members(json: Json) -> Seq<(Seq<char>, Tree)>
    decreases json, 0nat,
{
    match json {
        Json::Object(entries) => Seq::new(
            entries@.len(),
            |i: int|
                if 0 <= i < entries@.len() {
                    (entries@[i].0@, entries@[i].1.view())
                } else {
                    (Seq::empty(), Tree::Null)
                },
        ),
        _ => Seq::empty(),
    }
}

/// The listed members of an object.
pub open spec fn listed(entries: Seq<(String, Json)>) -> Seq<(Seq<char>, Tree)> {
    entries.map_values(|entry: (String, Json)| (entry.0@, entry.1@))
}

/// The view of an array holds the views of its elements, and the view of an
/// object the map of its listed members.
pub proof fn lemma_json_view(json: Json)
    ensures
        json matches Json::Array(items) ==> json@ == Tree::Array(trees(items@)),
        json matches Json::Object(entries) ==> json@ == Tree::Object(member_map(listed(entries@))),
{
    match json {
        Json::Array(items) => {
            assert(json@->Array_0 =~= trees(items@));
        },
        Json::Object(entries) => {
            assert(object_members(json) =~= listed(entries@));
        },
        _ => {},
    }
}

/// The documents in a list.
pub open spec fn trees(items: Seq<Json>) -> Seq<Tree> {
    items.map_values(|j: Json| j@)
}

/// What a conversion gave: a document, or the text of an error.
pub open spec fn outcome(r: Result<Json, String>) -> Result<Tree, Seq<char>> {
    match r {
        Ok(json) => Ok(json@),
        Err(e) => Err(e@),
    }
}

/// The name that messages use for the kind of a document.
pub open spec fn kind_name(tree: Tree) -> Seq<char> {
    match tree {
        Tree::Null => "null"@,
        Tree::Bool(_) => "bool"@,
        Tree::Number(_) => "number"@,
        Tree::Str(_) => "string"@,
        Tree::Array(_) => "array"@,
        Tree::Object(_) => "object"@,
    }
}

/// The name that messages use for the kind of a document.
pub fn kind_of(v: &Json) -> (r: &'static str)
    ensures
        r@ == kind_name(v@),
        r@ == match v@ {
            Tree::Null => "null"@,
            Tree::Bool(_) => "bool"@,
            Tree::Number(_) => "number"@,
            Tree::Str(_) => "string"@,
            Tree::Array(_) => "array"@,
            Tree::Object(_) => "object"@,
        },
{
    match v {
        Json::Null => "null",
        Json::Bool(_) => "bool",
        Json::Number(_) => "number",
        Json::Str(_) => "string",
        Json::Array(_) => "array",
        Json::Object(_) => "object",
    }
}

/// Gives an object the member `value` under `name`, in place of one that had
/// this name.
pub fn insert_member(entries: &mut Vec<(String, Json)>, name: String, value: Json)
    ensures
        member_map(listed(final(entries)@)) == member_map(listed(old(entries)@)).insert(
            name@,
            value@,
        ),
        names_once(listed(old(entries)@)) ==> names_once(listed(final(entries)@)),
{
    let ghost before = entries@;
    let ghost added = (name@, value@);
    let mut i: usize = 0;
    while i < entries.len()
        invariant
            i <= entries.len(),
            entries@ == before,
            before == old(entries)@,
            added == (name@, value@),
            forall|k: int| 0 <= k < i ==> (#[trigger] listed(before)[k]).0 != name@,
        decreases entries.len() - i,
    {
        if entries[i].0 == name {
            entries.remove(i);
            entries.push((name, value));
            proof {
                lemma_replace_member(listed(before), i as int, added.1);
                assert(listed(entries@) =~= listed(before).remove(i as int).push(added));
            }
            return;
        }
        i = i + 1;
    }
    entries.push((name, value));
    proof {
        lemma_add_member(listed(before), added);
        assert(listed(entries@) =~= listed(before).push(added));
    }
}

/// The member that an object has under `name`, if it has one.
pub fn member<'a>(entries: &'a Vec<(String, Json)>, name: &String) -> (r: Option<&'a Json>)
    ensures
        r is Some <==> member_map(listed(entries@)).contains_key(name@),
        r matches Some(found) ==> found@ == member_map(listed(entries@))[name@],
{
    let ghost all = listed(entries@);
    let mut n: usize = entries.len();
    assert(all.take(n as int) =~= all);
    while n > 0
        invariant
            n <= entries.len(),
            all == listed(entries@),
            member_map(all).contains_key(name@) == member_map(all.take(n as int)).contains_key(
                name@,
            ),
            member_map(all).contains_key(name@) ==> member_map(all)[name@] == member_map(
                all.take(n as int),
            )[name@],
        decreases n,
    {
        assert(all.take(n as int).drop_last() =~= all.take(n - 1));
        n = n - 1;
        if entries[n].0 == *name {
            return Some(&entries[n].1);
        }
    }
    None
}

/// The topmost level of a `serde_json::Value`.
pub enum Level {
    Null,
    Bool(bool),
    Number(serde_json::Number),
    Str(String),
    Array(Vec<serde_json::Value>),
    Object(Vec<(String, serde_json::Value)>),
}

/// The listed members of an object at the topmost level of a
/// `serde_json::Value`.
pub open spec fn level_listed(entries: Seq<(String, serde_json::Value)>) -> Seq<(Seq<char>, Tree)> {
    entries.map_values(|entry: (String, serde_json::Value)| (entry.0@, value_tree(entry.1)))
}

impl View for Level {
    type V = Tree;

    open spec fn view(&self) -> Tree {
        match self {
            Level::Null => Tree::Null,
            Level::Bool(b) => Tree::Bool(*b),
            Level::Number(n) => Tree::Number(*n),
            Level::Str(s) => Tree::Str(s@),
            Level::Array(items) => Tree::Array(
                items@.map_values(|v: serde_json::Value| value_tree(v)),
            ),
            Level::Object(entries) => Tree::Object(member_map(level_listed(entries@))),
        }
    }
}

/// Takes the variants of `serde_json::Value` apart. The claim is that the
/// variant and what it holds are the document, and that the map of an object
/// hands each of its names out once.
#[verifier::external_body]
fn open_value(value: serde_json::Value) -> (r: Level)
    ensures
        r@ == value_tree(value),
        r matches Level::Object(entries) ==> names_once(level_listed(entries@)),
{
    match value {
        serde_json::Value::Null => Level::Null,
        serde_json::Value::Bool(b) => Level::Bool(b),
        serde_json::Value::Number(n) => Level::Number(n),
        serde_json::Value::String(s) => Level::Str(s),
        serde_json::Value::Array(items) => Level::Array(items),
        serde_json::Value::Object(map) => Level::Object(map.into_iter().collect()),
    }
}

/// Builds a `serde_json::Value` of the given variant. The claim is that it
/// holds the document that the level describes; the members of an object, which
/// have different names, are collected into a `serde_json::Map`.
#[verifier::external_body]
fn close_value(level: Level) -> (r: serde_json::Value)
    requires
        level matches Level::Object(entries) ==> names_once(level_listed(entries@)),
    ensures
        value_tree(r) == level@,
{
    match level {
        Level::Null => serde_json::Value::Null,
        Level::Bool(b) => serde_json::Value::Bool(b),
        Level::Number(n) => serde_json::Value::Number(n),
        Level::Str(s) => serde_json::Value::String(s),
        Level::Array(items) => serde_json::Value::Array(items),
        Level::Object(entries) => serde_json::Value::Object(entries.into_iter().collect()),
    }
}

/// Gives an object at the topmost level the member `value` under `name`, in
/// place of one that had this name.
fn insert_value(
    entries: &mut Vec<(String, serde_json::Value)>,
    name: String,
    value: serde_json::Value,
)
    requires
        names_once(level_listed(old(entries)@)),
    ensures
        member_map(level_listed(final(entries)@)) == member_map(
            level_listed(old(entries)@),
        ).insert(name@, value_tree(value)),
        names_once(level_listed(final(entries)@)),
{
    let ghost before = entries@;
    let ghost added = (name@, value_tree(value));
    let mut i: usize = 0;
    while i < entries.len()
        invariant
            i <= entries.len(),
            entries@ == before,
            before == old(entries)@,
            names_once(level_listed(before)),
            added == (name@, value_tree(value)),
            forall|k: int| 0 <= k < i ==> (#[trigger] level_listed(before)[k]).0 != name@,
        decreases entries.len() - i,
    {
        if entries[i].0 == name {
            entries.remove(i);
            entries.push((name, value));
            proof {
                lemma_replace_member(level_listed(before), i as int, added.1);
                assert(level_listed(entries@) =~= level_listed(before).remove(i as int).push(added));
            }
            return;
        }
        i = i + 1;
    }
    entries.push((name, value));
    proof {
        lemma_add_member(level_listed(before), added);
        assert(level_listed(entries@) =~= level_listed(before).push(added));
    }
}

impl Json {
    /// The document as a `serde_json::Value`.
    pub fn to_value(&self) -> (r: serde_json::Value)
        ensures
            value_tree(r) == self@,
        decreases self,
    {
        proof {
            lemma_json_view(*self);
        }
        let level = match self {
            Json::Null => Level::Null,
            Json::Bool(b) => Level::Bool(*b),
            Json::Number(n) => Level::Number(n.clone()),
            Json::Str(s) => Level::Str(s.clone()),
            Json::Array(items) => {
                let mut values: Vec<serde_json::Value> = Vec::new();
                let mut i: usize = 0;
                while i < items.len()
                    invariant
                        i <= items.len(),
                        values.len() == i,
                        *self == Json::Array(*items),
                        forall|k: int|
                            0 <= k < i ==> value_tree(#[trigger] values@[k]) == items@[k]@,
                    decreases items.len() - i,
                {
                    proof {
                        assert(decreases_to!(self => self->Array_0));
                        assert(decreases_to!(items => items@));
                        assert(decreases_to!(items@ => items@[i as int]));
                    }
                    values.push(items[i].to_value());
                    i = i + 1;
                }
                let level = Level::Array(values);
                assert(level@->Array_0 =~= self@->Array_0);
                level
            },
            Json::Object(entries) => {
                let mut values: Vec<(String, serde_json::Value)> = Vec::new();
                let mut i: usize = 0;
                assert(listed(entries@.take(0)) =~= Seq::<(Seq<char>, Tree)>::empty());
                assert(level_listed(values@) =~= Seq::<(Seq<char>, Tree)>::empty());
                while i < entries.len()
                    invariant
                        i <= entries.len(),
                        *self == Json::Object(*entries),
                        names_once(level_listed(values@)),
                        member_map(level_listed(values@)) == member_map(
                            listed(entries@.take(i as int)),
                        ),
                    decreases entries.len() - i,
                {
                    proof {
                        assert(decreases_to!(self => self->Object_0));
                        assert(decreases_to!(entries => entries@));
                        assert(decreases_to!(entries@ => entries@[i as int]));
                        assert(decreases_to!(entries@[i as int] => entries@[i as int].1));
                    }
                    let value = entries[i].1.to_value();
                    insert_value(&mut values, entries[i].0.clone(), value);
                    proof {
                        let now = listed(entries@.take(i + 1));
                        assert(now.drop_last() =~= listed(entries@.take(i as int)));
                        assert(now.last() == (entries@[i as int].0@, entries@[i as int].1@));
                    }
                    i = i + 1;
                }
                assert(entries@.take(i as int) =~= entries@);
                Level::Object(values)
            },
        };
        close_value(level)
    }

    /// The document that a `serde_json::Value` holds.
    pub fn from_value(value: serde_json::Value) -> (r: Json)
        ensures
            r@ == value_tree(value),
        decreases value_tree(value),
    {
        match open_value(value) {
            Level::Null => Json::Null,
            Level::Bool(b) => Json::Bool(b),
            Level::Number(n) => Json::Number(n),
            Level::Str(s) => Json::Str(s),
            Level::Array(values) => {
                let ghost all = values@;
                let mut items: Vec<Json> = Vec::new();
                for v in iter: values
                    invariant
                        iter.seq() == all,
                        items.len() == iter.index(),
                        value_tree(value) == Tree::Array(
                            all.map_values(|v: serde_json::Value| value_tree(v)),
                        ),
                        forall|k: int| 0 <= k < items.len() ==> (#[trigger] items@[k])@ == value_tree(all[k]),
                {
                    proof {
                        let kids = value_tree(value)->Array_0;
                        assert(kids[iter.index() as int] == value_tree(v));
                        assert(decreases_to!(value_tree(value) => value_tree(value)->Array_0));
                        assert(decreases_to!(kids => kids[iter.index() as int]));
                    }
                    items.push(Json::from_value(v));
                }
                let r = Json::Array(items);
                assert(r@->Array_0 =~= value_tree(value)->Array_0);
                r
            },
            Level::Object(values) => {
                let ghost all = values@;
                let mut entries: Vec<(String, Json)> = Vec::new();
                for entry in iter: values
                    invariant
                        iter.seq() == all,
                        entries.len() == iter.index(),
                        names_once(level_listed(all)),
                        value_tree(value) == Tree::Object(member_map(level_listed(all))),
                        listed(entries@) == level_listed(all).take(iter.index() as int),
                {
                    proof {
                        let n = iter.index() as int;
                        let members = value_tree(value)->Object_0;
                        lemma_listed_names(level_listed(all));
                        lemma_listed_member(level_listed(all), n);
                        assert(decreases_to!(value_tree(value) => value_tree(value)->Object_0));
                        assert(decreases_to!(members => members[entry.0@]));
                    }
                    let ghost before = listed(entries@);
                    entries.push((entry.0, Json::from_value(entry.1)));
                    assert(listed(entries@) =~= before.push(level_listed(all)[iter.index() as int]));
                }
                let r = Json::Object(entries);
                proof {
                    assert(level_listed(all).take(all.len() as int) =~= level_listed(all));
                    lemma_json_view(r);
                }
                r
            },
        }
    }
}

/// A copy of a `serde_json::Value` holds the same document.
pub assume_specification[ <serde_json::Value as Clone>::clone ](
    value: &serde_json::Value,
) -> (r: serde_json::Value)
    ensures
        value_tree(r) == value_tree(*value),
;

/// The text of a `serde_json::Number`, as its `Display` writes it.
pub uninterp spec fn number_text(n: serde_json::Number) -> Seq<char>;

/// Writes a number with the `Display` of `serde_json::Number`. The claim is
/// that the text depends on the number alone, is not empty and is the JSON text
/// of the number: both are written by the same formatters.
#[verifier::external_body]
pub(crate) fn write_number(n: &serde_json::Number) -> (r: String)
    ensures
        r@ == number_text(*n),
        r@ == json_text(Tree::Number(*n)),
        r@.len() > 0,
{
    n.to_string()
}

/// The compact JSON text of a document, as `serde_json::to_string` writes it.
pub uninterp spec fn json_text(tree: Tree) -> Seq<char>;

/// Writes a document with `serde_json::to_string`. The claim is that the text
/// depends on the document alone, since the map of an object keeps its members
/// in the order of their names; that it is not empty, and `true` or `false` for
/// a boolean; and that writing succeeds: it fails only on a map whose keys are no strings or on a type that refuses, and a
/// `serde_json::Value` is neither.
#[verifier::external_body]
pub(crate) fn write_value(value: &serde_json::Value) -> (r: Result<String, String>)
    ensures
        r is Ok,
        r->Ok_0@ == json_text(value_tree(*value)),
        r->Ok_0@.len() > 0,
        value_tree(*value) == Tree::Bool(true) ==> r->Ok_0@ == "true"@,
        value_tree(*value) == Tree::Bool(false) ==> r->Ok_0@ == "false"@,
{
    match serde_json::to_string(value) {
        Ok(text) => Ok(text),
        Err(e) => Err(e.to_string()),
    }
}

/// Looks a JSON Pointer up with `serde_json::Value::pointer`. The claim is that
/// it finds what stands at the location that the pointer addresses, and nothing
/// where it addresses none.
#[verifier::external_body]
pub(crate) fn find<'a>(value: &'a serde_json::Value, pointer: &str) -> (r: Option<
    &'a serde_json::Value,
>)
    ensures
        r is Some <==> locate(value_tree(*value), pointer@) is Some,
        r matches Some(found) ==> at(
            value_tree(*value),
            locate(value_tree(*value), pointer@)->0,
        ) == Some(value_tree(*found)),
{
    value.pointer(pointer)
}

/// Looks a JSON Pointer up with `serde_json::Value::pointer_mut`. The claim is
/// that it lends out what stands at the location that the pointer addresses, so
/// that what is left there in the end, and nothing else, is exchanged; where the
/// pointer addresses no location, nothing is found and nothing changes.
#[verifier::external_body]
fn find_mut<'a>(value: &'a mut serde_json::Value, pointer: &str) -> (r: Option<
    &'a mut serde_json::Value,
>)
    ensures
        match locate(value_tree(*old(value)), pointer@) {
            Some(path) => r matches Some(slot) && at(value_tree(*old(value)), path) == Some(
                value_tree(*slot),
            ) && value_tree(*final(value)) == put(
                value_tree(*old(value)),
                path,
                value_tree(*final(slot)),
            ),
            None => r is None && *final(value) == *old(value),
        },
{
    value.pointer_mut(pointer)
}

/// Puts a document at the location that a JSON Pointer addresses; the result
/// says whether it addresses one.
pub(crate) fn assign(value: &mut serde_json::Value, pointer: &str, new: serde_json::Value) -> (r:
    bool)
    ensures
        ({
            let tree = value_tree(*old(value));
            match locate(tree, pointer@) {
                Some(path) => r && value_tree(*final(value)) == put(tree, path, value_tree(new)),
                None => !r && *final(value) == *old(value),
            }
        }),
{
    match find_mut(value, pointer) {
        Some(slot) => {
            *slot = new;
            true
        },
        None => false,
    }
}

} // verus!
