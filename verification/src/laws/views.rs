//! What the views of the library's types show.
use vstd::prelude::*;
use vstd::utf8::{decode_utf8, valid_utf8};

use crate::config::{column_texts, CsvConfig, Settings};
use crate::delimited::utf8_problem;
use crate::document::{lemma_json_view, listed, outcome, trees, Json};
use crate::text::texts;
use crate::transform::{parsed, Outcome, TransformResult};
use crate::tree::{lemma_listed_names, member_map, Tree};
use crate::writing::{slice_texts, string_of};

verus! {

/// Each document is shown as what it is: scalars and strings as they are, an
/// array as its elements in order, and an object as its members, of which the
/// last listed under a name counts.
pub proof fn law_json_view(json: Json)
    ensures
        json is Null <==> json@ is Null,
        json matches Json::Bool(b) ==> json@ == Tree::Bool(b),
        json matches Json::Number(n) ==> json@ == Tree::Number(n),
        json matches Json::Str(s) ==> json@ == Tree::Str(s@),
        json matches Json::Array(items) ==> json@ == Tree::Array(
            Seq::new(items@.len(), |i: int| items@[i]@),
        ),
        json matches Json::Object(entries) ==> json@ is Object && (forall|name: Seq<char>|
            #[trigger] json@->Object_0.contains_key(name) <==> exists|i: int|
                0 <= i < entries@.len() && (#[trigger] entries@[i]).0@ == name) && (forall|i: int|
            0 <= i < entries@.len() && (forall|k: int|
                i < k < entries@.len() ==> (#[trigger] entries@[k]).0@ != entries@[i].0@)
                ==> json@->Object_0[(#[trigger] entries@[i]).0@] == entries@[i].1@),
{
    lemma_json_view(json);
    match json {
        Json::Array(items) => {
            assert(trees(items@) =~= Seq::new(items@.len(), |i: int| items@[i]@));
        },
        Json::Object(entries) => {
            let members = listed(entries@);
            lemma_listed_names(members);
            assert forall|name: Seq<char>| #[trigger]
                json@->Object_0.contains_key(name) <==> exists|i: int|
                    0 <= i < entries@.len() && (#[trigger] entries@[i]).0@ == name by {
                if json@->Object_0.contains_key(name) {
                    let i = choose|i: int|
                        0 <= i < members.len() && (#[trigger] members[i]).0 == name;
                    assert(entries@[i].0@ == name);
                }
                if exists|i: int| 0 <= i < entries@.len() && (#[trigger] entries@[i]).0@ == name {
                    let i = choose|i: int|
                        0 <= i < entries@.len() && (#[trigger] entries@[i]).0@ == name;
                    assert(members[i].0 == name);
                }
            }
            assert forall|i: int|
                0 <= i < entries@.len() && (forall|k: int|
                    i < k < entries@.len() ==> (#[trigger] entries@[k]).0@
                        != entries@[i].0@) implies json@->Object_0[(
            #[trigger] entries@[i]).0@] == entries@[i].1@ by {
                assert forall|k: int| i < k < members.len() implies (#[trigger] members[k]).0
                    != members[i].0 by {
                    assert(entries@[k].0@ != entries@[i].0@);
                }
                lemma_last_member(members, i);
            }
        },
        _ => {},
    }
}

/// The last member that is listed under a name is found under it.
proof fn lemma_last_member(members: Seq<(Seq<char>, Tree)>, i: int)
    requires
        0 <= i < members.len(),
        forall|k: int| i < k < members.len() ==> (#[trigger] members[k]).0 != members[i].0,
    ensures
        member_map(members)[members[i].0] == members[i].1,
    decreases members.len(),
{
    let shorter = members.drop_last();
    if i < shorter.len() {
        assert(members[members.len() - 1].0 != members[i].0);
        assert forall|k: int| i < k < shorter.len() implies (#[trigger] shorter[k]).0
            != shorter[i].0 by {
            assert(members[k].0 != members[i].0);
        }
        lemma_last_member(shorter, i);
    }
}

/// Lists are shown as the views of what they hold, in order.
pub proof fn law_list_views(items: Seq<Json>, entries: Seq<(String, Json)>)
    ensures
        trees(items) == Seq::new(items.len(), |i: int| items[i]@),
        listed(entries) == Seq::new(entries.len(), |i: int| (entries[i].0@, entries[i].1@)),
{
    assert(trees(items) =~= Seq::new(items.len(), |i: int| items[i]@));
    assert(listed(entries) =~= Seq::new(entries.len(), |i: int| (entries[i].0@, entries[i].1@)));
}

/// What a conversion gives is shown as the document or the message that it is.
pub proof fn law_outcome(r: Result<Json, String>)
    ensures
        r matches Ok(json) ==> outcome(r) == Ok::<Tree, Seq<char>>(json@),
        r matches Err(e) ==> outcome(r) == Err::<Tree, Seq<char>>(e@),
{
}

/// What a transform does is shown as the document or the message that it is.
pub proof fn law_transform_result_view(r: TransformResult)
    ensures
        r matches TransformResult::Modified { value } ==> r@ == Outcome::Modified(value@),
        r is Unchanged ==> r@ == Outcome::Unchanged,
        r matches TransformResult::Error { message } ==> r@ == Outcome::Error(message@),
{
}

/// The options are shown field by field.
pub proof fn law_settings(config: CsvConfig)
    ensures
        config@.direction == config.direction,
        config@.has_headers == config.has_headers,
        config@.delimiter == config.delimiter,
        config@.phase == config.phase,
        config@.max_output_bytes == config.max_output_bytes,
        config.columns matches Some(names) ==> config@.columns == Some(texts(names@)),
        config.columns is None ==> config@.columns is None,
        config.pointer matches Some(pointer) ==> config@.pointer == Some(pointer@),
        config.pointer is None ==> config@.pointer is None,
        column_texts(config.columns) == config@.columns,
        parsed(Ok(config)) == Ok::<Settings, Seq<char>>(config@),
        forall|problem: String| #[trigger]
            parsed(Err(problem)) == Err::<Settings, Seq<char>>(problem@),
{
}

/// Columns are shown as their names.
pub proof fn law_columns(columns: Option<&[String]>)
    ensures
        columns matches Some(names) ==> slice_texts(columns) == Some(texts(names@)),
        columns is None ==> slice_texts(columns) is None,
{
}

/// Bytes are the string that they encode, and no string where they are no UTF-8.
pub proof fn law_string_of(bytes: Seq<u8>)
    ensures
        valid_utf8(bytes) ==> string_of(bytes) == Ok::<Tree, Seq<char>>(
            Tree::Str(decode_utf8(bytes)),
        ),
        !valid_utf8(bytes) ==> string_of(bytes) == Err::<Tree, Seq<char>>(
            "csv output not UTF-8: "@ + utf8_problem(bytes),
        ),
{
}

} // verus!
