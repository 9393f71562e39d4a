//! The mathematical model of a JSON document: trees, and locations inside them.
use vstd::prelude::*;

use crate::text::{decimal, lemma_decimal_digits, lemma_decimal_injective};

verus! {

/// A JSON document as a mathematical value. An object is a finite map from
/// names to documents, so the order in which its members were written is not
/// part of it.
pub ghost enum Tree {
    Null,
    Bool(bool),
    Number(serde_json::Number),
    Str(Seq<char>),
    Array(Seq<Tree>),
    Object(Map<Seq<char>, Tree>),
}

/// Listed members as a map: where a name is listed twice, the later member
/// counts, as it does when members are inserted into a map one after another.
pub open spec fn member_map(members: Seq<(Seq<char>, Tree)>) -> Map<Seq<char>, Tree>
    decreases members.len(),
{
    if members.len() == 0 {
        Map::empty()
    } else {
        member_map(members.drop_last()).insert(members.last().0, members.last().1)
    }
}

/// No name is listed twice.
pub open spec fn names_once(members: Seq<(Seq<char>, Tree)>) -> bool {
    forall|i: int, j: int| 0 <= i < j < members.len() ==> members[i].0 != members[j].0
}

/// The map of listed members is finite and has exactly the listed names.
pub proof fn lemma_listed_names(members: Seq<(Seq<char>, Tree)>)
    ensures
        member_map(members).dom().finite(),
        forall|name: Seq<char>| #[trigger]
            member_map(members).contains_key(name) <==> exists|i: int|
                0 <= i < members.len() && (#[trigger] members[i]).0 == name,
    decreases members.len(),
{
    if members.len() > 0 {
        let shorter = members.drop_last();
        lemma_listed_names(shorter);
        assert forall|name: Seq<char>| #[trigger]
            member_map(members).contains_key(name) <==> exists|i: int|
                0 <= i < members.len() && (#[trigger] members[i]).0 == name by {
            if member_map(shorter).contains_key(name) {
                let i = choose|i: int| 0 <= i < shorter.len() && (#[trigger] shorter[i]).0 == name;
                assert(members[i].0 == name);
            }
            if exists|i: int| 0 <= i < members.len() && (#[trigger] members[i]).0 == name {
                let i = choose|i: int| 0 <= i < members.len() && (#[trigger] members[i]).0 == name;
                if i < shorter.len() {
                    assert(shorter[i].0 == name);
                } else {
                    assert(members.last().0 == name);
                }
            }
        }
    }
}

/// Where no name is listed twice, each listed member is found under its name.
pub proof fn lemma_listed_member(members: Seq<(Seq<char>, Tree)>, i: int)
    requires
        names_once(members),
        0 <= i < members.len(),
    ensures
        member_map(members).contains_key(members[i].0),
        member_map(members)[members[i].0] == members[i].1,
    decreases members.len(),
{
    let shorter = members.drop_last();
    if i < shorter.len() {
        lemma_listed_member(shorter, i);
    }
}

/// Striking out a listed member changes the map at its name only.
proof fn lemma_strike_member(members: Seq<(Seq<char>, Tree)>, i: int, value: Tree)
    requires
        0 <= i < members.len(),
    ensures
        member_map(members.remove(i)).insert(members[i].0, value) == member_map(members).insert(
            members[i].0,
            value,
        ),
    decreases members.len(),
{
    let name = members[i].0;
    let shorter = members.drop_last();
    let struck = members.remove(i);
    if i == members.len() - 1 {
        assert(struck =~= shorter);
        assert(member_map(shorter).insert(name, value) =~= member_map(members).insert(name, value));
    } else {
        lemma_strike_member(shorter, i, value);
        assert(struck.drop_last() =~= shorter.remove(i));
        assert(struck.last() == members.last());
        let a = member_map(shorter.remove(i));
        let b = member_map(shorter);
        let last = members.last();
        assert(a.remove(name) =~= a.insert(name, value).remove(name));
        assert(b.remove(name) =~= b.insert(name, value).remove(name));
        assert(a.insert(last.0, last.1).insert(name, value) =~= a.remove(name).insert(
            last.0,
            last.1,
        ).insert(name, value));
        assert(b.insert(last.0, last.1).insert(name, value) =~= b.remove(name).insert(
            last.0,
            last.1,
        ).insert(name, value));
    }
}

/// A member listed at the end in place of one of its name replaces it.
pub proof fn lemma_replace_member(members: Seq<(Seq<char>, Tree)>, i: int, value: Tree)
    requires
        0 <= i < members.len(),
    ensures
        ({
            let after = members.remove(i).push((members[i].0, value));
            &&& member_map(after) == member_map(members).insert(members[i].0, value)
            &&& names_once(members) ==> names_once(after)
        }),
{
    let struck = members.remove(i);
    let after = struck.push((members[i].0, value));
    lemma_strike_member(members, i, value);
    assert(after.drop_last() =~= struck);
    if names_once(members) {
        assert forall|a: int, b: int| 0 <= a < b < after.len() implies after[a].0 != after[b].0 by {
            let x = if a < i {
                a
            } else {
                a + 1
            };
            let y = if b == struck.len() {
                i
            } else if b < i {
                b
            } else {
                b + 1
            };
            assert(after[a].0 == members[x].0);
            assert(after[b].0 == members[y].0);
            assert(members[x].0 != members[y].0);
        }
    }
}

/// A member listed at the end under a new name is added.
pub proof fn lemma_add_member(members: Seq<(Seq<char>, Tree)>, added: (Seq<char>, Tree))
    requires
        forall|k: int| 0 <= k < members.len() ==> (#[trigger] members[k]).0 != added.0,
    ensures
        member_map(members.push(added)) == member_map(members).insert(added.0, added.1),
        names_once(members) ==> names_once(members.push(added)),
{
    assert(members.push(added).drop_last() =~= members);
}

/// One step down into a document.
pub ghost enum Step {
    /// To the member of an object with this name.
    Member(Seq<char>),
    /// To the element of an array at this position.
    Element(int),
}

/// The document that one step leads to, if there is one.
pub open spec fn child(tree: Tree, step: Step) -> Option<Tree> {
    match (tree, step) {
        (Tree::Object(members), Step::Member(name)) => if members.contains_key(name) {
            Some(members[name])
        } else {
            None
        },
        (Tree::Array(items), Step::Element(i)) => if 0 <= i < items.len() {
            Some(items[i])
        } else {
            None
        },
        _ => None,
    }
}

/// The document at the end of a path, if the path leads somewhere.
pub open spec fn at(tree: Tree, path: Seq<Step>) -> Option<Tree>
    decreases path.len(),
{
    if path.len() == 0 {
        Some(tree)
    } else {
        match child(tree, path[0]) {
            Some(below) => at(below, path.drop_first()),
            None => None,
        }
    }
}

/// The document with the child behind `step` exchanged for `new`.
pub open spec fn with_child(tree: Tree, step: Step, new: Tree) -> Tree {
    match (tree, step) {
        (Tree::Object(members), Step::Member(name)) => Tree::Object(members.insert(name, new)),
        (Tree::Array(items), Step::Element(i)) => Tree::Array(items.update(i, new)),
        _ => tree,
    }
}

/// The document with what stands at the end of `path` exchanged for `new`.
pub open spec fn put(tree: Tree, path: Seq<Step>, new: Tree) -> Tree
    decreases path.len(),
{
    if path.len() == 0 {
        new
    } else {
        match child(tree, path[0]) {
            Some(below) => with_child(tree, path[0], put(below, path.drop_first(), new)),
            None => tree,
        }
    }
}

/// A name as it stands in a JSON Pointer: `~` is written `~0`, and `/` is
/// written `~1`.
pub open spec fn escaped(name: Seq<char>) -> Seq<char>
    decreases name.len(),
{
    if name.len() == 0 {
        name
    } else if name[0] == '~' {
        seq!['~', '0'] + escaped(name.drop_first())
    } else if name[0] == '/' {
        seq!['~', '1'] + escaped(name.drop_first())
    } else {
        seq![name[0]] + escaped(name.drop_first())
    }
}

/// The JSON Pointer (RFC 6901) of a location: for each step a slash and the
/// escaped name, or the position in decimal.
pub open spec fn pointer_text(path: Seq<Step>) -> Seq<char>
    decreases path.len(),
{
    if path.len() == 0 {
        Seq::empty()
    } else {
        let token = match path[0] {
            Step::Member(name) => escaped(name),
            Step::Element(i) => decimal(i as nat),
        };
        seq!['/'] + token + pointer_text(path.drop_first())
    }
}

/// The length of the token that a text begins with: all before the first slash.
pub open spec fn token_len(text: Seq<char>) -> nat
    decreases text.len(),
{
    if text.len() == 0 || text[0] == '/' {
        0
    } else {
        1 + token_len(text.drop_first())
    }
}

/// The name that a token of a JSON Pointer stands for: `~0` stands for `~`, and
/// `~1` for `/`. Any other tilde stands for itself.
pub open spec fn unescaped(token: Seq<char>) -> Seq<char>
    decreases token.len(),
{
    if token.len() == 0 {
        token
    } else if token.len() > 1 && token[0] == '~' && token[1] == '0' {
        seq!['~'] + unescaped(token.skip(2))
    } else if token.len() > 1 && token[0] == '~' && token[1] == '1' {
        seq!['/'] + unescaped(token.skip(2))
    } else {
        seq![token[0]] + unescaped(token.drop_first())
    }
}

/// The element of an array that a name stands for: the one whose position it is
/// in decimal.
pub open spec fn is_position(items: Seq<Tree>, name: Seq<char>, i: int) -> bool {
    0 <= i < items.len() && name == decimal(i as nat)
}

/// The step that a name stands for in a document, if it stands for one.
pub open spec fn step_to(tree: Tree, name: Seq<char>) -> Option<Step> {
    match tree {
        Tree::Object(members) => if members.contains_key(name) {
            Some(Step::Member(name))
        } else {
            None
        },
        Tree::Array(items) => if exists|i: int| is_position(items, name, i) {
            Some(Step::Element(choose|i: int| is_position(items, name, i)))
        } else {
            None
        },
        _ => None,
    }
}

/// The location that a JSON Pointer (RFC 6901) addresses in a document, if it
/// addresses one: the empty pointer addresses the whole document, and any other
/// is made of a slash and a token for each step.
pub open spec fn locate(tree: Tree, pointer: Seq<char>) -> Option<Seq<Step>>
    decreases pointer.len(),
{
    if pointer.len() == 0 {
        Some(Seq::empty())
    } else if pointer[0] != '/' {
        None
    } else {
        let text = pointer.drop_first();
        let n = token_len(text) as int;
        proof {
            lemma_token_len(text);
        }
        match step_to(tree, unescaped(text.take(n))) {
            Some(step) => match locate(child(tree, step)->0, text.skip(n)) {
                Some(rest) => Some(seq![step] + rest),
                None => None,
            },
            None => None,
        }
    }
}

/// Every tilde begins one of the two escapes.
pub open spec fn well_escaped(text: Seq<char>) -> bool {
    forall|i: int|
        0 <= i < text.len() && #[trigger] text[i] == '~' ==> i + 1 < text.len() && (text[i + 1]
            == '0' || text[i + 1] == '1')
}

/// The two paths part ways: neither runs through the end of the other.
pub open spec fn diverge(p: Seq<Step>, q: Seq<Step>) -> bool
    decreases p.len(),
{
    &&& p.len() > 0
    &&& q.len() > 0
    &&& p[0] != q[0] || diverge(p.drop_first(), q.drop_first())
}

/// A token ends before the first slash.
pub proof fn lemma_token_len(text: Seq<char>)
    ensures
        token_len(text) <= text.len(),
        forall|i: int| 0 <= i < token_len(text) ==> #[trigger] text[i] != '/',
        token_len(text) < text.len() ==> text[token_len(text) as int] == '/',
    decreases text.len(),
{
    if text.len() > 0 && text[0] != '/' {
        let rest = text.drop_first();
        lemma_token_len(rest);
        assert forall|i: int| 0 <= i < token_len(text) implies #[trigger] text[i] != '/' by {
            if i > 0 {
                assert(rest[i - 1] == text[i]);
            }
        }
    }
}

/// A token without slashes is all that stands before the next slash.
proof fn lemma_token(token: Seq<char>, rest: Seq<char>)
    requires
        forall|i: int| 0 <= i < token.len() ==> #[trigger] token[i] != '/',
        rest.len() > 0 ==> rest[0] == '/',
    ensures
        token_len(token + rest) == token.len(),
        (token + rest).take(token.len() as int) == token,
        (token + rest).skip(token.len() as int) == rest,
{
    let text = token + rest;
    lemma_token_len(text);
    let n = token_len(text) as int;
    if n < token.len() {
        assert(text[n] == token[n]);
    }
    if n > token.len() {
        assert(text[token.len() as int] == rest[0]);
    }
    assert(text.take(token.len() as int) =~= token);
    assert(text.skip(token.len() as int) =~= rest);
}

/// Escaping leaves no slash, and it is undone by taking the escapes back.
proof fn lemma_escaped(name: Seq<char>)
    ensures
        forall|i: int| 0 <= i < escaped(name).len() ==> #[trigger] escaped(name)[i] != '/',
        unescaped(escaped(name)) == name,
    decreases name.len(),
{
    if name.len() > 0 {
        let rest = escaped(name.drop_first());
        lemma_escaped(name.drop_first());
        assert(seq![name[0]] + name.drop_first() =~= name);
        if name[0] == '~' || name[0] == '/' {
            assert(escaped(name).skip(2) =~= rest);
        } else {
            assert(escaped(name).drop_first() =~= rest);
        }
    }
}

/// Escaping gives a well escaped token back.
proof fn lemma_unescaped(token: Seq<char>)
    requires
        well_escaped(token),
        forall|i: int| 0 <= i < token.len() ==> #[trigger] token[i] != '/',
    ensures
        escaped(unescaped(token)) == token,
    decreases token.len(),
{
    if token.len() > 0 {
        assert(token[0] != '/');
        if token[0] == '~' {
            assert(token[1] == '0' || token[1] == '1');
            let rest = token.skip(2);
            assert forall|i: int| 0 <= i < rest.len() implies #[trigger] rest[i] != '/' by {
                assert(token[i + 2] != '/');
            }
            assert forall|i: int| 0 <= i < rest.len() && #[trigger] rest[i] == '~' implies i + 1
                < rest.len() && (rest[i + 1] == '0' || rest[i + 1] == '1') by {
                assert(token[i + 2] == '~');
            }
            lemma_unescaped(rest);
            assert(unescaped(token).drop_first() =~= unescaped(rest));
            assert(seq![token[0], token[1]] + rest =~= token);
        } else {
            let rest = token.drop_first();
            assert forall|i: int| 0 <= i < rest.len() implies #[trigger] rest[i] != '/' by {
                assert(token[i + 1] != '/');
            }
            assert forall|i: int| 0 <= i < rest.len() && #[trigger] rest[i] == '~' implies i + 1
                < rest.len() && (rest[i + 1] == '0' || rest[i + 1] == '1') by {
                assert(token[i + 1] == '~');
            }
            lemma_unescaped(rest);
            assert(unescaped(token).drop_first() =~= unescaped(rest));
            assert(seq![token[0]] + rest =~= token);
        }
    }
}

/// A text without tilde and slash is its own escaped form.
proof fn lemma_nothing_to_escape(text: Seq<char>)
    requires
        forall|i: int| 0 <= i < text.len() ==> #[trigger] text[i] != '/' && text[i] != '~',
    ensures
        escaped(text) == text,
    decreases text.len(),
{
    if text.len() > 0 {
        let rest = text.drop_first();
        assert forall|i: int| 0 <= i < rest.len() implies #[trigger] rest[i] != '/' && rest[i]
            != '~' by {
            assert(text[i + 1] != '/');
        }
        lemma_nothing_to_escape(rest);
        assert(text[0] != '/');
        assert(seq![text[0]] + rest =~= text);
    }
}

/// A position in decimal is its own escaped form.
proof fn lemma_position_token(i: nat)
    ensures
        escaped(decimal(i)) == decimal(i),
{
    lemma_decimal_digits(i);
    lemma_nothing_to_escape(decimal(i));
}

/// The name of a child stands for the step to it.
proof fn lemma_step_to(tree: Tree, step: Step)
    requires
        child(tree, step) is Some,
    ensures
        match step {
            Step::Member(name) => step_to(tree, name) == Some(step),
            Step::Element(i) => step_to(tree, decimal(i as nat)) == Some(step),
        },
{
    if let (Tree::Array(items), Step::Element(i)) = (tree, step) {
        let name = decimal(i as nat);
        assert(is_position(items, name, i));
        let j = choose|j: int| is_position(items, name, j);
        lemma_decimal_injective(i as nat, j as nat);
    }
}

/// What a pointer addresses is there.
pub proof fn law_located_is_there(tree: Tree, pointer: Seq<char>)
    requires
        locate(tree, pointer) is Some,
    ensures
        at(tree, locate(tree, pointer)->0) is Some,
    decreases pointer.len(),
{
    if pointer.len() > 0 {
        let text = pointer.drop_first();
        let n = token_len(text) as int;
        lemma_token_len(text);
        let step = step_to(tree, unescaped(text.take(n)))->0;
        let below = child(tree, step)->0;
        law_located_is_there(below, text.skip(n));
        let rest = locate(below, text.skip(n))->0;
        assert((seq![step] + rest).drop_first() =~= rest);
    }
}

/// The pointer of a location addresses that location.
pub proof fn law_pointer_of_a_location(tree: Tree, path: Seq<Step>)
    requires
        at(tree, path) is Some,
    ensures
        locate(tree, pointer_text(path)) == Some(path),
    decreases path.len(),
{
    let pointer = pointer_text(path);
    if path.len() == 0 {
        assert(path =~= Seq::<Step>::empty());
    } else {
        let below = child(tree, path[0])->0;
        let rest = path.drop_first();
        law_pointer_of_a_location(below, rest);
        let name = match path[0] {
            Step::Member(name) => name,
            Step::Element(i) => decimal(i as nat),
        };
        if let Step::Element(i) = path[0] {
            lemma_position_token(i as nat);
        }
        lemma_escaped(name);
        lemma_token(escaped(name), pointer_text(rest));
        assert(pointer.drop_first() =~= escaped(name) + pointer_text(rest));
        lemma_step_to(tree, path[0]);
        assert(seq![path[0]] + rest =~= path);
    }
}

/// Where every tilde of a pointer begins an escape, the pointer addresses no
/// location but the one that it is the pointer of.
pub proof fn law_located_has_this_pointer(tree: Tree, pointer: Seq<char>)
    requires
        well_escaped(pointer),
        locate(tree, pointer) is Some,
    ensures
        pointer == pointer_text(locate(tree, pointer)->0),
    decreases pointer.len(),
{
    if pointer.len() == 0 {
        assert(pointer =~= Seq::<char>::empty());
    } else {
        let text = pointer.drop_first();
        let n = token_len(text) as int;
        lemma_token_len(text);
        let token = text.take(n);
        let tail = text.skip(n);
        assert forall|i: int| 0 <= i < token.len() implies #[trigger] token[i] != '/' by {
            assert(text[i] != '/');
        }
        assert forall|i: int| 0 <= i < token.len() && #[trigger] token[i] == '~' implies i + 1
            < token.len() && (token[i + 1] == '0' || token[i + 1] == '1') by {
            assert(pointer[i + 1] == '~');
            assert(pointer[i + 2] == text[i + 1]);
        }
        assert forall|i: int| 0 <= i < tail.len() && #[trigger] tail[i] == '~' implies i + 1
            < tail.len() && (tail[i + 1] == '0' || tail[i + 1] == '1') by {
            assert(pointer[i + n + 1] == '~');
        }
        lemma_unescaped(token);
        let name = unescaped(token);
        let step = step_to(tree, name)->0;
        let below = child(tree, step)->0;
        law_located_has_this_pointer(below, tail);
        let rest = locate(below, tail)->0;
        let path = seq![step] + rest;
        assert(path.drop_first() =~= rest);
        if let Tree::Array(items) = tree {
            let i = choose|i: int| is_position(items, name, i);
            assert(is_position(items, name, i));
            lemma_position_token(i as nat);
        }
        assert(pointer =~= seq!['/'] + token + tail);
    }
}

/// A pointer addresses the same location after what stands there is exchanged.
pub proof fn law_located_after_put(tree: Tree, pointer: Seq<char>, new: Tree)
    requires
        locate(tree, pointer) is Some,
    ensures
        locate(put(tree, locate(tree, pointer)->0, new), pointer) == locate(tree, pointer),
    decreases pointer.len(),
{
    if pointer.len() > 0 {
        let text = pointer.drop_first();
        let n = token_len(text) as int;
        lemma_token_len(text);
        let name = unescaped(text.take(n));
        let step = step_to(tree, name)->0;
        let below = child(tree, step)->0;
        law_located_after_put(below, text.skip(n), new);
        let rest = locate(below, text.skip(n))->0;
        let path = seq![step] + rest;
        assert(path.drop_first() =~= rest);
        let changed = put(tree, path, new);
        if let Tree::Array(items) = tree {
            let i = choose|i: int| is_position(items, name, i);
            assert(is_position(items, name, i));
            let kept = changed->Array_0;
            assert forall|j: int| is_position(kept, name, j) <==> is_position(items, name, j) by {}
            assert(is_position(kept, name, i));
            let k = choose|k: int| is_position(kept, name, k);
            lemma_decimal_injective(i as nat, k as nat);
        }
        assert(step_to(changed, name) == Some(step));
        assert(child(changed, step) == Some(put(below, rest, new)));
    }
}

/// Exchanging what stands at a path puts the new document there.
pub proof fn law_put_is_found(tree: Tree, path: Seq<Step>, new: Tree)
    requires
        at(tree, path) is Some,
    ensures
        at(put(tree, path, new), path) == Some(new),
    decreases path.len(),
{
    if path.len() > 0 {
        law_put_is_found(child(tree, path[0])->0, path.drop_first(), new);
    }
}

/// Exchanging what stands at a path leaves every other part of the document as
/// it was: on every path that parts from it, the same document is found, and a
/// path that led nowhere still does.
pub proof fn law_put_preserves_the_rest(tree: Tree, path: Seq<Step>, new: Tree, other: Seq<Step>)
    requires
        at(tree, path) is Some,
        diverge(path, other),
    ensures
        at(put(tree, path, new), other) == at(tree, other),
    decreases path.len(),
{
    let below = child(tree, path[0])->0;
    if path[0] == other[0] {
        law_put_preserves_the_rest(below, path.drop_first(), new, other.drop_first());
    } else {
        let changed = put(tree, path, new);
        assert(child(changed, other[0]) == child(tree, other[0]));
    }
}

/// On the way down to the exchanged part, an object keeps its names and an
/// array its length: what stands above the exchanged part keeps its shape.
pub proof fn law_put_keeps_the_shape_above(tree: Tree, path: Seq<Step>, new: Tree, depth: int)
    requires
        at(tree, path) is Some,
        0 <= depth < path.len(),
    ensures
        match (at(tree, path.take(depth)), at(put(tree, path, new), path.take(depth))) {
            (Some(Tree::Object(old_members)), Some(Tree::Object(new_members))) => old_members.dom()
                == new_members.dom(),
            (Some(Tree::Array(old_items)), Some(Tree::Array(new_items))) => old_items.len()
                == new_items.len(),
            _ => false,
        },
    decreases path.len(),
{
    let below = child(tree, path[0])->0;
    if depth == 0 {
        assert(path.take(0).len() == 0);
        let changed = put(tree, path, new);
        if let (Tree::Object(a), Tree::Object(b)) = (tree, changed) {
            assert(a.dom() =~= b.dom());
        }
    } else {
        law_put_keeps_the_shape_above(below, path.drop_first(), new, depth - 1);
        assert(path.take(depth).drop_first() =~= path.drop_first().take(depth - 1));
        let changed = put(tree, path, new);
        assert(child(changed, path[0]) == Some(put(below, path.drop_first(), new)));
    }
}

/// Of two exchanges at one path, the later one counts.
pub proof fn law_put_twice(tree: Tree, path: Seq<Step>, first: Tree, second: Tree)
    requires
        at(tree, path) is Some,
    ensures
        put(put(tree, path, first), path, second) == put(tree, path, second),
    decreases path.len(),
{
    if path.len() > 0 {
        let below = child(tree, path[0])->0;
        let rest = path.drop_first();
        law_put_twice(below, rest, first, second);
        let a = put(below, rest, first);
        let b = put(below, rest, second);
        match (tree, path[0]) {
            (Tree::Object(members), Step::Member(name)) => {
                assert(members.insert(name, a).insert(name, b) =~= members.insert(name, b));
            },
            (Tree::Array(items), Step::Element(i)) => {
                assert(items.update(i, a).update(i, b) =~= items.update(i, b));
            },
            _ => {},
        }
    }
}

/// Putting back what was there changes nothing.
pub proof fn law_put_back(tree: Tree, path: Seq<Step>)
    requires
        at(tree, path) is Some,
    ensures
        put(tree, path, at(tree, path)->0) == tree,
    decreases path.len(),
{
    if path.len() > 0 {
        let below = child(tree, path[0])->0;
        law_put_back(below, path.drop_first());
        match (tree, path[0]) {
            (Tree::Object(members), Step::Member(name)) => {
                assert(members.insert(name, below) =~= members);
            },
            (Tree::Array(items), Step::Element(i)) => {
                assert(items.update(i, below) =~= items);
            },
            _ => {},
        }
    }
}

} // verus!
