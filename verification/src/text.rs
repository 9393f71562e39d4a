//! Text helpers: decimal numerals, the order of strings, and message building.
use vstd::prelude::*;

verus! {

/// The character of one decimal digit.
pub open spec fn digit_char(d: nat) -> char {
    ('0' as nat + d) as char
}

/// The decimal numeral of `n`, without leading zeros.
pub open spec fn decimal(n: nat) -> Seq<char>
    decreases n,
{
    if n < 10 {
        seq![digit_char(n)]
    } else {
        decimal(n / 10).push(digit_char(n % 10))
    }
}

/// The strict dictionary order of strings by code point.
pub open spec fn precedes(a: Seq<char>, b: Seq<char>) -> bool
    decreases a.len(),
{
    if b.len() == 0 {
        false
    } else if a.len() == 0 {
        true
    } else if a[0] != b[0] {
        a[0] < b[0]
    } else {
        precedes(a.drop_first(), b.drop_first())
    }
}

/// Every string stands strictly before the next ones, so none occurs twice.
pub open spec fn strictly_sorted(keys: Seq<Seq<char>>) -> bool {
    forall|i: int, j: int| 0 <= i < j < keys.len() ==> precedes(keys[i], keys[j])
}

/// The views of a list of strings.
pub open spec fn texts(strings: Seq<String>) -> Seq<Seq<char>> {
    strings.map_values(|s: String| s@)
}

/// A numeral is made of digits.
pub proof fn lemma_decimal_digits(n: nat)
    ensures
        decimal(n).len() > 0,
        forall|i: int| 0 <= i < decimal(n).len() ==> '0' <= #[trigger] decimal(n)[i] <= '9',
    decreases n,
{
    if n >= 10 {
        lemma_decimal_digits(n / 10);
    }
}

/// The number that a text of digits is the numeral of.
pub open spec fn numeral_value(text: Seq<char>) -> int
    decreases text.len(),
{
    if text.len() == 0 {
        0
    } else {
        10 * numeral_value(text.drop_last()) + (text.last() as int - '0' as int)
    }
}

/// The decimal numeral of a number is made of digits, has no leading zero, and
/// has the value of the number.
pub proof fn law_decimal(n: nat)
    ensures
        decimal(n).len() > 0,
        forall|i: int| 0 <= i < decimal(n).len() ==> '0' <= #[trigger] decimal(n)[i] <= '9',
        decimal(n).len() > 1 ==> decimal(n)[0] != '0',
        numeral_value(decimal(n)) == n,
    decreases n,
{
    lemma_decimal_digits(n);
    if n < 10 {
        assert(decimal(n).drop_last() =~= Seq::<char>::empty());
        assert(numeral_value(decimal(n).drop_last()) == 0);
    } else {
        law_decimal(n / 10);
        assert(decimal(n).drop_last() =~= decimal(n / 10));
        if decimal(n / 10).len() == 1 {
            assert(decimal(n)[0] == decimal(n / 10)[0]);
            if n / 10 >= 10 {
                lemma_decimal_digits(n / 10 / 10);
            }
        }
    }
}

/// The views of a list of strings are the views of its strings, in order.
pub proof fn law_texts(strings: Seq<String>)
    ensures
        texts(strings).len() == strings.len(),
        forall|i: int| 0 <= i < strings.len() ==> #[trigger] texts(strings)[i] == strings[i]@,
{
}

/// Different numbers have different numerals.
pub proof fn lemma_decimal_injective(a: nat, b: nat)
    requires
        decimal(a) == decimal(b),
    ensures
        a == b,
    decreases a,
{
    lemma_decimal_digits(a / 10);
    lemma_decimal_digits(b / 10);
    let last = decimal(a).last();
    assert(last == digit_char(a % 10));
    assert(last == digit_char(b % 10));
    if a >= 10 && b >= 10 {
        assert(decimal(a).drop_last() =~= decimal(a / 10));
        assert(decimal(b).drop_last() =~= decimal(b / 10));
        lemma_decimal_injective(a / 10, b / 10);
    }
}

/// No string precedes itself.
pub proof fn law_precedes_irreflexive(a: Seq<char>)
    ensures
        !precedes(a, a),
    decreases a.len(),
{
    if a.len() > 0 {
        law_precedes_irreflexive(a.drop_first());
    }
}

/// The order is transitive.
pub proof fn law_precedes_transitive(a: Seq<char>, b: Seq<char>, c: Seq<char>)
    requires
        precedes(a, b),
        precedes(b, c),
    ensures
        precedes(a, c),
    decreases a.len(),
{
    if a.len() > 0 && a[0] == b[0] && b[0] == c[0] {
        law_precedes_transitive(a.drop_first(), b.drop_first(), c.drop_first());
    }
}

/// Of two different strings one precedes the other.
pub proof fn law_precedes_total(a: Seq<char>, b: Seq<char>)
    requires
        a != b,
    ensures
        precedes(a, b) || precedes(b, a),
    decreases a.len(),
{
    if a.len() == 0 {
        assert(b.len() != 0) by {
            if b.len() == 0 {
                assert(a =~= b);
            }
        }
    } else if b.len() > 0 && a[0] == b[0] {
        if a.drop_first() == b.drop_first() {
            assert(a =~= seq![a[0]] + a.drop_first());
            assert(b =~= seq![b[0]] + b.drop_first());
        }
        law_precedes_total(a.drop_first(), b.drop_first());
    }
}

/// A string put at its place keeps a list strictly sorted.
pub proof fn lemma_sorted_insert(keys: Seq<Seq<char>>, i: int, name: Seq<char>)
    requires
        strictly_sorted(keys),
        0 <= i <= keys.len(),
        forall|k: int| 0 <= k < i ==> precedes(#[trigger] keys[k], name),
        i < keys.len() ==> precedes(name, keys[i]),
    ensures
        strictly_sorted(keys.insert(i, name)),
        forall|k: Seq<char>| #[trigger]
            keys.insert(i, name).contains(k) <==> keys.contains(k) || k == name,
{
    let after = keys.insert(i, name);
    assert forall|k: int| i <= k < keys.len() implies precedes(name, #[trigger] keys[k]) by {
        if k > i {
            law_precedes_transitive(name, keys[i], keys[k]);
        }
    }
    assert forall|a: int, b: int| 0 <= a < b < after.len() implies precedes(
        after[a],
        after[b],
    ) by {
        let x = if a < i {
            a
        } else {
            a - 1
        };
        let y = if b < i {
            b
        } else {
            b - 1
        };
        if a == i {
            assert(after[b] == keys[y]);
        } else if b == i {
            assert(after[a] == keys[x]);
        } else {
            assert(after[a] == keys[x]);
            assert(after[b] == keys[y]);
        }
    }
    assert forall|k: Seq<char>| #[trigger]
        after.contains(k) <==> keys.contains(k) || k == name by {
        if after.contains(k) {
            let x = choose|x: int| 0 <= x < after.len() && after[x] == k;
            if x < i {
                assert(keys[x] == k);
            } else if x > i {
                assert(keys[x - 1] == k);
            }
        }
        if keys.contains(k) {
            let x = choose|x: int| 0 <= x < keys.len() && keys[x] == k;
            if x < i {
                assert(after[x] == k);
            } else {
                assert(after[x + 1] == k);
            }
        }
        if k == name {
            assert(after[i] == k);
        }
    }
}

/// The place of a string in a sorted list that does not hold it.
proof fn lemma_sorted_place(keys: Seq<Seq<char>>, name: Seq<char>, i: int) -> (place: int)
    requires
        strictly_sorted(keys),
        !keys.contains(name),
        0 <= i <= keys.len(),
        forall|k: int| 0 <= k < i ==> precedes(#[trigger] keys[k], name),
    ensures
        0 <= place <= keys.len(),
        forall|k: int| 0 <= k < place ==> precedes(#[trigger] keys[k], name),
        place < keys.len() ==> precedes(name, keys[place]),
    decreases keys.len() - i,
{
    if i == keys.len() || precedes(name, keys[i]) {
        i
    } else {
        assert(keys.contains(keys[i]));
        law_precedes_total(keys[i], name);
        lemma_sorted_place(keys, name, i + 1)
    }
}

/// Every finite set of strings can be listed in order.
pub proof fn lemma_sorted_list(names: Set<Seq<char>>) -> (keys: Seq<Seq<char>>)
    requires
        names.finite(),
    ensures
        strictly_sorted(keys),
        forall|k: Seq<char>| #[trigger] keys.contains(k) <==> names.contains(k),
    decreases names.len(),
{
    if names.is_empty() {
        Seq::empty()
    } else {
        let name = names.choose();
        let keys = lemma_sorted_list(names.remove(name));
        assert(!keys.contains(name));
        let place = lemma_sorted_place(keys, name, 0);
        lemma_sorted_insert(keys, place, name);
        keys.insert(place, name)
    }
}

/// A strictly sorted list is determined by the strings it holds.
pub proof fn lemma_sorted_unique(a: Seq<Seq<char>>, b: Seq<Seq<char>>)
    requires
        strictly_sorted(a),
        strictly_sorted(b),
        forall|k: Seq<char>| a.contains(k) <==> b.contains(k),
    ensures
        a == b,
    decreases a.len(),
{
    if a.len() == 0 {
        if b.len() > 0 {
            assert(b.contains(b[0]));
            assert(a.contains(b[0]));
        }
        assert(a =~= b);
    } else {
        assert(a.contains(a[0]));
        assert(b.contains(a[0]));
        let i = choose|i: int| 0 <= i < b.len() && b[i] == a[0];
        assert(b.contains(b[0]));
        assert(a.contains(b[0]));
        let j = choose|j: int| 0 <= j < a.len() && a[j] == b[0];
        if i != 0 && j != 0 {
            law_precedes_transitive(a[0], a[j], b[i]);
            law_precedes_irreflexive(a[0]);
        }
        assert(a[0] == b[0]);
        let ta = a.drop_first();
        let tb = b.drop_first();
        assert forall|k: Seq<char>| ta.contains(k) <==> tb.contains(k) by {
            if ta.contains(k) {
                let x = choose|x: int| 0 <= x < ta.len() && ta[x] == k;
                assert(a[x + 1] == k);
                assert(a.contains(k));
                assert(b.contains(k));
                let y = choose|y: int| 0 <= y < b.len() && b[y] == k;
                if y == 0 {
                    law_precedes_irreflexive(a[0]);
                }
                assert(tb[y - 1] == k);
            }
            if tb.contains(k) {
                let x = choose|x: int| 0 <= x < tb.len() && tb[x] == k;
                assert(b[x + 1] == k);
                assert(b.contains(k));
                assert(a.contains(k));
                let y = choose|y: int| 0 <= y < a.len() && a[y] == k;
                if y == 0 {
                    law_precedes_irreflexive(a[0]);
                }
                assert(ta[y - 1] == k);
            }
        }
        lemma_sorted_unique(ta, tb);
        assert(a =~= seq![a[0]] + ta);
        assert(b =~= seq![b[0]] + tb);
    }
}

/// The order is the dictionary order: a string precedes those that it begins, and
/// of two strings that differ at some position the one with the smaller code
/// point at the first such position comes first.
pub proof fn law_dictionary_order(a: Seq<char>, b: Seq<char>)
    ensures
        precedes(a, b) <==> exists|n: int|
            0 <= n <= a.len() && n <= b.len() && #[trigger] a.take(n) == b.take(n) && (n == a.len()
                && n < b.len() || n < a.len() && n < b.len() && a[n] < b[n]),
    decreases a.len(),
{
    if b.len() == 0 {
    } else if a.len() == 0 || a[0] < b[0] {
        assert(a.take(0) =~= b.take(0));
    } else if a[0] != b[0] {
        if exists|n: int|
            0 <= n <= a.len() && n <= b.len() && #[trigger] a.take(n) == b.take(n) && (n == a.len()
                && n < b.len() || n < a.len() && n < b.len() && a[n] < b[n]) {
            let n = choose|n: int|
                0 <= n <= a.len() && n <= b.len() && #[trigger] a.take(n) == b.take(n) && (n
                    == a.len() && n < b.len() || n < a.len() && n < b.len() && a[n] < b[n]);
            assert(a.take(n)[0] == b.take(n)[0]);
        }
    } else {
        let ta = a.drop_first();
        let tb = b.drop_first();
        law_dictionary_order(ta, tb);
        if precedes(a, b) {
            let n = choose|n: int|
                0 <= n <= ta.len() && n <= tb.len() && #[trigger] ta.take(n) == tb.take(n) && (n
                    == ta.len() && n < tb.len() || n < ta.len() && n < tb.len() && ta[n] < tb[n]);
            assert(a.take(n + 1) =~= seq![a[0]] + ta.take(n));
            assert(b.take(n + 1) =~= seq![b[0]] + tb.take(n));
        }
        if exists|n: int|
            0 <= n <= a.len() && n <= b.len() && #[trigger] a.take(n) == b.take(n) && (n == a.len()
                && n < b.len() || n < a.len() && n < b.len() && a[n] < b[n]) {
            let n = choose|n: int|
                0 <= n <= a.len() && n <= b.len() && #[trigger] a.take(n) == b.take(n) && (n
                    == a.len() && n < b.len() || n < a.len() && n < b.len() && a[n] < b[n]);
            assert(ta.take(n - 1) =~= a.take(n).drop_first());
            assert(tb.take(n - 1) =~= b.take(n).drop_first());
            assert(ta.take(n - 1) == tb.take(n - 1));
        }
    }
}

/// Whether `a` stands strictly before `b` in the dictionary order.
pub fn string_precedes(a: &str, b: &str) -> (r: bool)
    ensures
        r == precedes(a@, b@),
        r == exists|n: int|
            0 <= n <= a@.len() && n <= b@.len() && #[trigger] a@.take(n) == b@.take(n) && (n
                == a@.len() && n < b@.len() || n < a@.len() && n < b@.len() && a@[n] < b@[n]),
{
    let mut left = a.chars();
    let mut right = b.chars();
    loop
        invariant
            precedes(a@, b@) == precedes(
                vstd::std_specs::iter::IteratorSpec::remaining(&left),
                vstd::std_specs::iter::IteratorSpec::remaining(&right),
            ),
            vstd::std_specs::iter::IteratorSpec::decrease(&left) is Some,
        decreases vstd::std_specs::iter::IteratorSpec::decrease(&left)->0,
    {
        proof {
            law_dictionary_order(a@, b@);
        }
        let x = left.next();
        let y = right.next();
        match y {
            None => {
                return false;
            },
            Some(d) => {
                match x {
                    None => {
                        return true;
                    },
                    Some(c) => {
                        if c != d {
                            return c < d;
                        }
                    },
                }
            },
        }
    }
}

/// The decimal numeral of `n`.
pub fn decimal_text(n: usize) -> (r: String)
    ensures
        r@ == decimal(n as nat),
    decreases n,
{
    if n < 10 {
        digit_text(n)
    } else {
        let mut text = decimal_text(n / 10);
        text.append(digit_text(n % 10).as_str());
        text
    }
}

fn digit_text(d: usize) -> (r: String)
    requires
        d < 10,
    ensures
        r@ == seq![digit_char(d as nat)],
{
    let digits = "0123456789";
    proof {
        reveal_strlit("0123456789");
    }
    let r = String::from_str(digits.substring_ascii(d, d + 1));
    assert(r@ =~= seq![digit_char(d as nat)]);
    r
}

/// The text of `a` followed by the text of `b`.
pub fn join(a: &str, b: &str) -> (r: String)
    ensures
        r@ == a@ + b@,
{
    let mut text = String::from_str(a);
    text.append(b);
    text
}

} // verus!
