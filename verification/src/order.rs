//! The lexical order of texts, and the ascending listing of a set of texts.

use vstd::prelude::*;
use vstd::std_specs::iter::IteratorSpec;

verus! {

/// `a` and `b` agree on their first `k` characters, and at position `k` either
/// `a` has ended while `b` goes on, or `a` holds the character with the smaller
/// code point.
pub open spec fn precedes_at(a: Seq<char>, b: Seq<char>, k: int) -> bool {
    &&& 0 <= k <= a.len()
    &&& k < b.len()
    &&& a.take(k) == b.take(k)
    &&& (k == a.len() || a[k] < b[k])
}

/// Strict lexical order on texts, character by character, by code point.
pub open spec fn precedes(a: Seq<char>, b: Seq<char>) -> bool {
    exists|k: int| precedes_at(a, b, k)
}

/// Every text of `s` but the last precedes its successor.
pub open spec fn ascending(s: Seq<Seq<char>>) -> bool {
    forall|i: int, j: int| 0 <= i < j < s.len() ==> precedes(s[i], s[j])
}

/// How one text stands to another in lexical order.
#[derive(Clone, Copy, Debug, PartialEq, Eq, Structural)]
pub enum Order {
    Before,
    Same,
    After,
}

/// No text precedes itself.
pub proof fn lemma_precedes_irreflexive(a: Seq<char>)
    ensures
        !precedes(a, a),
{
}

/// Lexical order is transitive.
pub proof fn lemma_precedes_transitive(a: Seq<char>, b: Seq<char>, c: Seq<char>)
    requires
        precedes(a, b),
        precedes(b, c),
    ensures
        precedes(a, c),
{
    let k1 = choose|k: int| precedes_at(a, b, k);
    let k2 = choose|k: int| precedes_at(b, c, k);
    let k = if k1 <= k2 { k1 } else { k2 };
    assert(a.take(k) =~= a.take(k1).take(k));
    assert(b.take(k) =~= b.take(k1).take(k));
    assert(b.take(k) =~= b.take(k2).take(k));
    assert(c.take(k) =~= c.take(k2).take(k));
    if k1 < k2 {
        assert(b.take(k2)[k1] == c.take(k2)[k1]);
    } else if k2 < k1 {
        assert(a.take(k1)[k2] == b.take(k1)[k2]);
    }
    assert(precedes_at(a, c, k));
}

/// Two texts never precede each other.
pub proof fn lemma_precedes_asymmetric(a: Seq<char>, b: Seq<char>)
    requires
        precedes(a, b),
    ensures
        !precedes(b, a),
        a != b,
{
    if precedes(b, a) {
        lemma_precedes_transitive(a, b, a);
    }
}

/// Of two texts, one precedes the other or they are equal.
pub proof fn lemma_precedes_total(a: Seq<char>, b: Seq<char>)
    ensures
        precedes(a, b) || a == b || precedes(b, a),
    decreases a.len() + b.len(),
{
    if a.len() == 0 {
        if b.len() > 0 {
            assert(a.take(0) =~= b.take(0));
            assert(precedes_at(a, b, 0));
        } else {
            assert(a =~= b);
        }
    } else if b.len() == 0 {
        assert(a.take(0) =~= b.take(0));
        assert(precedes_at(b, a, 0));
    } else if a[0] != b[0] {
        assert(a.take(0) =~= b.take(0));
        if a[0] < b[0] {
            assert(precedes_at(a, b, 0));
        } else {
            assert(precedes_at(b, a, 0));
        }
    } else {
        let ta = a.drop_first();
        let tb = b.drop_first();
        lemma_precedes_total(ta, tb);
        if precedes(ta, tb) {
            let k = choose|k: int| precedes_at(ta, tb, k);
            assert(a.take(k + 1) =~= seq![a[0]] + ta.take(k));
            assert(b.take(k + 1) =~= seq![b[0]] + tb.take(k));
            assert(precedes_at(a, b, k + 1));
        } else if precedes(tb, ta) {
            let k = choose|k: int| precedes_at(tb, ta, k);
            assert(a.take(k + 1) =~= seq![a[0]] + ta.take(k));
            assert(b.take(k + 1) =~= seq![b[0]] + tb.take(k));
            assert(precedes_at(b, a, k + 1));
        } else {
            assert(a =~= seq![a[0]] + ta);
            assert(b =~= seq![b[0]] + tb);
        }
    }
}

/// `keys` lists the members of `names` in lexical order, each once.
pub open spec fn is_sorted_keys(keys: Seq<Seq<char>>, names: Set<Seq<char>>) -> bool {
    &&& ascending(keys)
    &&& forall|k: Seq<char>| keys.contains(k) <==> names.contains(k)
}

/// The members of `names` in lexical order, where `names` is finite.
pub open spec fn sorted_keys(names: Set<Seq<char>>) -> Seq<Seq<char>> {
    choose|keys: Seq<Seq<char>>| is_sorted_keys(keys, names)
}

/// An ascending sequence holds no text twice.
pub proof fn lemma_ascending_distinct(s: Seq<Seq<char>>)
    requires
        ascending(s),
    ensures
        s.no_duplicates(),
{
    assert forall|i: int, j: int| 0 <= i < s.len() && 0 <= j < s.len() && i != j implies s[i]
        != s[j] by {
        if i < j {
            lemma_precedes_asymmetric(s[i], s[j]);
        } else {
            lemma_precedes_asymmetric(s[j], s[i]);
        }
    }
}

/// In an ascending sequence, every text but the last precedes the last.
pub proof fn lemma_last_is_greatest(s: Seq<Seq<char>>, k: Seq<char>)
    requires
        ascending(s),
        s.contains(k),
        k != s.last(),
    ensures
        precedes(k, s.last()),
{
    let i = choose|i: int| 0 <= i < s.len() && s[i] == k;
    assert(precedes(s[i], s[s.len() - 1]));
}

/// Without its last text, an ascending listing lists what is left of the set.
pub proof fn lemma_sorted_keys_drop_last(keys: Seq<Seq<char>>, names: Set<Seq<char>>)
    requires
        is_sorted_keys(keys, names),
        keys.len() > 0,
    ensures
        is_sorted_keys(keys.drop_last(), names.remove(keys.last())),
{
    let front = keys.drop_last();
    let rest = names.remove(keys.last());
    assert forall|i: int, j: int| 0 <= i < j < front.len() implies precedes(front[i], front[j]) by {
        assert(precedes(keys[i], keys[j]));
    }
    assert forall|k: Seq<char>| front.contains(k) <==> rest.contains(k) by {
        if front.contains(k) {
            let n = choose|n: int| 0 <= n < front.len() && front[n] == k;
            assert(keys[n] == k);
            assert(keys.contains(k));
            lemma_precedes_asymmetric(keys[n], keys.last());
        }
        if rest.contains(k) {
            assert(keys.contains(k));
            let n = choose|n: int| 0 <= n < keys.len() && keys[n] == k;
            assert(front[n] == k);
        }
    }
}

/// A set of texts has at most one ascending listing.
pub proof fn lemma_sorted_keys_unique(a: Seq<Seq<char>>, b: Seq<Seq<char>>, names: Set<Seq<char>>)
    requires
        is_sorted_keys(a, names),
        is_sorted_keys(b, names),
    ensures
        a == b,
    decreases a.len(),
{
    if a.len() == 0 || b.len() == 0 {
        if a.len() > 0 {
            assert(a.contains(a[0]));
            assert(b.contains(a[0]));
        }
        if b.len() > 0 {
            assert(b.contains(b[0]));
            assert(a.contains(b[0]));
        }
        assert(a =~= b);
    } else {
        let x = a.last();
        let y = b.last();
        assert(a.contains(x) && b.contains(x));
        assert(b.contains(y) && a.contains(y));
        if x != y {
            lemma_last_is_greatest(a, y);
            lemma_last_is_greatest(b, x);
            lemma_precedes_asymmetric(x, y);
        }
        lemma_sorted_keys_drop_last(a, names);
        lemma_sorted_keys_drop_last(b, names);
        lemma_sorted_keys_unique(a.drop_last(), b.drop_last(), names.remove(x));
        assert(a =~= a.drop_last().push(x));
        assert(b =~= b.drop_last().push(y));
    }
}

/// Position `i` of `keys` is the place of `key`: the texts before it precede
/// `key`, and `key` precedes the text that stands there.
pub open spec fn is_place(keys: Seq<Seq<char>>, key: Seq<char>, i: int) -> bool {
    &&& 0 <= i <= keys.len()
    &&& forall|j: int| 0 <= j < i ==> precedes(keys[j], key)
    &&& i < keys.len() ==> precedes(key, keys[i])
}

/// A text put in its place keeps an ascending sequence ascending.
pub proof fn lemma_ascending_insert(keys: Seq<Seq<char>>, i: int, key: Seq<char>)
    requires
        ascending(keys),
        is_place(keys, key, i),
    ensures
        ascending(keys.insert(i, key)),
{
    let wider = keys.insert(i, key);
    assert forall|m: int, n: int| 0 <= m < n < wider.len() implies precedes(wider[m], wider[n]) by {
        if n < i {
            assert(precedes(keys[m], keys[n]));
        } else if n == i {
            assert(precedes(keys[m], key));
        } else if m == i {
            if n - 1 > i {
                assert(precedes(keys[i], keys[n - 1]));
                lemma_precedes_transitive(key, keys[i], keys[n - 1]);
            }
        } else if m < i {
            assert(precedes(keys[m], keys[n - 1]));
        } else {
            assert(precedes(keys[m - 1], keys[n - 1]));
        }
    }
}

/// A text that an ascending sequence does not hold has a place in it.
pub proof fn lemma_place_exists(keys: Seq<Seq<char>>, key: Seq<char>)
    requires
        ascending(keys),
        !keys.contains(key),
    ensures
        exists|i: int| is_place(keys, key, i),
    decreases keys.len(),
{
    if keys.len() == 0 {
        assert(is_place(keys, key, 0));
    } else {
        let last = keys.last();
        let n = keys.len() as int;
        assert(keys.contains(last));
        lemma_precedes_total(last, key);
        if precedes(last, key) {
            assert forall|j: int| 0 <= j < n implies precedes(keys[j], key) by {
                if j < n - 1 {
                    assert(precedes(keys[j], keys[n - 1]));
                    lemma_precedes_transitive(keys[j], last, key);
                }
            }
            assert(is_place(keys, key, n));
        } else {
            let front = keys.drop_last();
            assert forall|a: int, b: int| 0 <= a < b < front.len() implies precedes(
                front[a],
                front[b],
            ) by {
                assert(precedes(keys[a], keys[b]));
            }
            if front.contains(key) {
                let j = choose|j: int| 0 <= j < front.len() && front[j] == key;
                assert(keys[j] == key);
            }
            lemma_place_exists(front, key);
            let i = choose|i: int| is_place(front, key, i);
            assert forall|j: int| 0 <= j < i implies precedes(keys[j], key) by {
                assert(precedes(front[j], key));
            }
            if i < front.len() {
                assert(front[i] == keys[i]);
            }
            assert(is_place(keys, key, i));
        }
    }
}

/// Every finite set of texts has an ascending listing, of as many texts as the
/// set has members.
pub proof fn lemma_sorted_keys_exist(names: Set<Seq<char>>)
    requires
        names.finite(),
    ensures
        is_sorted_keys(sorted_keys(names), names),
        sorted_keys(names).len() == names.len(),
    decreases names.len(),
{
    if names.len() == 0 {
        let none = Seq::<Seq<char>>::empty();
        assert(names =~= Set::empty());
        assert(is_sorted_keys(none, names));
    } else {
        let key = names.choose();
        let rest = names.remove(key);
        lemma_sorted_keys_exist(rest);
        let keys = sorted_keys(rest);
        lemma_place_exists(keys, key);
        let i = choose|i: int| is_place(keys, key, i);
        lemma_ascending_insert(keys, i, key);
        let wider = keys.insert(i, key);
        assert forall|k: Seq<char>| wider.contains(k) <==> names.contains(k) by {
            if wider.contains(k) {
                let n = choose|n: int| 0 <= n < wider.len() && wider[n] == k;
                if n < i {
                    assert(keys[n] == k);
                    assert(keys.contains(k));
                } else if n > i {
                    assert(keys[n - 1] == k);
                    assert(keys.contains(k));
                }
            }
            if names.contains(k) {
                if k == key {
                    assert(wider[i] == k);
                } else {
                    assert(rest.contains(k));
                    assert(keys.contains(k));
                    let n = choose|n: int| 0 <= n < keys.len() && keys[n] == k;
                    if n < i {
                        assert(wider[n] == k);
                    } else {
                        assert(wider[n + 1] == k);
                    }
                }
            }
        }
        assert(is_sorted_keys(wider, names));
    }
    let listing = sorted_keys(names);
    lemma_ascending_distinct(listing);
    listing.unique_seq_to_set();
    assert(listing.to_set() =~= names);
}

/// Compares two texts in lexical order.
pub fn compare(a: &str, b: &str) -> (o: Order)
    ensures
        o == Order::Before <==> precedes(a@, b@),
        o == Order::Same <==> a@ == b@,
        o == Order::After <==> precedes(b@, a@),
{
    let mut ia = a.chars();
    let mut ib = b.chars();
    let ghost mut k: int = 0;
    let mut o = Order::Same;
    loop
        invariant_except_break
            ia.remaining() == a@.skip(k),
            ib.remaining() == b@.skip(k),
        invariant
            0 <= k <= a@.len(),
            k <= b@.len(),
            a@.take(k) == b@.take(k),
            ia.decrease() is Some,
        ensures
            o == Order::Before ==> precedes(a@, b@),
            o == Order::Same ==> a@ == b@,
            o == Order::After ==> precedes(b@, a@),
        decreases ia.decrease()->0,
    {
        let x = ia.next();
        let y = ib.next();
        match (x, y) {
            (None, None) => {
                proof {
                    assert(a@ =~= a@.take(k));
                    assert(b@ =~= b@.take(k));
                }
                o = Order::Same;
                break;
            },
            (None, Some(_)) => {
                proof {
                    assert(precedes_at(a@, b@, k));
                }
                o = Order::Before;
                break;
            },
            (Some(_), None) => {
                proof {
                    assert(precedes_at(b@, a@, k));
                }
                o = Order::After;
                break;
            },
            (Some(c), Some(d)) => {
                proof {
                    assert(a@[k] == c);
                    assert(b@[k] == d);
                }
                if c < d {
                    proof {
                        assert(precedes_at(a@, b@, k));
                    }
                    o = Order::Before;
                    break;
                }
                if d < c {
                    proof {
                        assert(precedes_at(b@, a@, k));
                    }
                    o = Order::After;
                    break;
                }
                proof {
                    assert(a@.take(k + 1) =~= a@.take(k).push(c));
                    assert(b@.take(k + 1) =~= b@.take(k).push(d));
                    assert(a@.skip(k).drop_first() =~= a@.skip(k + 1));
                    assert(b@.skip(k).drop_first() =~= b@.skip(k + 1));
                    k = k + 1;
                }
            },
        }
    }
    proof {
        if precedes(a@, b@) {
            lemma_precedes_asymmetric(a@, b@);
        }
        if precedes(b@, a@) {
            lemma_precedes_asymmetric(b@, a@);
        }
    }
    o
}

} // verus!
