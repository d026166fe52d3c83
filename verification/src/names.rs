//! Names and their order.
//!
//! A name is a string; names are ordered as their UTF-8 bytes are, byte by
//! byte, a proper prefix coming first.

use vstd::prelude::*;
use vstd::utf8::{decode_utf8, encode_utf8, encode_utf8_decode_utf8};

verus! {

/// Strict lexicographic order on byte strings.
pub open spec fn bytes_before(a: Seq<u8>, b: Seq<u8>) -> bool
    decreases a.len(),
{
    if b.len() == 0 {
        false
    } else if a.len() == 0 {
        true
    } else if a[0] != b[0] {
        a[0] < b[0]
    } else {
        bytes_before(a.skip(1), b.skip(1))
    }
}

/// Strict order on names: the order of their UTF-8 bytes.
pub open spec fn name_before(a: Seq<char>, b: Seq<char>) -> bool {
    bytes_before(encode_utf8(a), encode_utf8(b))
}

/// A list of names in strictly increasing order.
pub open spec fn sorted(names: Seq<Seq<char>>) -> bool {
    forall|i: int, j: int| 0 <= i < j < names.len() ==> name_before(names[i], names[j])
}

/// No byte string comes before itself.
pub proof fn lemma_bytes_irreflexive(a: Seq<u8>)
    ensures
        !bytes_before(a, a),
    decreases a.len(),
{
    if a.len() > 0 {
        lemma_bytes_irreflexive(a.skip(1));
    }
}

/// The order on byte strings is transitive.
pub proof fn lemma_bytes_transitive(a: Seq<u8>, b: Seq<u8>, c: Seq<u8>)
    requires
        bytes_before(a, b),
        bytes_before(b, c),
    ensures
        bytes_before(a, c),
    decreases a.len(),
{
    if a.len() > 0 && a[0] == b[0] && b[0] == c[0] {
        lemma_bytes_transitive(a.skip(1), b.skip(1), c.skip(1));
    }
}

/// Of two different byte strings one comes before the other.
pub proof fn lemma_bytes_total(a: Seq<u8>, b: Seq<u8>)
    ensures
        a == b || bytes_before(a, b) || bytes_before(b, a),
    decreases a.len(),
{
    if a.len() > 0 && b.len() > 0 && a[0] == b[0] {
        lemma_bytes_total(a.skip(1), b.skip(1));
        if a.skip(1) == b.skip(1) {
            assert(a =~= seq![a[0]] + a.skip(1));
            assert(b =~= seq![b[0]] + b.skip(1));
        }
    } else if a.len() == 0 && b.len() == 0 {
        assert(a =~= b);
    }
}

/// Dropping a common prefix does not change the order of two byte strings.
proof fn lemma_bytes_common_prefix(a: Seq<u8>, b: Seq<u8>, n: int)
    requires
        0 <= n <= a.len(),
        n <= b.len(),
        forall|k: int| 0 <= k < n ==> a[k] == b[k],
    ensures
        bytes_before(a, b) == bytes_before(a.skip(n), b.skip(n)),
    decreases n,
{
    if n == 0 {
        assert(a.skip(0) =~= a);
        assert(b.skip(0) =~= b);
    } else {
        lemma_bytes_common_prefix(a.skip(1), b.skip(1), n - 1);
        assert(a.skip(1).skip(n - 1) =~= a.skip(n));
        assert(b.skip(1).skip(n - 1) =~= b.skip(n));
    }
}

/// Two names with the same UTF-8 bytes are the same name.
pub proof fn lemma_utf8_injective(a: Seq<char>, b: Seq<char>)
    requires
        encode_utf8(a) == encode_utf8(b),
    ensures
        a == b,
{
    encode_utf8_decode_utf8(a);
    encode_utf8_decode_utf8(b);
    assert(decode_utf8(encode_utf8(a)) == a);
    assert(decode_utf8(encode_utf8(b)) == b);
}

/// No name comes before itself.
pub proof fn lemma_name_irreflexive(a: Seq<char>)
    ensures
        !name_before(a, a),
{
    lemma_bytes_irreflexive(encode_utf8(a));
}

/// The order on names is transitive.
pub proof fn lemma_name_transitive(a: Seq<char>, b: Seq<char>, c: Seq<char>)
    requires
        name_before(a, b),
        name_before(b, c),
    ensures
        name_before(a, c),
{
    lemma_bytes_transitive(encode_utf8(a), encode_utf8(b), encode_utf8(c));
}

/// Of two different names one comes before the other.
pub proof fn lemma_name_total(a: Seq<char>, b: Seq<char>)
    ensures
        a == b || name_before(a, b) || name_before(b, a),
{
    lemma_bytes_total(encode_utf8(a), encode_utf8(b));
    if encode_utf8(a) == encode_utf8(b) {
        lemma_utf8_injective(a, b);
    }
}

/// Whether `a` comes strictly before `b`.
pub fn precedes(a: &str, b: &str) -> (r: bool)
    ensures
        r == name_before(a@, b@),
{
    let x = a.as_bytes();
    let y = b.as_bytes();
    let mut i: usize = 0;
    while i < x.len() && i < y.len()
        invariant
            i <= x@.len(),
            i <= y@.len(),
            x@ == encode_utf8(a@),
            y@ == encode_utf8(b@),
            forall|k: int| 0 <= k < i ==> x@[k] == y@[k],
        decreases x@.len() - i,
    {
        if x[i] != y[i] {
            proof {
                lemma_bytes_common_prefix(x@, y@, i as int);
            }
            return x[i] < y[i];
        }
        i += 1;
    }
    proof {
        lemma_bytes_common_prefix(x@, y@, i as int);
    }
    i < y.len()
}

/// Whether `a` and `b` are the same name.
pub fn same_name(a: &str, b: &str) -> (r: bool)
    ensures
        r == (a@ == b@),
{
    let x = a.as_bytes();
    let y = b.as_bytes();
    if x.len() != y.len() {
        return false;
    }
    let mut i: usize = 0;
    while i < x.len()
        invariant
            i <= x@.len(),
            x@.len() == y@.len(),
            x@ == encode_utf8(a@),
            y@ == encode_utf8(b@),
            forall|k: int| 0 <= k < i ==> x@[k] == y@[k],
        decreases x@.len() - i,
    {
        if x[i] != y[i] {
            return false;
        }
        i += 1;
    }
    proof {
        assert(x@ =~= y@);
        lemma_utf8_injective(a@, b@);
    }
    true
}

/// Whether a list of names is in strictly increasing order.
pub fn is_sorted(names: &Vec<String>) -> (r: bool)
    ensures
        r == sorted(names.deep_view()),
{
    let ghost all = names.deep_view();
    let mut i: usize = 1;
    while i < names.len()
        invariant
            1 <= i,
            all == names.deep_view(),
            forall|a: int, b: int| 0 <= a < b < i && b < all.len() ==> name_before(all[a], all[b]),
        decreases names.len() - i,
    {
        assert(all[i - 1] == names[i - 1]@);
        assert(all[i as int] == names[i as int]@);
        if !precedes(names[i - 1].as_str(), names[i].as_str()) {
            return false;
        }
        assert forall|a: int, b: int| 0 <= a < b < i + 1 && b < all.len() implies name_before(
            all[a],
            all[b],
        ) by {
            if b == i && a < i - 1 {
                lemma_name_transitive(all[a], all[i - 1], all[i as int]);
            }
        }
        i += 1;
    }
    true
}

/// Whether `at` is the place of `name` in a sorted list: every name before
/// it comes first, and either the name stands there (`found`) or every name
/// from there on comes after it.
pub open spec fn located(names: Seq<Seq<char>>, name: Seq<char>, at: int, found: bool) -> bool {
    &&& 0 <= at <= names.len()
    &&& forall|k: int| 0 <= k < at ==> name_before(#[trigger] names[k], name)
    &&& if found {
        at < names.len() && names[at] == name
    } else {
        forall|k: int| at <= k < names.len() ==> name_before(name, #[trigger] names[k])
    }
}

/// A name is in a sorted list exactly if it is found at its place, and then
/// at no other position.
pub proof fn lemma_located(names: Seq<Seq<char>>, name: Seq<char>, at: int, found: bool)
    requires
        sorted(names),
        located(names, name, at, found),
    ensures
        names.contains(name) == found,
        found ==> names.index_of(name) == at,
{
    if found {
        assert(names.contains(name));
        lemma_sorted_distinct(names, at, names.index_of(name));
    } else if names.contains(name) {
        let k = choose|k: int| 0 <= k < names.len() && names[k] == name;
        lemma_name_irreflexive(name);
    }
}

/// Looks `name` up in a sorted list. Returns the position at which it stands
/// or would have to be inserted, and whether it is there.
pub fn search(names: &Vec<String>, name: &str) -> (r: (usize, bool))
    requires
        sorted(names.deep_view()),
    ensures
        located(names.deep_view(), name@, r.0 as int, r.1),
{
    let ghost all = names.deep_view();
    let mut lo: usize = 0;
    let mut hi: usize = names.len();
    while lo < hi
        invariant
            lo <= hi <= names.len(),
            all == names.deep_view(),
            sorted(all),
            forall|k: int| 0 <= k < lo ==> name_before(#[trigger] all[k], name@),
            forall|k: int| hi <= k < all.len() ==> !name_before(#[trigger] all[k], name@),
        decreases hi - lo,
    {
        let mid = lo + (hi - lo) / 2;
        assert(all[mid as int] == names[mid as int]@);
        if precedes(names[mid].as_str(), name) {
            assert forall|k: int| 0 <= k < mid + 1 implies name_before(#[trigger] all[k], name@) by {
                if k < mid {
                    lemma_name_transitive(all[k], all[mid as int], name@);
                }
            }
            lo = mid + 1;
        } else {
            assert forall|k: int| mid <= k < all.len() implies !name_before(
                #[trigger] all[k],
                name@,
            ) by {
                if k > mid && name_before(all[k], name@) {
                    lemma_name_transitive(all[mid as int], all[k], name@);
                }
            }
            hi = mid;
        }
    }
    let found = lo < names.len() && same_name(names[lo].as_str(), name);
    proof {
        if !found {
            assert forall|k: int| lo <= k < all.len() implies name_before(name@, #[trigger] all[k]) by {
                lemma_name_total(all[k], name@);
                if all[k] == name@ {
                    assert(k > lo);
                    assert(name_before(all[lo as int], all[k]));
                }
            }
        }
    }
    (lo, found)
}

/// Putting a name into a sorted list at the place `search` reports keeps the
/// list sorted.
pub proof fn lemma_insert_sorted(names: Seq<Seq<char>>, at: int, name: Seq<char>)
    requires
        sorted(names),
        located(names, name, at, false),
    ensures
        sorted(names.insert(at, name)),
{
    let out = names.insert(at, name);
    assert forall|i: int, j: int| 0 <= i < j < out.len() implies name_before(out[i], out[j]) by {
        if i < at && j > at {
            assert(out[i] == names[i]);
            assert(out[j] == names[j - 1]);
        } else if i > at {
            assert(out[i] == names[i - 1]);
            assert(out[j] == names[j - 1]);
        }
    }
}

/// In a sorted list every name stands at one position only.
pub proof fn lemma_sorted_distinct(names: Seq<Seq<char>>, i: int, j: int)
    requires
        sorted(names),
        0 <= i < names.len(),
        0 <= j < names.len(),
        names[i] == names[j],
    ensures
        i == j,
{
    lemma_name_irreflexive(names[i]);
}

/// Two sorted lists that hold the same names are the same list.
pub proof fn lemma_sorted_unique(a: Seq<Seq<char>>, b: Seq<Seq<char>>)
    requires
        sorted(a),
        sorted(b),
        forall|x: Seq<char>| a.contains(x) <==> b.contains(x),
    ensures
        a == b,
    decreases a.len(),
{
    if a.len() == 0 {
        if b.len() > 0 {
            assert(b.contains(b[0]));
        }
        assert(a =~= b);
    } else if b.len() == 0 {
        assert(a.contains(a[0]));
    } else {
        assert(a.contains(a[0]));
        assert(b.contains(b[0]));
        let k = choose|k: int| 0 <= k < b.len() && b[k] == a[0];
        let m = choose|m: int| 0 <= m < a.len() && a[m] == b[0];
        if k > 0 {
            // b[0] < b[k] == a[0] <= a[m] == b[0]
            if m > 0 {
                lemma_name_transitive(b[0], a[0], a[m]);
            }
            lemma_name_irreflexive(b[0]);
        }
        assert(a[0] == b[0]);
        let ta = a.skip(1);
        let tb = b.skip(1);
        assert forall|x: Seq<char>| ta.contains(x) <==> tb.contains(x) by {
            if ta.contains(x) {
                let i = choose|i: int| 0 <= i < ta.len() && ta[i] == x;
                assert(a[i + 1] == x);
                assert(a.contains(x));
                let j = choose|j: int| 0 <= j < b.len() && b[j] == x;
                if j == 0 {
                    lemma_name_irreflexive(a[0]);
                }
                assert(tb[j - 1] == x);
            }
            if tb.contains(x) {
                let i = choose|i: int| 0 <= i < tb.len() && tb[i] == x;
                assert(b[i + 1] == x);
                assert(b.contains(x));
                let j = choose|j: int| 0 <= j < a.len() && a[j] == x;
                if j == 0 {
                    lemma_name_irreflexive(b[0]);
                }
                assert(ta[j - 1] == x);
            }
        }
        assert(sorted(ta)) by {
            assert forall|i: int, j: int| 0 <= i < j < ta.len() implies name_before(
                ta[i],
                ta[j],
            ) by {
                assert(name_before(a[i + 1], a[j + 1]));
            }
        }
        assert(sorted(tb)) by {
            assert forall|i: int, j: int| 0 <= i < j < tb.len() implies name_before(
                tb[i],
                tb[j],
            ) by {
                assert(name_before(b[i + 1], b[j + 1]));
            }
        }
        lemma_sorted_unique(ta, tb);
        assert(a =~= seq![a[0]] + ta);
        assert(b =~= seq![b[0]] + tb);
    }
}

/// The map that takes each of `names` to the value at its position.
pub open spec fn keyed<V>(names: Seq<Seq<char>>, values: Seq<V>) -> Map<Seq<char>, V> {
    Map::new(|name: Seq<char>| names.contains(name), |name: Seq<char>| values[names.index_of(name)])
}

/// Under sorted names, `keyed` takes the name at a position to the value there.
pub proof fn lemma_keyed_at<V>(names: Seq<Seq<char>>, values: Seq<V>, i: int)
    requires
        sorted(names),
        0 <= i < names.len(),
    ensures
        keyed(names, values).contains_key(names[i]),
        keyed(names, values)[names[i]] == values[i],
{
    assert(names.contains(names[i]));
    lemma_sorted_distinct(names, i, names.index_of(names[i]));
}

/// Putting a new name and its value at the place `search` reports adds one
/// pair to the map and keeps the names sorted.
pub proof fn lemma_keyed_insert<V>(
    names: Seq<Seq<char>>,
    values: Seq<V>,
    at: int,
    name: Seq<char>,
    value: V,
)
    requires
        sorted(names),
        names.len() == values.len(),
        located(names, name, at, false),
    ensures
        sorted(names.insert(at, name)),
        keyed(names.insert(at, name), values.insert(at, value)) == keyed(names, values).insert(
            name,
            value,
        ),
{
    lemma_insert_sorted(names, at, name);
    let names2 = names.insert(at, name);
    let values2 = values.insert(at, value);
    let before = keyed(names, values);
    let after = keyed(names2, values2);
    assert forall|x: Seq<char>| after.contains_key(x) <==> before.insert(name, value).contains_key(
        x,
    ) by {
        if names2.contains(x) {
            let k = choose|k: int| 0 <= k < names2.len() && names2[k] == x;
            if k < at {
                assert(names[k] == x);
            } else if k > at {
                assert(names[k - 1] == x);
            }
        }
        if names.contains(x) {
            let k = choose|k: int| 0 <= k < names.len() && names[k] == x;
            if k < at {
                assert(names2[k] == x);
            } else {
                assert(names2[k + 1] == x);
            }
        }
        if x == name {
            assert(names2[at] == x);
        }
    }
    assert forall|x: Seq<char>| after.contains_key(x) implies after[x] == before.insert(
        name,
        value,
    )[x] by {
        let k = choose|k: int| 0 <= k < names2.len() && names2[k] == x;
        lemma_keyed_at(names2, values2, k);
        if k < at {
            lemma_keyed_at(names, values, k);
            lemma_name_irreflexive(name);
        } else if k > at {
            lemma_keyed_at(names, values, k - 1);
            lemma_name_irreflexive(name);
        }
    }
    assert(after =~= before.insert(name, value));
}

/// Replacing the value at a position replaces the value of the name there.
pub proof fn lemma_keyed_update<V>(names: Seq<Seq<char>>, values: Seq<V>, at: int, value: V)
    requires
        sorted(names),
        names.len() == values.len(),
        0 <= at < names.len(),
    ensures
        keyed(names, values.update(at, value)) == keyed(names, values).insert(names[at], value),
{
    let values2 = values.update(at, value);
    let before = keyed(names, values);
    let after = keyed(names, values2);
    assert(names.contains(names[at]));
    assert forall|x: Seq<char>| after.contains_key(x) implies after[x] == before.insert(
        names[at],
        value,
    )[x] by {
        let k = choose|k: int| 0 <= k < names.len() && names[k] == x;
        lemma_keyed_at(names, values2, k);
        lemma_keyed_at(names, values, k);
        if k != at && x == names[at] {
            lemma_sorted_distinct(names, k, at);
        }
    }
    assert(after =~= before.insert(names[at], value));
}

} // verus!
