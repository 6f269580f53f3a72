//! Stable insertion order by an integer key: the mathematical model of a
//! stable sort, with the facts that make it one.
use vstd::prelude::*;

verus! {

/// Inserts `x` into `s` after every trailing element whose key exceeds the key of `x`:
/// the element lands after all earlier elements with a key not above its own.
pub open spec fn insert_by<T>(s: Seq<T>, x: T, key: spec_fn(T) -> int) -> Seq<T>
    decreases s.len(),
{
    if s.len() == 0 || key(s.last()) <= key(x) {
        s.push(x)
    } else {
        insert_by(s.drop_last(), x, key).push(s.last())
    }
}

/// The stable sort of `s` by `key`: elements in nondecreasing key order, ties in input order.
pub open spec fn sort_by_key<T>(s: Seq<T>, key: spec_fn(T) -> int) -> Seq<T>
    decreases s.len(),
{
    if s.len() == 0 {
        s
    } else {
        insert_by(sort_by_key(s.drop_last(), key), s.last(), key)
    }
}

/// Keys never decrease along `s`.
pub open spec fn sorted_by<T>(s: Seq<T>, key: spec_fn(T) -> int) -> bool {
    forall|i: int, j: int| 0 <= i < j < s.len() ==> key(#[trigger] s[i]) <= key(#[trigger] s[j])
}

/// Where the insertion puts `x`: every element from `j` on has a larger key,
/// and the one just before `j`, if any, does not.
pub open spec fn insertion_point<T>(s: Seq<T>, x: T, key: spec_fn(T) -> int, j: int) -> bool {
    &&& 0 <= j <= s.len()
    &&& forall|k: int| j <= k < s.len() ==> key(#[trigger] s[k]) > key(x)
    &&& (j > 0 ==> key(s[j - 1]) <= key(x))
}

/// Inserting at the insertion point is a plain splice.
pub proof fn lemma_insert_by_splice<T>(s: Seq<T>, x: T, key: spec_fn(T) -> int, j: int)
    requires
        insertion_point(s, x, key, j),
    ensures
        insert_by(s, x, key) == s.take(j).push(x) + s.skip(j),
    decreases s.len(),
{
    if s.len() == 0 {
        assert(s.take(j).push(x) + s.skip(j) =~= s.push(x));
    } else if key(s.last()) <= key(x) {
        assert(j == s.len());
        assert(s.take(j).push(x) + s.skip(j) =~= s.push(x));
    } else {
        let t = s.drop_last();
        assert(j < s.len());
        assert(insertion_point(t, x, key, j)) by {
            assert forall|k: int| j <= k < t.len() implies key(#[trigger] t[k]) > key(x) by {
                assert(t[k] == s[k]);
            }
        }
        lemma_insert_by_splice(t, x, key, j);
        assert(t.take(j).push(x) + t.skip(j) + seq![s.last()] =~= s.take(j).push(x) + s.skip(j));
    }
}

/// Insertion keeps a sorted sequence sorted and adds exactly one element.
pub proof fn lemma_insert_by_sorted<T>(s: Seq<T>, x: T, key: spec_fn(T) -> int)
    requires
        sorted_by(s, key),
    ensures
        sorted_by(insert_by(s, x, key), key),
        insert_by(s, x, key).to_multiset() == s.to_multiset().insert(x),
        insert_by(s, x, key).len() == s.len() + 1,
    decreases s.len(),
{
    broadcast use vstd::seq_lib::group_to_multiset_ensures;
    if s.len() == 0 || key(s.last()) <= key(x) {
        let r = s.push(x);
        assert forall|i: int, j: int| 0 <= i < j < r.len() implies key(#[trigger] r[i]) <= key(
            #[trigger] r[j],
        ) by {
            if j == s.len() as int {
                if i < s.len() - 1 {
                    assert(key(s[i]) <= key(s[s.len() - 1]));
                }
            }
        }
    } else {
        let t = s.drop_last();
        assert(sorted_by(t, key)) by {
            assert forall|i: int, j: int| 0 <= i < j < t.len() implies key(#[trigger] t[i]) <= key(
                #[trigger] t[j],
            ) by {
                assert(t[i] == s[i] && t[j] == s[j]);
            }
        }
        lemma_insert_by_sorted(t, x, key);
        let u = insert_by(t, x, key);
        let r = u.push(s.last());
        lemma_insert_by_members(t, x, key);
        assert forall|i: int, j: int| 0 <= i < j < r.len() implies key(#[trigger] r[i]) <= key(
            #[trigger] r[j],
        ) by {
            if j == u.len() as int {
                // every member of u is x or an element of t, all at most the last key
                let m = u[i];
                assert(u.contains(m));
                if m != x {
                    let k = choose|k: int| 0 <= k < t.len() && t[k] == m;
                    assert(key(s[k]) <= key(s[s.len() - 1]));
                }
            }
        }
        assert(s == t.push(s.last()));
    }
}

/// Every member of an insertion is the inserted element or a member of the original.
pub proof fn lemma_insert_by_members<T>(s: Seq<T>, x: T, key: spec_fn(T) -> int)
    ensures
        forall|m: T| #[trigger] insert_by(s, x, key).contains(m) ==> m == x || s.contains(m),
    decreases s.len(),
{
    if s.len() == 0 || key(s.last()) <= key(x) {
        assert forall|m: T| #[trigger] insert_by(s, x, key).contains(m) implies m == x
            || s.contains(m) by {
            let r = s.push(x);
            let k = choose|k: int| 0 <= k < r.len() && r[k] == m;
            if k < s.len() {
                assert(s[k] == m);
            }
        }
    } else {
        let t = s.drop_last();
        lemma_insert_by_members(t, x, key);
        assert forall|m: T| #[trigger] insert_by(s, x, key).contains(m) implies m == x
            || s.contains(m) by {
            let u = insert_by(t, x, key);
            let r = u.push(s.last());
            let k = choose|k: int| 0 <= k < r.len() && r[k] == m;
            if k < u.len() {
                assert(u.contains(m));
                if m != x {
                    let k2 = choose|k2: int| 0 <= k2 < t.len() && t[k2] == m;
                    assert(s[k2] == m);
                }
            } else {
                assert(s[s.len() - 1] == m);
            }
        }
    }
}

/// The stable sort is ordered by the key and holds the same elements as its input.
pub proof fn lemma_sort_by_key_sorted<T>(s: Seq<T>, key: spec_fn(T) -> int)
    ensures
        sorted_by(sort_by_key(s, key), key),
        sort_by_key(s, key).to_multiset() == s.to_multiset(),
        sort_by_key(s, key).len() == s.len(),
    decreases s.len(),
{
    broadcast use vstd::seq_lib::group_to_multiset_ensures;
    if s.len() > 0 {
        let t = s.drop_last();
        lemma_sort_by_key_sorted(t, key);
        lemma_insert_by_sorted(sort_by_key(t, key), s.last(), key);
        assert(s == t.push(s.last()));
    }
}


/// Every element of the sorted sequence comes from the input.
pub proof fn lemma_sorted_member<T>(s: Seq<T>, key: spec_fn(T) -> int, k: int)
    requires
        0 <= k < sort_by_key(s, key).len(),
    ensures
        s.contains(sort_by_key(s, key)[k]),
{
    broadcast use vstd::seq_lib::group_to_multiset_ensures;
    lemma_sort_by_key_sorted(s, key);
    let t = sort_by_key(s, key);
    assert(t.to_multiset().count(t[k]) > 0);
}


/// Rearranging a sequence rearranges its image under any map.
pub proof fn lemma_map_preserves_permutation<A, B>(a: Seq<A>, b: Seq<A>, f: spec_fn(A) -> B)
    requires
        a.to_multiset() == b.to_multiset(),
    ensures
        a.map_values(f).to_multiset() == b.map_values(f).to_multiset(),
    decreases a.len(),
{
    broadcast use vstd::seq_lib::group_to_multiset_ensures;
    broadcast use vstd::seq_lib::to_multiset_remove;
    broadcast use vstd::seq_lib::to_multiset_len;
    if a.len() == 0 {
        vstd::seq_lib::to_multiset_len(a);
        vstd::seq_lib::to_multiset_len(b);
        assert(b.len() == 0);
        assert(a.map_values(f) =~= b.map_values(f));
    } else {
        let x = a.last();
        let a1 = a.drop_last();
        assert(a == a1.push(x));
        assert(a.to_multiset().count(x) > 0);
        assert(b.contains(x));
        let i = choose|i: int| 0 <= i < b.len() && b[i] == x;
        let b1 = b.remove(i);
        assert(b1.to_multiset() == b.to_multiset().remove(x));
        assert(a1.to_multiset() == a.to_multiset().remove(x));
        lemma_map_preserves_permutation(a1, b1, f);
        assert(a.map_values(f) =~= a1.map_values(f).push(f(x)));
        assert(b.map_values(f).remove(i) =~= b1.map_values(f));
        assert(b.map_values(f)[i] == f(x));
        assert(b.map_values(f).remove(i).to_multiset() == b.map_values(f).to_multiset().remove(
            f(x),
        ));
        assert(b.map_values(f).to_multiset().count(f(x)) > 0) by {
            assert(b.map_values(f).contains(f(x)));
        }
    }
}


/// Whether an element's key is `v`.
pub open spec fn has_key<T>(key: spec_fn(T) -> int, v: int) -> spec_fn(T) -> bool {
    |x: T| key(x) == v
}

/// The elements of `s` whose key is `v`, in their order in `s`.
pub open spec fn key_class<T>(s: Seq<T>, key: spec_fn(T) -> int, v: int) -> Seq<T> {
    s.filter(has_key(key, v))
}

/// `p` holds only of elements that share one key.
pub open spec fn within_one_key<T>(p: spec_fn(T) -> bool, key: spec_fn(T) -> int) -> bool {
    forall|a: T, b: T| #[trigger] p(a) && #[trigger] p(b) ==> key(a) == key(b)
}

proof fn lemma_sorted_drop_last<T>(s: Seq<T>, key: spec_fn(T) -> int)
    requires
        sorted_by(s, key),
        s.len() > 0,
    ensures
        sorted_by(s.drop_last(), key),
        forall|i: int| 0 <= i < s.len() ==> key(#[trigger] s[i]) <= key(s.last()),
{
    let t = s.drop_last();
    assert forall|i: int, j: int| 0 <= i < j < t.len() implies key(#[trigger] t[i]) <= key(
        #[trigger] t[j],
    ) by {
        assert(t[i] == s[i] && t[j] == s[j]);
    }
    assert forall|i: int| 0 <= i < s.len() implies key(#[trigger] s[i]) <= key(s.last()) by {
        if i < s.len() - 1 {
            assert(key(s[i]) <= key(s[s.len() - 1]));
        }
    }
}

/// Insertion adds `x` after every element it shares a key with.
proof fn lemma_insert_by_filter<T>(s: Seq<T>, x: T, key: spec_fn(T) -> int, p: spec_fn(T) -> bool)
    requires
        within_one_key(p, key),
    ensures
        insert_by(s, x, key).filter(p) == if p(x) {
            s.filter(p).push(x)
        } else {
            s.filter(p)
        },
    decreases s.len(),
{
    if s.len() == 0 || key(s.last()) <= key(x) {
        s.lemma_filter_push(x, p);
    } else {
        let t = s.drop_last();
        let y = s.last();
        lemma_insert_by_filter(t, x, key, p);
        insert_by(t, x, key).lemma_filter_push(y, p);
        t.lemma_filter_push(y, p);
        assert(s == t.push(y));
        if p(x) && p(y) {
            assert(key(x) == key(y));
        }
    }
}

/// Sorting keeps, for elements of one key, the order they had.
pub proof fn lemma_sort_filter<T>(s: Seq<T>, key: spec_fn(T) -> int, p: spec_fn(T) -> bool)
    requires
        within_one_key(p, key),
    ensures
        sort_by_key(s, key).filter(p) == s.filter(p),
    decreases s.len(),
{
    if s.len() > 0 {
        let t = s.drop_last();
        lemma_sort_filter(t, key, p);
        lemma_insert_by_filter(sort_by_key(t, key), s.last(), key, p);
        t.lemma_filter_push(s.last(), p);
        assert(s == t.push(s.last()));
    }
}

/// A subsequence of a sorted sequence is sorted.
pub proof fn lemma_filter_sorted<T>(s: Seq<T>, key: spec_fn(T) -> int, p: spec_fn(T) -> bool)
    requires
        sorted_by(s, key),
    ensures
        sorted_by(s.filter(p), key),
    decreases s.len(),
{
    if s.len() == 0 {
        s.lemma_filter_len(p);
    } else {
        let t = s.drop_last();
        let x = s.last();
        assert(s == t.push(x));
        lemma_sorted_drop_last(s, key);
        lemma_filter_sorted(t, key, p);
        t.lemma_filter_push(x, p);
        if p(x) {
            let f = t.filter(p);
            let r = f.push(x);
            assert forall|i: int, j: int| 0 <= i < j < r.len() implies key(#[trigger] r[i]) <= key(
                #[trigger] r[j],
            ) by {
                if j == f.len() {
                    assert(f.contains(f[i]));
                    t.lemma_filter_contains_rev(p, f[i]);
                    let k = choose|k: int| 0 <= k < t.len() && t[k] == f[i];
                    assert(s[k] == t[k]);
                } else {
                    assert(r[i] == f[i] && r[j] == f[j]);
                }
            }
        }
    }
}

/// Whether both conditions hold.
pub open spec fn both<T>(p: spec_fn(T) -> bool, q: spec_fn(T) -> bool) -> spec_fn(T) -> bool {
    |x: T| p(x) && q(x)
}

/// Filtering twice is filtering by both conditions.
pub proof fn lemma_filter_filter<T>(s: Seq<T>, p: spec_fn(T) -> bool, q: spec_fn(T) -> bool)
    ensures
        s.filter(p).filter(q) == s.filter(both(p, q)),
    decreases s.len(),
{
    let pq = both(p, q);
    if s.len() == 0 {
        s.lemma_filter_len(p);
        s.lemma_filter_len(pq);
        s.filter(p).lemma_filter_len(q);
        assert(s.filter(p).filter(q) =~= s.filter(pq));
    } else {
        let t = s.drop_last();
        let x = s.last();
        assert(s == t.push(x));
        lemma_filter_filter(t, p, q);
        t.lemma_filter_push(x, p);
        t.lemma_filter_push(x, pq);
        t.filter(p).lemma_filter_push(x, q);
    }
}

/// Two sorted sequences with the same elements of each key, in the same order, are equal.
pub proof fn lemma_sorted_unique<T>(a: Seq<T>, b: Seq<T>, key: spec_fn(T) -> int)
    requires
        sorted_by(a, key),
        sorted_by(b, key),
        forall|v: int| #[trigger] key_class(a, key, v) == key_class(b, key, v),
    ensures
        a == b,
    decreases a.len() + b.len(),
{
    if a.len() == 0 && b.len() == 0 {
        assert(a =~= b);
    } else if a.len() == 0 || b.len() == 0 {
        let (e, n) = if a.len() == 0 { (b, a) } else { (a, b) };
        let y = e.last();
        let v = key(y);
        e.drop_last().lemma_filter_push(y, has_key(key, v));
        assert(e == e.drop_last().push(y));
        n.lemma_filter_len(has_key(key, v));
        assert(key_class(a, key, v) == key_class(b, key, v));
    } else {
        let x = a.last();
        let y = b.last();
        let a1 = a.drop_last();
        let b1 = b.drop_last();
        assert(a == a1.push(x));
        assert(b == b1.push(y));
        lemma_sorted_drop_last(a, key);
        lemma_sorted_drop_last(b, key);
        a1.lemma_filter_push(x, has_key(key, key(x)));
        b1.lemma_filter_push(y, has_key(key, key(y)));
        a1.lemma_filter_push(y, has_key(key, key(y)));
        b1.lemma_filter_push(x, has_key(key, key(x)));
        // the largest key of each is found in the other
        assert(key(x) <= key(y)) by {
            let c = key_class(b, key, key(x));
            assert(key_class(a, key, key(x)) == c);
            let z = c.last();
            assert(c.contains(z));
            b.lemma_filter_contains_rev(has_key(key, key(x)), z);
            b.lemma_filter_pred(has_key(key, key(x)), c.len() - 1);
        }
        assert(key(y) <= key(x)) by {
            let c = key_class(a, key, key(y));
            assert(key_class(b, key, key(y)) == c);
            let z = c.last();
            assert(c.contains(z));
            a.lemma_filter_contains_rev(has_key(key, key(y)), z);
            a.lemma_filter_pred(has_key(key, key(y)), c.len() - 1);
        }
        assert(key(x) == key(y));
        assert(has_key(key, key(x))(x));
        assert(key_class(a, key, key(x)) == key_class(a1, key, key(x)).push(x));
        assert(key_class(b, key, key(x)) == key_class(b1, key, key(x)).push(y));
        assert(key_class(a, key, key(x)) == key_class(b, key, key(x)));
        assert(key_class(a, key, key(x)).last() == x);
        assert(x == y);
        assert forall|v: int| #[trigger] key_class(a1, key, v) == key_class(b1, key, v) by {
            a1.lemma_filter_push(x, has_key(key, v));
            b1.lemma_filter_push(y, has_key(key, v));
            assert(key_class(a, key, v) == key_class(b, key, v));
            if key(x) == v {
                assert(key_class(a1, key, v) == key_class(a, key, v).drop_last());
                assert(key_class(b1, key, v) == key_class(b, key, v).drop_last());
            }
        }
        lemma_sorted_unique(a1, b1, key);
    }
}

/// Under a map that leaves the key unchanged, sorting and mapping commute.
pub proof fn lemma_sort_map<T>(s: Seq<T>, key: spec_fn(T) -> int, f: spec_fn(T) -> T)
    requires
        forall|g: T| key(#[trigger] f(g)) == key(g),
    ensures
        sort_by_key(s.map_values(f), key) == sort_by_key(s, key).map_values(f),
    decreases s.len(),
{
    if s.len() > 0 {
        let t = s.drop_last();
        assert(s.map_values(f).drop_last() =~= t.map_values(f));
        lemma_sort_map(t, key, f);
        lemma_insert_by_map(sort_by_key(t, key), s.last(), key, f);
    }
}

proof fn lemma_insert_by_map<T>(s: Seq<T>, x: T, key: spec_fn(T) -> int, f: spec_fn(T) -> T)
    requires
        forall|g: T| key(#[trigger] f(g)) == key(g),
    ensures
        insert_by(s.map_values(f), f(x), key) == insert_by(s, x, key).map_values(f),
    decreases s.len(),
{
    let m = s.map_values(f);
    if s.len() == 0 || key(s.last()) <= key(x) {
        assert(s.len() > 0 ==> m.last() == f(s.last()));
        assert(m.push(f(x)) =~= s.push(x).map_values(f));
    } else {
        let t = s.drop_last();
        assert(m.last() == f(s.last()));
        assert(m.drop_last() =~= t.map_values(f));
        lemma_insert_by_map(t, x, key, f);
        assert(insert_by(t, x, key).push(s.last()).map_values(f) =~= insert_by(t, x, key).map_values(
            f,
        ).push(f(s.last())));
    }
}

/// Two sorted sequences with the same elements are equal, when the key tells elements apart.
pub proof fn lemma_sorted_permutation_unique<T>(a: Seq<T>, b: Seq<T>, key: spec_fn(T) -> int)
    requires
        sorted_by(a, key),
        sorted_by(b, key),
        a.to_multiset() == b.to_multiset(),
        forall|x: T, y: T| #[trigger] key(x) == #[trigger] key(y) ==> x == y,
    ensures
        a == b,
    decreases a.len(),
{
    broadcast use vstd::seq_lib::group_to_multiset_ensures;
    broadcast use vstd::multiset::group_multiset_axioms;
    if a.len() == 0 || b.len() == 0 {
        vstd::seq_lib::to_multiset_len(a);
        vstd::seq_lib::to_multiset_len(b);
        assert(a =~= b);
    } else {
        let x = a.last();
        let y = b.last();
        let a1 = a.drop_last();
        let b1 = b.drop_last();
        assert(a == a1.push(x));
        assert(b == b1.push(y));
        lemma_sorted_drop_last(a, key);
        lemma_sorted_drop_last(b, key);
        assert(a.contains(x)) by {
            assert(a[a.len() - 1] == x);
        }
        assert(b.contains(y)) by {
            assert(b[b.len() - 1] == y);
        }
        assert(a.to_multiset().count(x) > 0);
        assert(b.to_multiset().count(y) > 0);
        assert(b.contains(x));
        assert(a.contains(y));
        let k = choose|k: int| 0 <= k < b.len() && b[k] == x;
        let j = choose|j: int| 0 <= j < a.len() && a[j] == y;
        assert(key(b[k]) <= key(y));
        assert(key(a[j]) <= key(x));
        assert(x == y);
        assert(a1.to_multiset() =~= b1.to_multiset()) by {
            assert(a1.push(x).to_multiset() == a1.to_multiset().insert(x));
            assert(b1.push(y).to_multiset() == b1.to_multiset().insert(y));
            assert forall|e: T| a1.to_multiset().count(e) == b1.to_multiset().count(e) by {
                assert(a1.to_multiset().insert(x).count(e) == b1.to_multiset().insert(x).count(e));
            }
        }
        lemma_sorted_permutation_unique(a1, b1, key);
    }
}

} // verus!
