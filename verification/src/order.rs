//! Stable sorting by an integer key, and sets of numbers in ascending order.

use vstd::prelude::*;

verus! {

/// A value with a sort key.
pub trait Keyed: Copy {
    /// The sort key.
    spec fn sort_key(self) -> u32;

    /// The sort key.
    fn key(&self) -> (key: u32)
        ensures
            key == self.sort_key(),
    ;
}

impl Keyed for u32 {
    open spec fn sort_key(self) -> u32 {
        self
    }

    fn key(&self) -> (key: u32) {
        *self
    }
}

/// The keys do not descend.
pub open spec fn sorted<T: Keyed>(s: Seq<T>) -> bool {
    forall|i: int, j: int|
        0 <= i <= j < s.len() ==> (#[trigger] s[i]).sort_key() <= (#[trigger] s[j]).sort_key()
}

/// The elements of `s` with the given key, in their order in `s`.
pub open spec fn with_key<T: Keyed>(s: Seq<T>, key: u32) -> Seq<T>
    decreases s.len(),
{
    if s.len() == 0 {
        Seq::empty()
    } else if s.last().sort_key() == key {
        with_key(s.drop_last(), key).push(s.last())
    } else {
        with_key(s.drop_last(), key)
    }
}

/// `s` with `x` placed behind the last element whose key is not larger.
pub open spec fn insert_sorted<T: Keyed>(s: Seq<T>, x: T) -> Seq<T>
    decreases s.len(),
{
    if s.len() == 0 || s.last().sort_key() <= x.sort_key() {
        s.push(x)
    } else {
        insert_sorted(s.drop_last(), x).push(s.last())
    }
}

/// The elements of `s` by ascending key; elements with equal keys keep their order.
pub open spec fn stable_sort<T: Keyed>(s: Seq<T>) -> Seq<T>
    decreases s.len(),
{
    if s.len() == 0 {
        Seq::empty()
    } else {
        insert_sorted(stable_sort(s.drop_last()), s.last())
    }
}

proof fn lemma_with_key_push<T: Keyed>(s: Seq<T>, x: T, key: u32)
    ensures
        with_key(s.push(x), key) == (if x.sort_key() == key {
            with_key(s, key).push(x)
        } else {
            with_key(s, key)
        }),
{
    assert(s.push(x).drop_last() =~= s);
}

proof fn lemma_with_key_add<T: Keyed>(a: Seq<T>, b: Seq<T>, key: u32)
    ensures
        with_key(a + b, key) == with_key(a, key) + with_key(b, key),
    decreases b.len(),
{
    if b.len() == 0 {
        assert(a + b =~= a);
        assert(with_key(a, key) + with_key(b, key) =~= with_key(a, key));
    } else {
        assert((a + b).drop_last() =~= a + b.drop_last());
        assert((a + b).last() == b.last());
        lemma_with_key_add(a, b.drop_last(), key);
        assert(with_key(a + b, key) =~= with_key(a, key) + with_key(b, key));
    }
}

/// Elements without the key contribute nothing.
proof fn lemma_with_key_empty<T: Keyed>(s: Seq<T>, key: u32)
    requires
        forall|i: int| 0 <= i < s.len() ==> (#[trigger] s[i]).sort_key() != key,
    ensures
        with_key(s, key) == Seq::<T>::empty(),
    decreases s.len(),
{
    if s.len() > 0 {
        assert(s[s.len() - 1].sort_key() != key);
        assert forall|i: int| 0 <= i < s.len() - 1 implies (
        #[trigger] s.drop_last()[i]).sort_key() != key by {
            assert(s[i].sort_key() != key);
        }
        lemma_with_key_empty(s.drop_last(), key);
    }
}

/// An element with the key shows.
proof fn lemma_with_key_nonempty<T: Keyed>(s: Seq<T>, key: u32) -> (i: int)
    requires
        with_key(s, key).len() > 0,
    ensures
        0 <= i < s.len(),
        s[i].sort_key() == key,
    decreases s.len(),
{
    if s.last().sort_key() == key {
        s.len() - 1
    } else {
        lemma_with_key_nonempty(s.drop_last(), key)
    }
}

/// Sorted sequences that agree on the elements of each key are equal.
proof fn lemma_sorted_unique<T: Keyed>(a: Seq<T>, b: Seq<T>)
    requires
        sorted(a),
        sorted(b),
        forall|key: u32| #[trigger] with_key(a, key) == with_key(b, key),
    ensures
        a == b,
    decreases a.len() + b.len(),
{
    if a.len() == 0 {
        if b.len() > 0 {
            assert(with_key(a, b.last().sort_key()) == with_key(b, b.last().sort_key()));
        }
        assert(a =~= b);
    } else if b.len() == 0 {
        assert(with_key(a, a.last().sort_key()) == with_key(b, a.last().sort_key()));
    } else {
        let ka = a.last().sort_key();
        let kb = b.last().sort_key();
        assert(with_key(a, ka) == with_key(b, ka));
        assert(with_key(a, kb) == with_key(b, kb));
        let i = lemma_with_key_nonempty(b, ka);
        let j = lemma_with_key_nonempty(a, kb);
        assert(b[i].sort_key() <= b[b.len() - 1].sort_key());
        assert(a[j].sort_key() <= a[a.len() - 1].sort_key());
        assert(ka == kb);
        assert(with_key(a, ka).last() == a.last());
        assert(with_key(b, ka).last() == b.last());
        let ra = a.drop_last();
        let rb = b.drop_last();
        assert forall|key: u32| #[trigger] with_key(ra, key) == with_key(rb, key) by {
            assert(with_key(a, key) == with_key(b, key));
            if key == ka {
                assert(with_key(a, key).drop_last() =~= with_key(ra, key));
                assert(with_key(b, key).drop_last() =~= with_key(rb, key));
            }
        }
        assert(sorted(ra)) by {
            assert forall|i: int, j: int| 0 <= i <= j < ra.len() implies (
            #[trigger] ra[i]).sort_key() <= (#[trigger] ra[j]).sort_key() by {
                assert(a[i].sort_key() <= a[j].sort_key());
            }
        }
        assert(sorted(rb)) by {
            assert forall|i: int, j: int| 0 <= i <= j < rb.len() implies (
            #[trigger] rb[i]).sort_key() <= (#[trigger] rb[j]).sort_key() by {
                assert(b[i].sort_key() <= b[j].sort_key());
            }
        }
        lemma_sorted_unique(ra, rb);
        assert(a =~= ra.push(a.last()));
        assert(b =~= rb.push(b.last()));
    }
}

proof fn lemma_insert_sorted<T: Keyed>(s: Seq<T>, x: T)
    requires
        sorted(s),
    ensures
        sorted(insert_sorted(s, x)),
        insert_sorted(s, x).to_multiset() == s.to_multiset().insert(x),
        forall|key: u32| #[trigger]
            with_key(insert_sorted(s, x), key) == with_key(s.push(x), key),
    decreases s.len(),
{
    broadcast use vstd::seq_lib::group_to_multiset_ensures;

    let r = insert_sorted(s, x);
    if s.len() == 0 || s.last().sort_key() <= x.sort_key() {
        assert forall|i: int, j: int| 0 <= i <= j < r.len() implies (#[trigger] r[i]).sort_key()
            <= (#[trigger] r[j]).sort_key() by {
            if j == s.len() && i < s.len() {
                assert(s[i].sort_key() <= s[s.len() - 1].sort_key());
            }
        }
    } else {
        let rest = s.drop_last();
        let last = s.last();
        assert(sorted(rest)) by {
            assert forall|i: int, j: int| 0 <= i <= j < rest.len() implies (
            #[trigger] rest[i]).sort_key() <= (#[trigger] rest[j]).sort_key() by {
                assert(s[i].sort_key() <= s[j].sort_key());
            }
        }
        lemma_insert_sorted(rest, x);
        let inner = insert_sorted(rest, x);
        assert(s =~= rest.push(last));
        assert(r.to_multiset() =~= s.to_multiset().insert(x));
        assert forall|i: int, j: int| 0 <= i <= j < r.len() implies (#[trigger] r[i]).sort_key()
            <= (#[trigger] r[j]).sort_key() by {
            if j == inner.len() && i < inner.len() {
                assert(inner.contains(inner[i]));
                assert(inner.to_multiset().count(inner[i]) > 0);
                assert(inner[i] == x || rest.to_multiset().count(inner[i]) > 0);
                if inner[i] != x {
                    assert(rest.contains(inner[i]));
                    let k = choose|k: int| 0 <= k < rest.len() && rest[k] == inner[i];
                    assert(s[k].sort_key() <= s[s.len() - 1].sort_key());
                }
            } else if j < inner.len() {
                assert(inner[i].sort_key() <= inner[j].sort_key());
            }
        }
        assert forall|key: u32| #[trigger] with_key(r, key) == with_key(s.push(x), key) by {
            lemma_with_key_push(inner, last, key);
            lemma_with_key_push(s, x, key);
            lemma_with_key_push(rest, last, key);
            lemma_with_key_push(rest, x, key);
            assert(with_key(inner, key) == with_key(rest.push(x), key));
        }
    }
}

/// Sorting orders the elements by key, keeps each of them as often as it occurs, and keeps the
/// order of elements with equal keys.
pub proof fn lemma_stable_sort<T: Keyed>(s: Seq<T>)
    ensures
        sorted(stable_sort(s)),
        stable_sort(s).to_multiset() == s.to_multiset(),
        stable_sort(s).len() == s.len(),
        forall|key: u32| #[trigger] with_key(stable_sort(s), key) == with_key(s, key),
    decreases s.len(),
{
    broadcast use vstd::seq_lib::group_to_multiset_ensures;

    if s.len() == 0 {
        assert(s =~= stable_sort(s));
    } else {
        let rest = s.drop_last();
        let x = s.last();
        lemma_stable_sort(rest);
        lemma_insert_sorted(stable_sort(rest), x);
        assert(s =~= rest.push(x));
        assert forall|key: u32| #[trigger] with_key(stable_sort(s), key) == with_key(s, key) by {
            assert(with_key(stable_sort(s), key) == with_key(stable_sort(rest).push(x), key));
            lemma_with_key_push(stable_sort(rest), x, key);
            assert(with_key(stable_sort(rest), key) == with_key(rest, key));
        }
        assert(stable_sort(s).len() == stable_sort(s).to_multiset().len());
        assert(s.len() == s.to_multiset().len());
    }
}

/// The place where an element is put: behind everything whose key is not larger, before the rest.
proof fn lemma_insert_sorted_place<T: Keyed>(s: Seq<T>, x: T) -> (at: int)
    requires
        sorted(s),
    ensures
        0 <= at <= s.len(),
        insert_sorted(s, x) == s.insert(at, x),
        forall|i: int| 0 <= i < at ==> (#[trigger] s[i]).sort_key() <= x.sort_key(),
        forall|i: int| at <= i < s.len() ==> (#[trigger] s[i]).sort_key() > x.sort_key(),
    decreases s.len(),
{
    if s.len() == 0 || s.last().sort_key() <= x.sort_key() {
        let at = s.len() as int;
        assert forall|i: int| 0 <= i < at implies (#[trigger] s[i]).sort_key() <= x.sort_key() by {
            assert(s[i].sort_key() <= s[s.len() - 1].sort_key());
        }
        assert(s.push(x) =~= s.insert(at, x));
        at
    } else {
        let rest = s.drop_last();
        assert(sorted(rest)) by {
            assert forall|i: int, j: int| 0 <= i <= j < rest.len() implies (
            #[trigger] rest[i]).sort_key() <= (#[trigger] rest[j]).sort_key() by {
                assert(s[i].sort_key() <= s[j].sort_key());
            }
        }
        let at = lemma_insert_sorted_place(rest, x);
        assert forall|i: int| 0 <= i < at implies (#[trigger] s[i]).sort_key() <= x.sort_key() by {
            assert(rest[i].sort_key() <= x.sort_key());
        }
        assert forall|i: int| at <= i < s.len() implies (#[trigger] s[i]).sort_key()
            > x.sort_key() by {
            if i < rest.len() {
                assert(rest[i].sort_key() > x.sort_key());
            }
        }
        assert(rest.insert(at, x).push(s.last()) =~= s.insert(at, x));
        at
    }
}

/// Sorting moves each element to one place: by ascending key, and elements with equal keys in the
/// order in which they stood. The result says where each element of the sorted sequence came from.
pub proof fn lemma_sorting_moves_each_element_once<T: Keyed>(s: Seq<T>) -> (from: Seq<int>)
    ensures
        stable_sort(s).len() == s.len(),
        from.len() == s.len(),
        from.no_duplicates(),
        forall|k: int|
            0 <= k < s.len() ==> 0 <= #[trigger] from[k] < s.len() && stable_sort(s)[k]
                == s[from[k]],
        forall|i: int, j: int|
            0 <= i < j < s.len() ==> (#[trigger] stable_sort(s)[i]).sort_key() <= (
            #[trigger] stable_sort(s)[j]).sort_key(),
        forall|i: int, j: int|
            0 <= i < j < s.len() && stable_sort(s)[i].sort_key() == stable_sort(s)[j].sort_key()
                ==> #[trigger] from[i] < #[trigger] from[j],
    decreases s.len(),
{
    let r = stable_sort(s);
    if s.len() == 0 {
        Seq::empty()
    } else {
        let rest = s.drop_last();
        let x = s.last();
        let last = s.len() - 1;
        lemma_stable_sort(rest);
        lemma_stable_sort(s);
        let inner = stable_sort(rest);
        let earlier = lemma_sorting_moves_each_element_once(rest);
        let at = lemma_insert_sorted_place(inner, x);
        let from = earlier.insert(at, last);
        assert(r == inner.insert(at, x));
        assert forall|k: int| 0 <= k < s.len() implies 0 <= #[trigger] from[k] < s.len() && r[k]
            == s[from[k]] by {
            if k < at {
                assert(from[k] == earlier[k] && r[k] == inner[k]);
            } else if k > at {
                assert(from[k] == earlier[k - 1] && r[k] == inner[k - 1]);
            }
        }
        assert forall|i: int, j: int|
            0 <= i < from.len() && 0 <= j < from.len() && i != j implies from[i] != from[j] by {
            let a = if i < at { i } else { i - 1 };
            let b = if j < at { j } else { j - 1 };
            if i != at {
                assert(from[i] == earlier[a]);
                assert(0 <= earlier[a] < rest.len());
            }
            if j != at {
                assert(from[j] == earlier[b]);
                assert(0 <= earlier[b] < rest.len());
            }
            if i != at && j != at {
                assert(a != b);
            }
        }
        assert forall|i: int, j: int| 0 <= i < j < s.len() && r[i].sort_key()
            == r[j].sort_key() implies #[trigger] from[i] < #[trigger] from[j] by {
            let a = if i < at { i } else { i - 1 };
            let b = if j < at { j } else { j - 1 };
            if i == at {
                assert(r[j] == inner[b]);
                assert(inner[b].sort_key() > x.sort_key());
            } else if j == at {
                assert(0 <= earlier[a] < rest.len());
            } else {
                assert(r[i] == inner[a] && r[j] == inner[b]);
                assert(earlier[a] < earlier[b]);
            }
        }
        from
    }
}

/// What is sorted stays as it is.
pub proof fn lemma_sorting_again_changes_nothing<T: Keyed>(s: Seq<T>)
    ensures
        stable_sort(stable_sort(s)) == stable_sort(s),
{
    let once = stable_sort(s);
    lemma_stable_sort(s);
    lemma_stable_sort(once);
    lemma_sorted_unique(stable_sort(once), once);
}

/// An element that comes last and whose key no other one exceeds is sorted to the end.
pub proof fn lemma_sorting_keeps_latest_last<T: Keyed>(s: Seq<T>, x: T)
    requires
        forall|i: int| 0 <= i < s.len() ==> (#[trigger] s[i]).sort_key() <= x.sort_key(),
    ensures
        stable_sort(s.push(x)) == stable_sort(s).push(x),
{
    let from = lemma_sorting_moves_each_element_once(s);
    assert(s.push(x).drop_last() =~= s);
    if s.len() > 0 {
        let k = s.len() - 1;
        assert(stable_sort(s)[k] == s[from[k]]);
    }
}

/// One sorted sequence out of two; among equal keys the elements of `a` come first.
fn merge<T: Keyed>(a: &Vec<T>, b: &Vec<T>) -> (merged: Vec<T>)
    requires
        sorted(a@),
        sorted(b@),
    ensures
        sorted(merged@),
        forall|key: u32| #[trigger]
            with_key(merged@, key) == with_key(a@, key) + with_key(b@, key),
{
    let mut merged: Vec<T> = Vec::new();
    let mut i: usize = 0;
    let mut j: usize = 0;
    proof {
        assert forall|key: u32| #[trigger] with_key(merged@, key) == with_key(a@.take(0), key)
            + with_key(b@.take(0), key) by {
            assert(with_key(a@.take(0), key) + with_key(b@.take(0), key) =~= Seq::<T>::empty());
        }
    }
    while i < a.len() || j < b.len()
        invariant
            i <= a.len(),
            j <= b.len(),
            sorted(a@),
            sorted(b@),
            sorted(merged@),
            forall|m: int, k: int|
                0 <= m < merged.len() && i <= k < a.len() ==> (#[trigger] merged@[m]).sort_key() <= (
                #[trigger] a@[k]).sort_key(),
            forall|m: int, k: int|
                0 <= m < merged.len() && j <= k < b.len() ==> (#[trigger] merged@[m]).sort_key() <= (
                #[trigger] b@[k]).sort_key(),
            forall|m: int, k: int|
                0 <= m < j && i <= k < a.len() ==> (#[trigger] b@[m]).sort_key() < (
                #[trigger] a@[k]).sort_key(),
            forall|key: u32| #[trigger]
                with_key(merged@, key) == with_key(a@.take(i as int), key) + with_key(
                    b@.take(j as int),
                    key,
                ),
        decreases a.len() - i + b.len() - j,
    {
        let ghost earlier = merged@;
        if j >= b.len() || i < a.len() && a[i].key() <= b[j].key() {
            let x = a[i];
            merged.push(x);
            proof {
                assert forall|key: u32| #[trigger]
                    with_key(merged@, key) == with_key(a@.take(i + 1), key) + with_key(
                        b@.take(j as int),
                        key,
                    ) by {
                    assert(a@.take(i + 1) =~= a@.take(i as int).push(x));
                    lemma_with_key_push(a@.take(i as int), x, key);
                    lemma_with_key_push(earlier, x, key);
                    if key == x.sort_key() {
                        lemma_with_key_empty(b@.take(j as int), key);
                    }
                    assert(with_key(merged@, key) =~= with_key(a@.take(i + 1), key) + with_key(
                        b@.take(j as int),
                        key,
                    ));
                }
            }
            i = i + 1;
        } else {
            let x = b[j];
            merged.push(x);
            proof {
                assert forall|key: u32| #[trigger]
                    with_key(merged@, key) == with_key(a@.take(i as int), key) + with_key(
                        b@.take(j + 1),
                        key,
                    ) by {
                    assert(b@.take(j + 1) =~= b@.take(j as int).push(x));
                    lemma_with_key_push(b@.take(j as int), x, key);
                    lemma_with_key_push(earlier, x, key);
                    assert(with_key(merged@, key) =~= with_key(a@.take(i as int), key) + with_key(
                        b@.take(j + 1),
                        key,
                    ));
                }
            }
            j = j + 1;
        }
    }
    assert(a@.take(i as int) =~= a@);
    assert(b@.take(j as int) =~= b@);
    merged
}

fn sort_range<T: Keyed>(values: &Vec<T>, lo: usize, hi: usize) -> (result: Vec<T>)
    requires
        lo <= hi <= values.len(),
    ensures
        sorted(result@),
        forall|key: u32| #[trigger]
            with_key(result@, key) == with_key(values@.subrange(lo as int, hi as int), key),
    decreases hi - lo,
{
    if hi - lo <= 1 {
        let mut result: Vec<T> = Vec::new();
        if lo < hi {
            result.push(values[lo]);
        }
        assert(result@ =~= values@.subrange(lo as int, hi as int));
        result
    } else {
        let mid: usize = lo + (hi - lo) / 2;
        let left = sort_range(values, lo, mid);
        let right = sort_range(values, mid, hi);
        let result = merge(&left, &right);
        proof {
            let l = values@.subrange(lo as int, mid as int);
            let r = values@.subrange(mid as int, hi as int);
            assert(values@.subrange(lo as int, hi as int) =~= l + r);
            assert forall|key: u32| #[trigger] with_key(result@, key) == with_key(l + r, key) by {
                lemma_with_key_add(l, r, key);
                assert(with_key(left@, key) == with_key(l, key));
                assert(with_key(right@, key) == with_key(r, key));
            }
        }
        result
    }
}

/// The values by ascending key; values with equal keys keep their order.
pub(crate) fn sort_by_key<T: Keyed>(values: &Vec<T>) -> (result: Vec<T>)
    ensures
        result@ == stable_sort(values@),
{
    let result = sort_range(values, 0, values.len());
    proof {
        assert(values@.subrange(0, values.len() as int) =~= values@);
        lemma_stable_sort(values@);
        assert forall|key: u32| #[trigger] with_key(result@, key) == with_key(
            stable_sort(values@),
            key,
        ) by {
            assert(with_key(stable_sort(values@), key) == with_key(values@, key));
        }
        lemma_sorted_unique(result@, stable_sort(values@));
    }
    result
}

/// Appending `x` adds it, and nothing else.
pub proof fn lemma_push_contains(s: Seq<u32>, x: u32)
    ensures
        forall|y: u32| #[trigger] s.push(x).contains(y) <==> s.contains(y) || y == x,
{
    assert forall|y: u32| #[trigger] s.push(x).contains(y) <==> s.contains(y) || y == x by {
        if s.contains(y) {
            let i = choose|i: int| 0 <= i < s.len() && s[i] == y;
            assert(s.push(x)[i] == y);
        }
        if y == x {
            assert(s.push(x)[s.len() as int] == y);
        }
    }
}

/// `list` is strictly ascending.
pub open spec fn strictly_ascending(list: Seq<u32>) -> bool {
    forall|i: int, j: int| 0 <= i < j < list.len() ==> #[trigger] list[i] < #[trigger] list[j]
}

/// `list` holds exactly the members of `set`, in ascending order.
pub open spec fn lists(list: Seq<u32>, set: Set<u32>) -> bool {
    &&& strictly_ascending(list)
    &&& forall|x: u32| #[trigger] list.contains(x) <==> set.contains(x)
}

/// The members of a finite set in ascending order.
pub open spec fn ascending(set: Set<u32>) -> Seq<u32> {
    choose|list: Seq<u32>| lists(list, set)
}

/// A sorted list without repetition is strictly ascending.
pub proof fn lemma_sorted_distinct(list: Seq<u32>)
    requires
        sorted(list),
        list.no_duplicates(),
    ensures
        strictly_ascending(list),
{
    assert forall|i: int, j: int| 0 <= i < j < list.len() implies #[trigger] list[i]
        < #[trigger] list[j] by {
        assert(list[i].sort_key() <= list[j].sort_key());
    }
}

proof fn lemma_listing_exists(set: Set<u32>) -> (list: Seq<u32>)
    requires
        set.finite(),
    ensures
        lists(list, set),
    decreases set.len(),
{
    broadcast use vstd::seq_lib::group_to_multiset_ensures;

    if set.len() == 0 {
        set.lemma_len0_is_empty();
        Seq::empty()
    } else {
        let x = set.choose();
        let rest = lemma_listing_exists(set.remove(x));
        assert(sorted(rest));
        lemma_insert_sorted(rest, x);
        let list = insert_sorted(rest, x);
        assert(rest.no_duplicates());
        assert(!rest.contains(x));
        rest.lemma_multiset_has_no_duplicates();
        assert(rest.to_multiset().count(x) == 0);
        list.lemma_multiset_has_no_duplicates_conv();
        lemma_sorted_distinct(list);
        assert forall|y: u32| #[trigger] list.contains(y) <==> set.contains(y) by {
            assert(list.to_multiset().count(y) > 0 <==> y == x || rest.to_multiset().count(y) > 0);
            assert(rest.contains(y) <==> set.remove(x).contains(y));
        }
        list
    }
}

/// A set has one ascending list.
pub proof fn lemma_listing_unique(a: Seq<u32>, b: Seq<u32>, set: Set<u32>)
    requires
        lists(a, set),
        lists(b, set),
    ensures
        a == b,
    decreases a.len(),
{
    if a.len() == 0 {
        if b.len() > 0 {
            assert(b.contains(b[0]));
            assert(a.contains(b[0]));
        }
    } else {
        assert(a.contains(a.last()));
        assert(b.contains(a.last()));
        assert(b.contains(b.last()));
        assert(a.contains(b.last()));
        let i = choose|i: int| 0 <= i < b.len() && b[i] == a.last();
        let j = choose|j: int| 0 <= j < a.len() && a[j] == b.last();
        assert(a.last() == b.last()) by {
            if i < b.len() - 1 {
                assert(b[i] < b[b.len() - 1]);
            }
            if j < a.len() - 1 {
                assert(a[j] < a[a.len() - 1]);
            }
        }
        let last = a.last();
        lemma_listing_drop_last(a, set);
        lemma_listing_drop_last(b, set);
        lemma_listing_unique(a.drop_last(), b.drop_last(), set.remove(last));
        assert(a =~= a.drop_last().push(last));
        assert(b =~= b.drop_last().push(last));
    }
}

proof fn lemma_listing_drop_last(list: Seq<u32>, set: Set<u32>)
    requires
        lists(list, set),
        list.len() > 0,
    ensures
        lists(list.drop_last(), set.remove(list.last())),
{
    let rest = list.drop_last();
    let last = list.last();
    assert forall|i: int, j: int| 0 <= i < j < rest.len() implies #[trigger] rest[i]
        < #[trigger] rest[j] by {
        assert(list[i] < list[j]);
    }
    assert forall|x: u32| #[trigger] rest.contains(x) <==> set.remove(last).contains(x) by {
        if rest.contains(x) {
            let i = choose|i: int| 0 <= i < rest.len() && rest[i] == x;
            assert(list[i] < list[list.len() - 1]);
            assert(list.contains(x));
        }
        if set.remove(last).contains(x) {
            assert(list.contains(x));
            let i = choose|i: int| 0 <= i < list.len() && list[i] == x;
            assert(rest[i] == x);
        }
    }
}

/// The ascending list of a finite set goes up from member to member and leaves none out.
pub proof fn lemma_ascending_goes_up_through_all_members(set: Set<u32>)
    requires
        set.finite(),
    ensures
        forall|i: int, j: int|
            0 <= i < j < ascending(set).len() ==> #[trigger] ascending(set)[i]
                < #[trigger] ascending(set)[j],
        forall|i: int| 0 <= i < ascending(set).len() ==> set.contains(#[trigger] ascending(set)[i]),
        forall|x: u32| #[trigger]
            set.contains(x) ==> exists|i: int|
                0 <= i < ascending(set).len() && #[trigger] ascending(set)[i] == x,
{
    lemma_ascending(set);
    let list = ascending(set);
    assert forall|i: int| 0 <= i < list.len() implies set.contains(#[trigger] list[i]) by {
        assert(list.contains(list[i]));
    }
    assert forall|x: u32| #[trigger] set.contains(x) implies exists|i: int|
        0 <= i < list.len() && #[trigger] list[i] == x by {
        assert(list.contains(x));
    }
}

/// The ascending list of a finite set holds each member once.
pub proof fn lemma_ascending(set: Set<u32>)
    requires
        set.finite(),
    ensures
        lists(ascending(set), set),
        ascending(set).no_duplicates(),
        ascending(set).to_set() == set,
        ascending(set).len() == set.len(),
{
    let list = lemma_listing_exists(set);
    assert(lists(ascending(set), set));
    assert(ascending(set).to_set() =~= set);
    ascending(set).unique_seq_to_set();
}

} // verus!
