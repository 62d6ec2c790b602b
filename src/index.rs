//! Indexes from a small integer (a purpose, a topic) to a list of 32-byte
//! identifiers, and the two ways of taking an identifier out of a list.
use crate::table::{has_key, keys_unique, lemma_to_map_at, lemma_to_map_push,
    lemma_to_map_remove, lemma_to_map_update, to_map};
use vstd::prelude::*;

verus! {

/// A 32-byte identifier: a key, an issuer, a claim id.
pub type Id = [u8; 32];

/// An index as stored: one entry per index value, holding its list.
pub type IndexTable = Vec<(u32, Vec<Id>)>;

/// The map an index table stands for.
pub open spec fn index_view(s: Seq<(u32, Vec<Id>)>) -> Map<u32, Seq<Id>> {
    to_map(s).map_values(|v: Vec<Id>| v@)
}

/// `i` is the first position of `x` in `s`.
pub open spec fn is_first<T>(s: Seq<T>, x: T, i: int) -> bool {
    &&& 0 <= i < s.len()
    &&& s[i] == x
    &&& forall|j: int| 0 <= j < i ==> s[j] != x
}

/// The first position of `x` in `s`, where `s` holds it.
pub open spec fn first_index<T>(s: Seq<T>, x: T) -> int {
    choose|i: int| is_first(s, x, i)
}

/// `s` with the entry at `i` overwritten by the last entry, and then the
/// last entry dropped: order is not kept.
pub open spec fn swap_truncate<T>(s: Seq<T>, i: int) -> Seq<T> {
    s.update(i, s.last()).drop_last()
}

/// `s` without the first `x`, taken out by swap-and-truncate; `s` itself
/// where it holds no `x`.
pub open spec fn without_swapped<T>(s: Seq<T>, x: T) -> Seq<T> {
    if s.contains(x) {
        swap_truncate(s, first_index(s, x))
    } else {
        s
    }
}

/// `s` without the first `x`, the entries after it shifted down; `s` itself
/// where it holds no `x`.
pub open spec fn without_ordered<T>(s: Seq<T>, x: T) -> Seq<T> {
    if s.contains(x) {
        s.remove(first_index(s, x))
    } else {
        s
    }
}

/// The list of `m` at `k` with `x` appended; a one-entry list where `m` has none.
pub open spec fn appended(m: Map<u32, Seq<Id>>, k: u32, x: Id) -> Seq<Id> {
    if m.contains_key(k) {
        m[k].push(x)
    } else {
        seq![x]
    }
}

/// The first position is the one position that no earlier `x` precedes.
pub proof fn lemma_first_index<T>(s: Seq<T>, x: T, i: int)
    requires
        is_first(s, x, i),
    ensures
        first_index(s, x) == i,
{
    let j = first_index(s, x);
    assert(is_first(s, x, j));
    if j < i {
        assert(s[j] == x);
    } else if i < j {
        assert(s[i] == x);
    }
}

/// Equality of two identifiers, byte by byte.
pub fn id_eq(a: &Id, b: &Id) -> (r: bool)
    ensures
        r == (*a == *b),
{
    let mut i: usize = 0;
    while i < 32
        invariant
            i <= 32,
            forall|j: int| 0 <= j < i ==> a[j] == b[j],
        decreases 32 - i,
    {
        if a[i] != b[i] {
            return false;
        }
        i = i + 1;
    }
    assert(*a =~= *b);
    true
}

/// The first position of `x` in `v`, if any.
pub fn position_of_id(v: &Vec<Id>, x: &Id) -> (r: Option<usize>)
    ensures
        match r {
            Some(i) => is_first(v@, *x, i as int),
            None => !v@.contains(*x),
        },
{
    let mut i: usize = 0;
    while i < v.len()
        invariant
            i <= v@.len(),
            forall|j: int| 0 <= j < i ==> v@[j] != *x,
        decreases v@.len() - i,
    {
        if id_eq(&v[i], x) {
            return Some(i);
        }
        i = i + 1;
    }
    None
}

/// The first position of `x` in `v`, if any.
pub fn position_of_u32(v: &Vec<u32>, x: u32) -> (r: Option<usize>)
    ensures
        match r {
            Some(i) => is_first(v@, x, i as int),
            None => !v@.contains(x),
        },
{
    let mut i: usize = 0;
    while i < v.len()
        invariant
            i <= v@.len(),
            forall|j: int| 0 <= j < i ==> v@[j] != x,
        decreases v@.len() - i,
    {
        if v[i] == x {
            return Some(i);
        }
        i = i + 1;
    }
    None
}

/// A copy of `v`.
pub fn copied<T: Copy>(v: &Vec<T>) -> (r: Vec<T>)
    ensures
        r@ == v@,
{
    let mut r: Vec<T> = Vec::new();
    let mut i: usize = 0;
    while i < v.len()
        invariant
            i <= v@.len(),
            r@ == v@.subrange(0, i as int),
        decreases v@.len() - i,
    {
        r.push(v[i]);
        i = i + 1;
        assert(r@ =~= v@.subrange(0, i as int));
    }
    assert(v@.subrange(0, v@.len() as int) =~= v@);
    r
}

/// The position of the entry for `k` in a table keyed by integers, if any.
pub fn find_u32<V>(s: &Vec<(u32, V)>, k: u32) -> (r: Option<usize>)
    ensures
        match r {
            Some(i) => i < s@.len() && s@[i as int].0 == k,
            None => !has_key(s@, k),
        },
{
    let mut i: usize = 0;
    while i < s.len()
        invariant
            i <= s@.len(),
            forall|j: int| 0 <= j < i ==> s@[j].0 != k,
        decreases s@.len() - i,
    {
        if s[i].0 == k {
            return Some(i);
        }
        i = i + 1;
    }
    None
}

/// The position of the entry for `k` in a table keyed by identifiers, if any.
pub fn find_id<V>(s: &Vec<(Id, V)>, k: &Id) -> (r: Option<usize>)
    ensures
        match r {
            Some(i) => i < s@.len() && s@[i as int].0 == *k,
            None => !has_key(s@, *k),
        },
{
    let mut i: usize = 0;
    while i < s.len()
        invariant
            i <= s@.len(),
            forall|j: int| 0 <= j < i ==> s@[j].0 != *k,
        decreases s@.len() - i,
    {
        if id_eq(&s[i].0, k) {
            return Some(i);
        }
        i = i + 1;
    }
    None
}

/// The list that `idx` holds for `k`: empty where it has no entry.
pub fn index_get(idx: &IndexTable, k: u32) -> (r: Option<Vec<Id>>)
    requires
        keys_unique(idx@),
    ensures
        match r {
            Some(v) => index_view(idx@).contains_key(k) && v@ == index_view(idx@)[k],
            None => !index_view(idx@).contains_key(k),
        },
{
    match find_u32(idx, k) {
        Some(i) => {
            proof {
                lemma_to_map_at(idx@, i as int);
            }
            Some(copied(&idx[i].1))
        },
        None => None,
    }
}

/// Replaces the list of entry `i` by `v`.
fn index_replace(idx: &mut IndexTable, i: usize, v: Vec<Id>)
    requires
        keys_unique(old(idx)@),
        i < old(idx)@.len(),
    ensures
        keys_unique(final(idx)@),
        index_view(final(idx)@) == index_view(old(idx)@).insert(old(idx)@[i as int].0, v@),
{
    let ghost s = idx@;
    let k = idx[i].0;
    idx.set(i, (k, v));
    proof {
        assert(idx@ == s.update(i as int, (s[i as int].0, v)));
        lemma_to_map_update(s, i as int, v);
        assert(index_view(idx@) =~= index_view(s).insert(k, v@));
    }
}

/// Appends `x` to the list of `k`, making that list where there is none.
pub fn index_append(idx: &mut IndexTable, k: u32, x: Id)
    requires
        keys_unique(old(idx)@),
    ensures
        keys_unique(final(idx)@),
        index_view(final(idx)@) == index_view(old(idx)@).insert(
            k,
            appended(index_view(old(idx)@), k, x),
        ),
{
    let ghost s = idx@;
    match find_u32(idx, k) {
        Some(i) => {
            proof {
                lemma_to_map_at(s, i as int);
            }
            let mut v = copied(&idx[i].1);
            v.push(x);
            index_replace(idx, i, v);
        },
        None => {
            let mut v: Vec<Id> = Vec::new();
            v.push(x);
            idx.push((k, v));
            proof {
                assert(!to_map(s).contains_key(k));
                lemma_to_map_push(s, k, v);
                assert(v@ =~= seq![x]);
                assert(index_view(idx@) =~= index_view(s).insert(k, v@));
            }
        },
    }
}

/// Takes the first `x` out of the list of `k` by swap-and-truncate; does
/// nothing where there is no such list or it holds no `x`.
pub fn index_remove_swapped(idx: &mut IndexTable, k: u32, x: &Id)
    requires
        keys_unique(old(idx)@),
    ensures
        keys_unique(final(idx)@),
        index_view(final(idx)@) == (if index_view(old(idx)@).contains_key(k) {
            index_view(old(idx)@).insert(k, without_swapped(index_view(old(idx)@)[k], *x))
        } else {
            index_view(old(idx)@)
        }),
{
    let ghost s = idx@;
    if let Some(i) = find_u32(idx, k) {
        proof {
            lemma_to_map_at(s, i as int);
        }
        let mut v = copied(&idx[i].1);
        match position_of_id(&v, x) {
            Some(j) => {
                let ghost before = v@;
                let n = v.len();
                let last = v[n - 1];
                v.set(j, last);
                v.pop();
                proof {
                    lemma_first_index(before, *x, j as int);
                    assert(before.contains(*x));
                    assert(v@ =~= swap_truncate(before, j as int));
                }
                index_replace(idx, i, v);
            },
            None => {
                proof {
                    assert(index_view(s).insert(k, v@) =~= index_view(s));
                }
            },
        }
    }
}

/// Takes the first `x` out of the list of `k`, keeping the order of the rest;
/// does nothing where there is no such list or it holds no `x`.
pub fn index_remove_ordered(idx: &mut IndexTable, k: u32, x: &Id)
    requires
        keys_unique(old(idx)@),
    ensures
        keys_unique(final(idx)@),
        index_view(final(idx)@) == (if index_view(old(idx)@).contains_key(k) {
            index_view(old(idx)@).insert(k, without_ordered(index_view(old(idx)@)[k], *x))
        } else {
            index_view(old(idx)@)
        }),
{
    let ghost s = idx@;
    if let Some(i) = find_u32(idx, k) {
        proof {
            lemma_to_map_at(s, i as int);
        }
        let mut v = copied(&idx[i].1);
        match position_of_id(&v, x) {
            Some(j) => {
                let ghost before = v@;
                v.remove(j);
                proof {
                    lemma_first_index(before, *x, j as int);
                    assert(before.contains(*x));
                }
                index_replace(idx, i, v);
            },
            None => {
                proof {
                    assert(index_view(s).insert(k, v@) =~= index_view(s));
                }
            },
        }
    }
}


/// Swap-and-truncate keeps a list free of duplicates, and takes out exactly
/// the entry it overwrote.
pub proof fn lemma_swap_truncate<T>(s: Seq<T>, i: int)
    requires
        s.no_duplicates(),
        0 <= i < s.len(),
    ensures
        swap_truncate(s, i).len() == s.len() - 1,
        swap_truncate(s, i).no_duplicates(),
        forall|x: T| #[trigger]
            swap_truncate(s, i).contains(x) <==> (s.contains(x) && x != s[i]),
{
    let t = swap_truncate(s, i);
    let last = s.len() - 1;
    assert forall|a: int, b: int| 0 <= a < t.len() && 0 <= b < t.len() && a != b implies t[a]
        != t[b] by {
        let a2 = if a == i { last } else { a };
        let b2 = if b == i { last } else { b };
        assert(t[a] == s[a2]);
        assert(t[b] == s[b2]);
    }
    assert forall|x: T| #[trigger] t.contains(x) <==> (s.contains(x) && x != s[i]) by {
        if t.contains(x) {
            let a = choose|a: int| 0 <= a < t.len() && t[a] == x;
            let a2 = if a == i { last } else { a };
            assert(s[a2] == x);
        }
        if s.contains(x) && x != s[i] {
            let c = choose|c: int| 0 <= c < s.len() && s[c] == x;
            if c < last {
                assert(t[c] == x);
            } else {
                assert(t[i] == x);
            }
        }
    }
}

/// Ordered removal keeps a list free of duplicates, and takes out exactly the
/// entry removed.
pub proof fn lemma_remove_at<T>(s: Seq<T>, i: int)
    requires
        s.no_duplicates(),
        0 <= i < s.len(),
    ensures
        s.remove(i).no_duplicates(),
        forall|x: T| #[trigger] s.remove(i).contains(x) <==> (s.contains(x) && x != s[i]),
{
    let t = s.remove(i);
    assert forall|a: int, b: int| 0 <= a < t.len() && 0 <= b < t.len() && a != b implies t[a]
        != t[b] by {
        let a2 = if a < i { a } else { a + 1 };
        let b2 = if b < i { b } else { b + 1 };
        assert(t[a] == s[a2]);
        assert(t[b] == s[b2]);
    }
    assert forall|x: T| #[trigger] t.contains(x) <==> (s.contains(x) && x != s[i]) by {
        if t.contains(x) {
            let a = choose|a: int| 0 <= a < t.len() && t[a] == x;
            let a2 = if a < i { a } else { a + 1 };
            assert(s[a2] == x);
        }
        if s.contains(x) && x != s[i] {
            let c = choose|c: int| 0 <= c < s.len() && s[c] == x;
            if c < i {
                assert(t[c] == x);
            } else {
                assert(t[c - 1] == x);
            }
        }
    }
}

/// Appending a value that a duplicate-free list lacks keeps it duplicate-free.
pub proof fn lemma_push_fresh<T>(s: Seq<T>, x: T)
    requires
        s.no_duplicates(),
        !s.contains(x),
    ensures
        s.push(x).no_duplicates(),
{
    let t = s.push(x);
    assert forall|a: int, b: int| 0 <= a < t.len() && 0 <= b < t.len() && a != b implies t[a]
        != t[b] by {
        if a == s.len() {
            assert(s[b] == t[b]);
        } else if b == s.len() {
            assert(s[a] == t[a]);
        }
    }
}

} // verus!
