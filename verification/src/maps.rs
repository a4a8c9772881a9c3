//! Finite maps keyed by interned names, held as vectors of pairs.
//!
//! A map is a sequence of `(key, value)` pairs.  Lookup finds the first pair
//! with the key; insertion drops every pair with the key and appends the new
//! one, so a map built by insertions never holds a key twice.  Iteration goes
//! in sequence order.
use vstd::prelude::*;
use crate::types::copy_vars;

verus! {

/// Values with a copy whose deep view is that of the value copied.
pub trait Duplicate: Sized + DeepView {
    fn duplicate_value(&self) -> (r: Self)
        ensures
            r.deep_view() == self.deep_view(),
    ;
}

impl Duplicate for usize {
    fn duplicate_value(&self) -> (r: usize) {
        *self
    }
}

impl Duplicate for Vec<usize> {
    fn duplicate_value(&self) -> (r: Vec<usize>) {
        let r = copy_vars(self);
        assert(r.deep_view() =~= self.deep_view());
        r
    }
}

/// The value of the first pair of `m`, from index `i` on, whose key is `k`.
pub open spec fn find_from<W>(m: Seq<(u64, W)>, k: u64, i: int) -> Option<W>
    decreases m.len() - i,
{
    if i < 0 || i >= m.len() {
        None
    } else if m[i].0 == k {
        Some(m[i].1)
    } else {
        find_from(m, k, i + 1)
    }
}

/// The value that `m` maps `k` to.
pub open spec fn lookup<W>(m: Seq<(u64, W)>, k: u64) -> Option<W> {
    find_from(m, k, 0)
}

/// `m` without its pairs whose key is `k`.
pub open spec fn remove_key<W>(m: Seq<(u64, W)>, k: u64) -> Seq<(u64, W)>
    decreases m.len(),
{
    if m.len() == 0 {
        m
    } else {
        let r = remove_key(m.drop_last(), k);
        if m.last().0 == k {
            r
        } else {
            r.push(m.last())
        }
    }
}

/// `m` with `k` mapped to `w`.
pub open spec fn map_insert<W>(m: Seq<(u64, W)>, k: u64, w: W) -> Seq<(u64, W)> {
    remove_key(m, k).push((k, w))
}

/// `a` with every pair of `b` inserted, in order: `b` wins on shared keys.
pub open spec fn map_union<W>(a: Seq<(u64, W)>, b: Seq<(u64, W)>) -> Seq<(u64, W)>
    decreases b.len(),
{
    if b.len() == 0 {
        a
    } else {
        map_insert(map_union(a, b.drop_last()), b.last().0, b.last().1)
    }
}

/// The pairs of `a` whose key `b` does not map.
pub open spec fn complement<W>(a: Seq<(u64, W)>, b: Seq<(u64, W)>) -> Seq<(u64, W)>
    decreases a.len(),
{
    if a.len() == 0 {
        a
    } else {
        let r = complement(a.drop_last(), b);
        if lookup(b, a.last().0) is Some {
            r
        } else {
            r.push(a.last())
        }
    }
}

/// For each key that both maps hold, in the order of `b`, the pair of the
/// value in `a` and the value in `b`.
pub open spec fn shared<W>(a: Seq<(u64, W)>, b: Seq<(u64, W)>) -> Seq<(u64, (W, W))>
    decreases b.len(),
{
    if b.len() == 0 {
        Seq::empty()
    } else {
        let r = shared(a, b.drop_last());
        match lookup(a, b.last().0) {
            None => r,
            Some(l) => map_insert(r, b.last().0, (l, b.last().1)),
        }
    }
}

/// Looks `k` up in `m`.
pub fn find<V: Duplicate>(m: &Vec<(u64, V)>, k: u64) -> (r: Option<V>)
    ensures
        r.deep_view() == lookup(m.deep_view(), k),
{
    let mut i: usize = 0;
    while i < m.len()
        invariant
            i <= m.len(),
            lookup(m.deep_view(), k) == find_from(m.deep_view(), k, i as int),
        decreases m.len() - i,
    {
        if m[i].0 == k {
            return Some(m[i].1.duplicate_value());
        }
        i += 1;
    }
    None
}

/// Whether `m` maps `k`.
pub fn contains_key<V: DeepView>(m: &Vec<(u64, V)>, k: u64) -> (r: bool)
    ensures
        r == (lookup(m.deep_view(), k) is Some),
{
    let mut i: usize = 0;
    while i < m.len()
        invariant
            i <= m.len(),
            lookup(m.deep_view(), k) == find_from(m.deep_view(), k, i as int),
        decreases m.len() - i,
    {
        if m[i].0 == k {
            return true;
        }
        i += 1;
    }
    false
}

/// `m` without its pairs whose key is `k`.
pub fn without_key<V: DeepView>(m: Vec<(u64, V)>, k: u64) -> (r: Vec<(u64, V)>)
    ensures
        r.deep_view() == remove_key(m.deep_view(), k),
{
    let ghost orig = m.deep_view();
    let mut src = m;
    let mut r: Vec<(u64, V)> = Vec::new();
    let ghost mut j: int = 0;
    assert(src.deep_view() =~= orig.skip(0));
    assert(orig.take(0) =~= Seq::<(u64, V::V)>::empty());
    while src.len() > 0
        invariant
            0 <= j <= orig.len(),
            src.deep_view() == orig.skip(j),
            r.deep_view() == remove_key(orig.take(j), k),
        decreases src.len(),
    {
        let ghost before = src.deep_view();
        let ghost before_v = src@;
        let ghost r_before = r.deep_view();
        let (kk, vv) = src.remove(0);
        assert(src.deep_view() =~= before.drop_first());
        assert(before[0] == before_v[0].deep_view());
        assert((kk, vv.deep_view()) == orig[j]);
        if kk != k {
            r.push((kk, vv));
            assert(r.deep_view() =~= r_before.push(orig[j]));
        }
        proof {
            assert(orig.take(j + 1).drop_last() =~= orig.take(j));
            assert(orig.skip(j + 1) =~= orig.skip(j).drop_first());
            j = j + 1;
        }
    }
    assert(orig.take(j) =~= orig);
    r
}

/// `m` with `k` mapped to `v`.
pub fn insert<V: DeepView>(m: Vec<(u64, V)>, k: u64, v: V) -> (r: Vec<(u64, V)>)
    ensures
        r.deep_view() == map_insert(m.deep_view(), k, v.deep_view()),
{
    let mut r = without_key(m, k);
    let ghost before = r.deep_view();
    r.push((k, v));
    assert(r.deep_view() =~= before.push((k, v.deep_view())));
    r
}

/// `a` with every pair of `b` inserted, in order.
pub fn union<V: DeepView>(a: Vec<(u64, V)>, b: Vec<(u64, V)>) -> (r: Vec<(u64, V)>)
    ensures
        r.deep_view() == map_union(a.deep_view(), b.deep_view()),
{
    let ghost a0 = a.deep_view();
    let ghost b0 = b.deep_view();
    let mut r = a;
    let mut src = b;
    let ghost mut j: int = 0;
    assert(src.deep_view() =~= b0.skip(0));
    assert(b0.take(0) =~= Seq::<(u64, V::V)>::empty());
    while src.len() > 0
        invariant
            0 <= j <= b0.len(),
            src.deep_view() == b0.skip(j),
            r.deep_view() == map_union(a0, b0.take(j)),
        decreases src.len(),
    {
        let ghost before = src.deep_view();
        let ghost before_v = src@;
        let (kk, vv) = src.remove(0);
        assert(src.deep_view() =~= before.drop_first());
        assert(before[0] == before_v[0].deep_view());
        assert((kk, vv.deep_view()) == b0[j]);
        r = insert(r, kk, vv);
        proof {
            assert(b0.take(j + 1).drop_last() =~= b0.take(j));
            assert(b0.skip(j + 1) =~= b0.skip(j).drop_first());
            j = j + 1;
        }
    }
    assert(b0.take(j) =~= b0);
    r
}

/// The pairs of `a` whose key `b` does not map (copies of them).
pub fn relative_complement<V: Duplicate>(a: &Vec<(u64, V)>, b: &Vec<(u64, V)>) -> (r: Vec<(u64, V)>)
    ensures
        r.deep_view() == complement(a.deep_view(), b.deep_view()),
{
    let mut r: Vec<(u64, V)> = Vec::new();
    let mut i: usize = 0;
    assert(a.deep_view().take(0) =~= Seq::<(u64, V::V)>::empty());
    while i < a.len()
        invariant
            i <= a.len(),
            r.deep_view() == complement(a.deep_view().take(i as int), b.deep_view()),
        decreases a.len() - i,
    {
        let ghost r_before = r.deep_view();
        if !contains_key(b, a[i].0) {
            let v = a[i].1.duplicate_value();
            r.push((a[i].0, v));
            assert(r.deep_view() =~= r_before.push(a.deep_view()[i as int]));
        }
        assert(a.deep_view().take(i + 1).drop_last() =~= a.deep_view().take(i as int));
        i += 1;
    }
    assert(a.deep_view().take(i as int) =~= a.deep_view());
    r
}

/// For each key both maps hold, in the order of `b`, the pair of values.
pub fn get_shared<V: Duplicate>(a: &Vec<(u64, V)>, b: &Vec<(u64, V)>) -> (r: Vec<(u64, (V, V))>)
    ensures
        r.deep_view() == shared(a.deep_view(), b.deep_view()),
{
    let mut r: Vec<(u64, (V, V))> = Vec::new();
    let mut i: usize = 0;
    assert(b.deep_view().take(0) =~= Seq::<(u64, V::V)>::empty());
    while i < b.len()
        invariant
            i <= b.len(),
            r.deep_view() == shared(a.deep_view(), b.deep_view().take(i as int)),
        decreases b.len() - i,
    {
        match find(a, b[i].0) {
            None => {},
            Some(left) => {
                let right = b[i].1.duplicate_value();
                r = insert(r, b[i].0, (left, right));
            },
        }
        assert(b.deep_view().take(i + 1).drop_last() =~= b.deep_view().take(i as int));
        i += 1;
    }
    assert(b.deep_view().take(i as int) =~= b.deep_view());
    r
}


/// What `find_from` returns is the value of a pair of `m` with the key.
pub proof fn lemma_find_from_member<W>(m: Seq<(u64, W)>, k: u64, i: int)
    ensures
        find_from(m, k, i) matches Some(w) ==> m.contains((k, w)),
    decreases m.len() - i,
{
    if 0 <= i < m.len() && m[i].0 != k {
        lemma_find_from_member(m, k, i + 1);
    }
    if 0 <= i < m.len() && m[i].0 == k {
        assert(m[i] == (k, m[i].1));
    }
}

/// Every pair of `remove_key(m, k)` is a pair of `m`.
pub proof fn lemma_remove_key_members<W>(m: Seq<(u64, W)>, k: u64)
    ensures
        forall|x: (u64, W)| #[trigger] remove_key(m, k).contains(x) ==> m.contains(x),
    decreases m.len(),
{
    if m.len() > 0 {
        lemma_remove_key_members(m.drop_last(), k);
        let r = remove_key(m.drop_last(), k);
        assert forall|x: (u64, W)| #[trigger] remove_key(m, k).contains(x) implies m.contains(x) by {
            if m.last().0 != k && x == m.last() {
                assert(m[m.len() - 1] == x);
            } else {
                assert(r.contains(x));
                let j = choose|j: int| 0 <= j < m.drop_last().len() && m.drop_last()[j] == x;
                assert(m[j] == x);
            }
        }
    }
}

/// Every pair of `map_insert(m, k, w)` is a pair of `m` or `(k, w)`.
pub proof fn lemma_insert_members<W>(m: Seq<(u64, W)>, k: u64, w: W)
    ensures
        forall|x: (u64, W)| #[trigger] map_insert(m, k, w).contains(x) ==> m.contains(x) || x == (k, w),
{
    lemma_remove_key_members(m, k);
    assert forall|x: (u64, W)| #[trigger] map_insert(m, k, w).contains(x) implies m.contains(x) || x == (k, w) by {
        let r = remove_key(m, k);
        let j = choose|j: int| 0 <= j < r.len() + 1 && r.push((k, w))[j] == x;
        if j < r.len() {
            assert(r[j] == x);
            assert(r.contains(x));
        }
    }
}

/// Every pair of `map_union(a, b)` is a pair of `a` or of `b`.
pub proof fn lemma_union_members<W>(a: Seq<(u64, W)>, b: Seq<(u64, W)>)
    ensures
        forall|x: (u64, W)| #[trigger] map_union(a, b).contains(x) ==> a.contains(x) || b.contains(x),
    decreases b.len(),
{
    if b.len() > 0 {
        lemma_union_members(a, b.drop_last());
        lemma_insert_members(map_union(a, b.drop_last()), b.last().0, b.last().1);
        assert forall|x: (u64, W)| #[trigger] map_union(a, b).contains(x) implies a.contains(x) || b.contains(x) by {
            if x == (b.last().0, b.last().1) {
                assert(b[b.len() - 1] == x);
            } else if !a.contains(x) {
                assert(map_union(a, b.drop_last()).contains(x));
                let j = choose|j: int| 0 <= j < b.drop_last().len() && b.drop_last()[j] == x;
                assert(b[j] == x);
            }
        }
    }
}

/// Every pair of `complement(a, b)` is a pair of `a`.
pub proof fn lemma_complement_members<W>(a: Seq<(u64, W)>, b: Seq<(u64, W)>)
    ensures
        forall|x: (u64, W)| #[trigger] complement(a, b).contains(x) ==> a.contains(x),
    decreases a.len(),
{
    if a.len() > 0 {
        lemma_complement_members(a.drop_last(), b);
        let r = complement(a.drop_last(), b);
        assert forall|x: (u64, W)| #[trigger] complement(a, b).contains(x) implies a.contains(x) by {
            if x == a.last() {
                assert(a[a.len() - 1] == x);
            } else {
                assert(r.contains(x));
                let j = choose|j: int| 0 <= j < a.drop_last().len() && a.drop_last()[j] == x;
                assert(a[j] == x);
            }
        }
    }
}

/// Every pair of `shared(a, b)` joins the values of a pair of `a` and a pair
/// of `b`.
pub proof fn lemma_shared_members<W>(a: Seq<(u64, W)>, b: Seq<(u64, W)>)
    ensures
        forall|x: (u64, (W, W))| #[trigger] shared(a, b).contains(x) ==>
            a.contains((x.0, x.1.0)) && b.contains((x.0, x.1.1)),
    decreases b.len(),
{
    if b.len() > 0 {
        lemma_shared_members(a, b.drop_last());
        let r = shared(a, b.drop_last());
        let k = b.last().0;
        lemma_find_from_member(a, k, 0);
        match lookup(a, k) {
            None => {
                assert forall|x: (u64, (W, W))| #[trigger] shared(a, b).contains(x) implies
                    a.contains((x.0, x.1.0)) && b.contains((x.0, x.1.1)) by {
                    let j = choose|j: int| 0 <= j < b.drop_last().len() && b.drop_last()[j] == (x.0, x.1.1);
                    assert(b[j] == (x.0, x.1.1));
                }
            },
            Some(l) => {
                lemma_insert_members(r, k, (l, b.last().1));
                assert forall|x: (u64, (W, W))| #[trigger] shared(a, b).contains(x) implies
                    a.contains((x.0, x.1.0)) && b.contains((x.0, x.1.1)) by {
                    if x == (k, (l, b.last().1)) {
                        assert(b[b.len() - 1] == (x.0, x.1.1));
                    } else {
                        assert(r.contains(x));
                        let j = choose|j: int| 0 <= j < b.drop_last().len() && b.drop_last()[j] == (x.0, x.1.1);
                        assert(b[j] == (x.0, x.1.1));
                    }
                }
            },
        }
    }
}


/// Every value of `m` satisfies `p`.
pub open spec fn all_values<W>(m: Seq<(u64, W)>, p: spec_fn(W) -> bool) -> bool {
    forall|i: int| 0 <= i < m.len() ==> p(#[trigger] m[i].1)
}

/// If every pair of `r` is a pair of `a` or of `b`, and the values of both
/// satisfy `p`, so do the values of `r`.
pub proof fn lemma_all_values_from<W>(r: Seq<(u64, W)>, a: Seq<(u64, W)>, b: Seq<(u64, W)>, p: spec_fn(W) -> bool)
    requires
        all_values(a, p),
        all_values(b, p),
        forall|x: (u64, W)| #[trigger] r.contains(x) ==> a.contains(x) || b.contains(x),
    ensures
        all_values(r, p),
{
    assert forall|i: int| 0 <= i < r.len() implies p(#[trigger] r[i].1) by {
        assert(r.contains(r[i]));
        if a.contains(r[i]) {
            let j = choose|j: int| 0 <= j < a.len() && a[j] == r[i];
            assert(p(a[j].1));
        } else {
            let j = choose|j: int| 0 <= j < b.len() && b[j] == r[i];
            assert(p(b[j].1));
        }
    }
}

/// The values of a union satisfy what the values of both maps satisfy.
pub proof fn lemma_union_all<W>(a: Seq<(u64, W)>, b: Seq<(u64, W)>, p: spec_fn(W) -> bool)
    requires
        all_values(a, p),
        all_values(b, p),
    ensures
        all_values(map_union(a, b), p),
{
    lemma_union_members(a, b);
    lemma_all_values_from(map_union(a, b), a, b, p);
}

/// The values of an insertion satisfy what the map's values and the new one satisfy.
pub proof fn lemma_insert_all<W>(m: Seq<(u64, W)>, k: u64, w: W, p: spec_fn(W) -> bool)
    requires
        all_values(m, p),
        p(w),
    ensures
        all_values(map_insert(m, k, w), p),
{
    lemma_insert_members(m, k, w);
    let single = seq![(k, w)];
    assert(single[0] == (k, w));
    lemma_all_values_from(map_insert(m, k, w), m, single, p);
}

/// The values of a complement satisfy what the values of the first map satisfy.
pub proof fn lemma_complement_all<W>(a: Seq<(u64, W)>, b: Seq<(u64, W)>, p: spec_fn(W) -> bool)
    requires
        all_values(a, p),
    ensures
        all_values(complement(a, b), p),
{
    lemma_complement_members(a, b);
    lemma_all_values_from(complement(a, b), a, a, p);
}

/// The joined values of `shared(a, b)` satisfy what the values of `a` and of
/// `b` satisfy.
pub proof fn lemma_shared_all<W>(a: Seq<(u64, W)>, b: Seq<(u64, W)>, p: spec_fn(W) -> bool)
    requires
        all_values(a, p),
        all_values(b, p),
    ensures
        forall|i: int| 0 <= i < shared(a, b).len() ==>
            p(#[trigger] shared(a, b)[i].1.0) && p(shared(a, b)[i].1.1),
{
    lemma_shared_members(a, b);
    let r = shared(a, b);
    assert forall|i: int| 0 <= i < r.len() implies p(#[trigger] r[i].1.0) && p(r[i].1.1) by {
        assert(r.contains(r[i]));
        let x = r[i];
        let ja = choose|j: int| 0 <= j < a.len() && a[j] == (x.0, x.1.0);
        let jb = choose|j: int| 0 <= j < b.len() && b[j] == (x.0, x.1.1);
        assert(p(a[ja].1));
        assert(p(b[jb].1));
    }
}

/// Looking up in `m` with one more pair at the end: the pair counts only
/// where `m` has no pair with the key.
pub proof fn lemma_find_push<W>(m: Seq<(u64, W)>, x: (u64, W), k: u64, i: int)
    requires
        0 <= i <= m.len(),
    ensures
        find_from(m.push(x), k, i) == (match find_from(m, k, i) {
            Some(w) => Some(w),
            None => if x.0 == k {
                Some(x.1)
            } else {
                None
            },
        }),
    decreases m.len() - i,
{
    if i < m.len() {
        assert(m.push(x)[i] == m[i]);
        lemma_find_push(m, x, k, i + 1);
    } else {
        assert(m.push(x)[i] == x);
        assert(find_from(m.push(x), k, i + 1) is None);
    }
}

/// A lookup after a pair is appended.
pub proof fn lemma_lookup_push<W>(m: Seq<(u64, W)>, x: (u64, W), k: u64)
    ensures
        lookup(m.push(x), k) == (match lookup(m, k) {
            Some(w) => Some(w),
            None => if x.0 == k {
                Some(x.1)
            } else {
                None
            },
        }),
{
    lemma_find_push(m, x, k, 0);
}

/// After the pairs with key `k` are dropped, `k` maps to nothing and every
/// other key to what it mapped to.
pub proof fn lemma_lookup_remove_key<W>(m: Seq<(u64, W)>, k: u64, k2: u64)
    ensures
        lookup(remove_key(m, k), k2) == if k2 == k {
            None
        } else {
            lookup(m, k2)
        },
    decreases m.len(),
{
    if m.len() > 0 {
        let init = m.drop_last();
        lemma_lookup_remove_key(init, k, k2);
        assert(m =~= init.push(m.last()));
        lemma_lookup_push(init, m.last(), k2);
        if m.last().0 != k {
            lemma_lookup_push(remove_key(init, k), m.last(), k2);
        }
    }
}

/// A read after an insertion gives back what was inserted under its key,
/// and leaves every other key as it was.
pub proof fn lemma_lookup_insert<W>(m: Seq<(u64, W)>, k: u64, w: W, k2: u64)
    ensures
        lookup(map_insert(m, k, w), k2) == if k2 == k {
            Some(w)
        } else {
            lookup(m, k2)
        },
{
    lemma_lookup_remove_key(m, k, k2);
    lemma_lookup_push(remove_key(m, k), (k, w), k2);
}

/// No key occurs in two pairs of `m`.
pub open spec fn unique_keys<W>(m: Seq<(u64, W)>) -> bool {
    forall|i: int, j: int| 0 <= i < j < m.len() ==> #[trigger] m[i].0 != #[trigger] m[j].0
}

/// In a map that holds each key once, the last key does not occur before.
proof fn lemma_last_key_new<W>(m: Seq<(u64, W)>)
    requires
        m.len() > 0,
        unique_keys(m),
    ensures
        lookup(m.drop_last(), m.last().0) is None,
        unique_keys(m.drop_last()),
{
    let init = m.drop_last();
    lemma_find_from_member(init, m.last().0, 0);
    if let Some(w) = lookup(init, m.last().0) {
        let j = choose|j: int| 0 <= j < init.len() && init[j] == (m.last().0, w);
        assert(m[j].0 == m[m.len() - 1].0);
    }
    assert forall|i: int, j: int| 0 <= i < j < init.len() implies #[trigger] init[i].0 != #[trigger] init[j].0 by {
        assert(m[i].0 != m[j].0);
    }
}

/// A map that holds each key once keeps doing so after an insertion.
pub proof fn lemma_insert_unique<W>(m: Seq<(u64, W)>, k: u64, w: W)
    requires
        unique_keys(m),
    ensures
        unique_keys(map_insert(m, k, w)),
    decreases m.len(),
{
    lemma_remove_key_unique(m, k);
    let r = remove_key(m, k);
    let n = map_insert(m, k, w);
    assert forall|i: int, j: int| 0 <= i < j < n.len() implies #[trigger] n[i].0 != #[trigger] n[j].0 by {
        if j == r.len() {
            assert(r.contains(r[i]));
        } else {
            assert(r[i].0 != r[j].0);
        }
    }
}

/// Dropping a key keeps every key once, and leaves none with that key.
proof fn lemma_remove_key_unique<W>(m: Seq<(u64, W)>, k: u64)
    requires
        unique_keys(m),
    ensures
        unique_keys(remove_key(m, k)),
        forall|x: (u64, W)| #[trigger] remove_key(m, k).contains(x) ==> x.0 != k,
    decreases m.len(),
{
    if m.len() > 0 {
        let init = m.drop_last();
        lemma_last_key_new(m);
        lemma_remove_key_unique(init, k);
        lemma_remove_key_members(init, k);
        let r = remove_key(init, k);
        if m.last().0 != k {
            let n = r.push(m.last());
            assert forall|i: int, j: int| 0 <= i < j < n.len() implies #[trigger] n[i].0 != #[trigger] n[j].0 by {
                if j == r.len() {
                    assert(r.contains(r[i]));
                    assert(init.contains(r[i]));
                    let q = choose|q: int| 0 <= q < init.len() && init[q] == r[i];
                    assert(m[q].0 != m[m.len() - 1].0);
                } else {
                    assert(r[i].0 != r[j].0);
                }
            }
            assert forall|x: (u64, W)| #[trigger] n.contains(x) implies x.0 != k by {
                let q = choose|q: int| 0 <= q < n.len() && n[q] == x;
                if q < r.len() {
                    assert(r.contains(r[q]));
                }
            }
        }
    }
}

/// A key of the union maps to its value in `b` where `b` holds it, and to
/// its value in `a` otherwise.
pub proof fn lemma_lookup_union<W>(a: Seq<(u64, W)>, b: Seq<(u64, W)>, k: u64)
    requires
        unique_keys(b),
    ensures
        lookup(map_union(a, b), k) == (match lookup(b, k) {
            Some(w) => Some(w),
            None => lookup(a, k),
        }),
    decreases b.len(),
{
    if b.len() > 0 {
        let init = b.drop_last();
        lemma_last_key_new(b);
        lemma_lookup_union(a, init, k);
        lemma_lookup_insert(map_union(a, init), b.last().0, b.last().1, k);
        assert(b =~= init.push(b.last()));
        lemma_lookup_push(init, b.last(), k);
    }
}

/// The complement of `a` by `b` maps the keys of `a` that `b` does not hold,
/// each to its value in `a`, and nothing else.
pub proof fn lemma_lookup_complement<W>(a: Seq<(u64, W)>, b: Seq<(u64, W)>, k: u64)
    ensures
        lookup(complement(a, b), k) == if lookup(b, k) is Some {
            None
        } else {
            lookup(a, k)
        },
    decreases a.len(),
{
    if a.len() > 0 {
        let init = a.drop_last();
        lemma_lookup_complement(init, b, k);
        assert(a =~= init.push(a.last()));
        lemma_lookup_push(init, a.last(), k);
        if lookup(b, a.last().0) is None {
            lemma_lookup_push(complement(init, b), a.last(), k);
        }
    }
}

/// The shared part of `a` and `b` maps exactly the keys that both hold, each
/// to the pair of its value in `a` and its value in `b`.
pub proof fn lemma_lookup_shared<W>(a: Seq<(u64, W)>, b: Seq<(u64, W)>, k: u64)
    requires
        unique_keys(b),
    ensures
        lookup(shared(a, b), k) == (match (lookup(a, k), lookup(b, k)) {
            (Some(x), Some(y)) => Some((x, y)),
            _ => None,
        }),
    decreases b.len(),
{
    if b.len() > 0 {
        let init = b.drop_last();
        let last = b.last();
        lemma_last_key_new(b);
        lemma_lookup_shared(a, init, k);
        assert(b =~= init.push(last));
        lemma_lookup_push(init, last, k);
        if let Some(l) = lookup(a, last.0) {
            lemma_lookup_insert(shared(a, init), last.0, (l, last.1), k);
        }
    }
}

/// A map that holds each key once keeps doing so after the pairs of another
/// map are inserted.
pub proof fn lemma_union_unique<W>(a: Seq<(u64, W)>, b: Seq<(u64, W)>)
    requires
        unique_keys(a),
    ensures
        unique_keys(map_union(a, b)),
    decreases b.len(),
{
    if b.len() > 0 {
        lemma_union_unique(a, b.drop_last());
        lemma_insert_unique(map_union(a, b.drop_last()), b.last().0, b.last().1);
    }
}

/// The complement of a map that holds each key once holds each key once.
pub proof fn lemma_complement_unique<W>(a: Seq<(u64, W)>, b: Seq<(u64, W)>)
    requires
        unique_keys(a),
    ensures
        unique_keys(complement(a, b)),
    decreases a.len(),
{
    if a.len() > 0 {
        let init = a.drop_last();
        lemma_last_key_new(a);
        lemma_complement_unique(init, b);
        lemma_complement_members(init, b);
        let r = complement(init, b);
        if lookup(b, a.last().0) is None {
            let n = r.push(a.last());
            assert forall|i: int, j: int| 0 <= i < j < n.len() implies #[trigger] n[i].0 != #[trigger] n[j].0 by {
                if j == r.len() {
                    assert(r.contains(r[i]));
                    let q = choose|q: int| 0 <= q < init.len() && init[q] == r[i];
                    assert(a[q].0 != a[a.len() - 1].0);
                } else {
                    assert(r[i].0 != r[j].0);
                }
            }
        }
    }
}

/// The shared part of two maps holds each key once.
pub proof fn lemma_shared_unique<W>(a: Seq<(u64, W)>, b: Seq<(u64, W)>)
    ensures
        unique_keys(shared(a, b)),
    decreases b.len(),
{
    if b.len() > 0 {
        lemma_shared_unique(a, b.drop_last());
        if let Some(l) = lookup(a, b.last().0) {
            lemma_insert_unique(shared(a, b.drop_last()), b.last().0, (l, b.last().1));
        }
    }
}

/// Where `find_from` finds a key, from which index on, and with what value.
pub proof fn lemma_find_from_index<W>(m: Seq<(u64, W)>, k: u64, i: int)
    ensures
        find_from(m, k, i) matches Some(w) ==> exists|j: int| i <= j < m.len() && #[trigger] m[j] == (k, w),
        (forall|j: int| i <= j < m.len() ==> #[trigger] m[j].0 != k) ==> find_from(m, k, i) is None,
        0 <= i ==> (find_from(m, k, i) is None ==> forall|j: int| i <= j < m.len() ==> #[trigger] m[j].0 != k),
    decreases m.len() - i,
{
    if 0 <= i < m.len() {
        lemma_find_from_index(m, k, i + 1);
        if m[i].0 == k {
            assert(m[i] == (k, m[i].1));
        }
    }
}

/// In a map that holds each key once, a pair of it is what a lookup finds.
pub proof fn lemma_lookup_member<W>(m: Seq<(u64, W)>, k: u64, w: W)
    requires
        unique_keys(m),
        m.contains((k, w)),
    ensures
        lookup(m, k) == Some(w),
{
    let j = choose|j: int| 0 <= j < m.len() && m[j] == (k, w);
    lemma_find_from_index(m, k, 0);
    lemma_find_from_member(m, k, 0);
    if let Some(v) = lookup(m, k) {
        let q = choose|q: int| 0 <= q < m.len() && #[trigger] m[q] == (k, v);
        if q != j {
            if q < j {
                assert(m[q].0 != m[j].0);
            } else {
                assert(m[j].0 != m[q].0);
            }
        }
    } else {
        assert(m[j].0 == k);
    }
}

/// `acc` with the first value of each pair of `sh`, from index `i` on,
/// inserted under its key, in order.
pub open spec fn insert_firsts<W>(acc: Seq<(u64, W)>, sh: Seq<(u64, (W, W))>, i: int) -> Seq<(u64, W)>
    decreases sh.len() - i,
{
    if i < 0 || i >= sh.len() {
        acc
    } else {
        insert_firsts(map_insert(acc, sh[i].0, sh[i].1.0), sh, i + 1)
    }
}

/// A lookup after the first values of a map of pairs are inserted.
pub proof fn lemma_lookup_insert_firsts<W>(acc: Seq<(u64, W)>, sh: Seq<(u64, (W, W))>, i: int, k: u64)
    requires
        unique_keys(sh),
        0 <= i,
    ensures
        lookup(insert_firsts(acc, sh, i), k) == (match find_from(sh, k, i) {
            Some(x) => Some(x.0),
            None => lookup(acc, k),
        }),
    decreases sh.len() - i,
{
    if i < sh.len() {
        lemma_lookup_insert_firsts(map_insert(acc, sh[i].0, sh[i].1.0), sh, i + 1, k);
        lemma_lookup_insert(acc, sh[i].0, sh[i].1.0, k);
        lemma_find_from_index(sh, k, i + 1);
        if sh[i].0 == k {
            if let Some(x) = find_from(sh, k, i + 1) {
                let j = choose|j: int| i + 1 <= j < sh.len() && #[trigger] sh[j] == (k, x);
                assert(sh[i].0 != sh[j].0);
            }
        }
    }
}

/// Dropping a key that no pair has leaves the map as it is.
pub proof fn lemma_remove_absent<W>(m: Seq<(u64, W)>, k: u64)
    requires
        forall|j: int| 0 <= j < m.len() ==> #[trigger] m[j].0 != k,
    ensures
        remove_key(m, k) == m,
    decreases m.len(),
{
    if m.len() > 0 {
        lemma_remove_absent(m.drop_last(), k);
        assert(m.drop_last().push(m.last()) =~= m);
    }
}

/// Inserting the first values of a map of pairs whose keys `acc` lacks adds
/// one pair per key.
pub proof fn lemma_insert_firsts_len<W>(acc: Seq<(u64, W)>, sh: Seq<(u64, (W, W))>, i: int)
    requires
        unique_keys(sh),
        0 <= i <= sh.len(),
        forall|j: int| i <= j < sh.len() ==> lookup(acc, (#[trigger] sh[j]).0) is None,
    ensures
        insert_firsts(acc, sh, i).len() == acc.len() + sh.len() - i,
    decreases sh.len() - i,
{
    if i < sh.len() {
        let k = sh[i].0;
        assert(lookup(acc, sh[i].0) is None);
        lemma_find_from_index(acc, k, 0);
        lemma_remove_absent(acc, k);
        let next = map_insert(acc, k, sh[i].1.0);
        assert forall|j: int| i + 1 <= j < sh.len() implies lookup(next, (#[trigger] sh[j]).0) is None by {
            lemma_lookup_insert(acc, k, sh[i].1.0, sh[j].0);
            assert(sh[i].0 != sh[j].0);
        }
        lemma_insert_firsts_len(next, sh, i + 1);
    }
}

} // verus!
