//! Set algebra on `HashSet<u32>`, stated over the sets' views.

use std::collections::HashSet;
use vstd::prelude::*;

verus! {

broadcast use vstd::std_specs::hash::group_hash_axioms;

/// `v` is the one member of `s`.
pub open spec fn is_sole(s: Set<u32>, v: u32) -> bool {
    s.contains(v) && forall|w: u32| s.contains(w) ==> w == v
}

/// The one member of `s`, where `s` has exactly one.
pub open spec fn sole(s: Set<u32>) -> Option<u32> {
    if exists|v: u32| is_sole(s, v) {
        Some(choose|v: u32| is_sole(s, v))
    } else {
        None
    }
}

/// `s` has at least two members.
pub open spec fn several(s: Set<u32>) -> bool {
    exists|v: u32, w: u32| v != w && s.contains(v) && s.contains(w)
}

/// Each element is less than the ones behind it.
pub open spec fn increasing(r: Seq<u32>) -> bool {
    forall|i: int, j: int| 0 <= i < j < r.len() ==> r[i] < r[j]
}

/// The members of `s` below `n`, in ascending order.
pub open spec fn ascending_below(s: Set<u32>, n: nat) -> Seq<u32>
    decreases n,
{
    if n == 0 {
        Seq::empty()
    } else {
        let rest = ascending_below(s, (n - 1) as nat);
        if s.contains((n - 1) as u32) {
            rest.push((n - 1) as u32)
        } else {
            rest
        }
    }
}

/// The members of `s` in ascending order.
pub open spec fn ascending(s: Set<u32>) -> Seq<u32> {
    ascending_below(s, 0x1_0000_0000)
}

/// An increasing sequence of exactly the members of `s` below `n` is
/// `ascending_below(s, n)`.
pub proof fn lemma_ascending(r: Seq<u32>, s: Set<u32>, n: nat)
    requires
        increasing(r),
        n <= 0x1_0000_0000,
        forall|v: u32| r.contains(v) <==> (s.contains(v) && v < n),
    ensures
        r == ascending_below(s, n),
    decreases n,
{
    if n == 0 {
        if r.len() > 0 {
            assert(r.contains(r[0]));
        }
        assert(r =~= Seq::empty());
    } else {
        let top = (n - 1) as u32;
        if s.contains(top) {
            assert(r.contains(top));
            let k = choose|k: int| 0 <= k < r.len() && r[k] == top;
            let last = r.len() - 1;
            if k != last {
                assert(r.contains(r[last]));
                assert(r[k] < r[last]);
            }
            let front = r.drop_last();
            assert forall|v: u32| front.contains(v) <==> (s.contains(v) && v < n - 1) by {
                if front.contains(v) {
                    let j = choose|j: int| 0 <= j < front.len() && front[j] == v;
                    assert(r[j] == v);
                    assert(r.contains(v));
                    assert(r[j] < r[last]);
                }
                if s.contains(v) && v < n - 1 {
                    assert(r.contains(v));
                    let j = choose|j: int| 0 <= j < r.len() && r[j] == v;
                    assert(front[j] == v);
                }
            }
            lemma_ascending(front, s, (n - 1) as nat);
            assert(r =~= front.push(top));
        } else {
            assert forall|v: u32| r.contains(v) <==> (s.contains(v) && v < n - 1) by {}
            lemma_ascending(r, s, (n - 1) as nat);
        }
    }
}

/// The members of `s`, each once, in no particular order.
pub fn elements(s: &HashSet<u32>) -> (r: Vec<u32>)
    ensures
        r@.to_set() == s@,
        r@.no_duplicates(),
        r@.len() == s@.len(),
{
    let mut r: Vec<u32> = Vec::new();
    for x in it: s.iter()
        invariant
            it.seq().unref().to_set() == s@,
            it.seq().unref().no_duplicates(),
            it.seq().len() == s@.len(),
            r@ == it.seq().unref().take(it.index()),
            r@.len() == it.index(),
            r@.no_duplicates(),
            r@.to_set().subset_of(s@),
    {
        proof {
            let all = it.seq().unref();
            assert(all[it.index()] == *x);
            assert(all.contains(*x));
            assert(all.take(it.index() + 1) =~= all.take(it.index()).push(*x));
            lemma_push_to_set(r@, *x);
        }
        r.push(*x);
    }
    proof {
        lemma_view_finite(s);
        r@.unique_seq_to_set();
        vstd::seq_lib::seq_to_set_is_finite(r@);
        vstd::set_lib::lemma_subset_equality(r@.to_set(), s@);
    }
    r
}

/// A view of a hash set is a finite set.
pub proof fn lemma_view_finite(s: &HashSet<u32>)
    ensures
        s@.finite(),
{
    let keys = vstd::std_specs::hash::spec_hash_keys_iter(s);
    let seen = vstd::std_specs::iter::IteratorSpec::remaining(&keys).unref();
    vstd::seq_lib::seq_to_set_is_finite(seen);
}

/// A fresh set with the members of `s`.
pub fn copy_of(s: &HashSet<u32>) -> (r: HashSet<u32>)
    ensures
        r@ == s@,
{
    let items = elements(s);
    let mut r: HashSet<u32> = HashSet::new();
    let mut i: usize = 0;
    while i < items.len()
        invariant
            i <= items.len(),
            r@ == items@.take(i as int).to_set(),
        decreases items.len() - i,
    {
        r.insert(items[i]);
        proof {
            assert(items@.take(i + 1) =~= items@.take(i as int).push(items@[i as int]));
            lemma_push_to_set(items@.take(i as int), items@[i as int]);
        }
        i += 1;
    }
    assert(items@.take(i as int) =~= items@);
    r
}

/// Adds every member of `from` to `into`.
pub fn absorb(into: &mut HashSet<u32>, from: &HashSet<u32>)
    ensures
        final(into)@ == old(into)@.union(from@),
{
    let items = elements(from);
    let mut i: usize = 0;
    while i < items.len()
        invariant
            i <= items.len(),
            into@ == old(into)@.union(items@.take(i as int).to_set()),
        decreases items.len() - i,
    {
        into.insert(items[i]);
        proof {
            assert(items@.take(i + 1) =~= items@.take(i as int).push(items@[i as int]));
            lemma_push_to_set(items@.take(i as int), items@[i as int]);
            assert(into@ =~= old(into)@.union(items@.take(i + 1).to_set()));
        }
        i += 1;
    }
    assert(items@.take(i as int) =~= items@);
}

/// The members of `a` or of `b`.
pub fn union(a: &HashSet<u32>, b: &HashSet<u32>) -> (r: HashSet<u32>)
    ensures
        r@ == a@.union(b@),
{
    let mut r = copy_of(a);
    absorb(&mut r, b);
    r
}

/// The members of `a` that are no members of `b`.
pub fn difference(a: &HashSet<u32>, b: &HashSet<u32>) -> (r: HashSet<u32>)
    ensures
        r@ == a@.difference(b@),
{
    let items = elements(a);
    let mut r: HashSet<u32> = HashSet::new();
    let mut i: usize = 0;
    while i < items.len()
        invariant
            i <= items.len(),
            r@ == items@.take(i as int).to_set().difference(b@),
        decreases items.len() - i,
    {
        if !b.contains(&items[i]) {
            r.insert(items[i]);
        }
        proof {
            assert(items@.take(i + 1) =~= items@.take(i as int).push(items@[i as int]));
            lemma_push_to_set(items@.take(i as int), items@[i as int]);
            assert(r@ =~= items@.take(i + 1).to_set().difference(b@));
        }
        i += 1;
    }
    assert(items@.take(i as int) =~= items@);
    r
}

/// The one member of `s`, where `s` has exactly one.
pub fn only_member(s: &HashSet<u32>) -> (r: Option<u32>)
    ensures
        r == sole(s@),
{
    proof {
        lemma_view_finite(s);
    }
    if s.len() == 1 {
        let items = elements(s);
        let v = items[0];
        proof {
            assert(items@.contains(v));
            assert forall|w: u32| s@.contains(w) implies w == v by {
                assert(items@.contains(w));
            }
            assert(is_sole(s@, v));
        }
        Some(v)
    } else {
        proof {
            if exists|v: u32| is_sole(s@, v) {
                let v = choose|v: u32| is_sole(s@, v);
                assert(s@ =~= Set::empty().insert(v));
            }
        }
        None
    }
}

/// Whether `s` has at least two members.
pub fn has_several(s: &HashSet<u32>) -> (r: bool)
    ensures
        r == several(s@),
{
    proof {
        lemma_view_finite(s);
    }
    if s.len() > 1 {
        let items = elements(s);
        proof {
            assert(items@.contains(items@[0]));
            assert(items@.contains(items@[1]));
            assert(items@[0] != items@[1]);
            assert(s@.contains(items@[0]) && s@.contains(items@[1]));
        }
        true
    } else {
        proof {
            if several(s@) {
                let (v, w) = choose|v: u32, w: u32| v != w && s@.contains(v) && s@.contains(w);
                let one = Set::<u32>::empty().insert(v);
                let pair = one.insert(w);
                assert(one.len() == 1);
                assert(!one.contains(w));
                assert(pair.len() == 2);
                assert(pair.subset_of(s@));
                vstd::set_lib::lemma_len_subset(pair, s@);
            }
        }
        false
    }
}

/// The members of `s` in ascending order.
pub fn sorted(s: &HashSet<u32>) -> (r: Vec<u32>)
    ensures
        r@ == ascending(s@),
{
    let items = elements(s);
    let mut r: Vec<u32> = Vec::new();
    let mut i: usize = 0;
    while i < items.len()
        invariant
            i <= items.len(),
            items@.no_duplicates(),
            increasing(r@),
            forall|v: u32| r@.contains(v) <==> items@.take(i as int).contains(v),
        decreases items.len() - i,
    {
        let x = items[i];
        let ghost before = r@;
        proof {
            if before.contains(x) {
                let seen = items@.take(i as int);
                let j = choose|j: int| 0 <= j < seen.len() && seen[j] == x;
                assert(items@[j] == items@[i as int]);
            }
        }
        let mut p: usize = 0;
        while p < r.len() && r[p] < x
            invariant
                p <= r.len(),
                r@ == before,
                forall|k: int| 0 <= k < p ==> r@[k] < x,
            decreases r.len() - p,
        {
            p += 1;
        }
        r.insert(p, x);
        proof {
            let after = r@;
            let seen = items@.take(i as int);
            let more = items@.take(i + 1);
            assert(after == before.insert(p as int, x));
            assert forall|a: int, b: int| 0 <= a < b < after.len() implies after[a] < after[b] by {
                if b == p {
                    assert(after[a] == before[a]);
                } else if a == p {
                    assert(after[b] == before[b - 1]);
                    assert(before.contains(before[p as int]));
                    if b - 1 > p {
                        assert(before[p as int] < before[b - 1]);
                    }
                } else {
                    let a0 = if a < p { a } else { a - 1 };
                    let b0 = if b < p { b } else { b - 1 };
                    assert(after[a] == before[a0] && after[b] == before[b0]);
                }
            }
            assert forall|v: u32| after.contains(v) <==> more.contains(v) by {
                if after.contains(v) {
                    let k = choose|k: int| 0 <= k < after.len() && after[k] == v;
                    if k == p {
                        assert(more[i as int] == v);
                    } else {
                        let k0 = if k < p { k } else { k - 1 };
                        assert(before[k0] == v);
                        assert(before.contains(v));
                        let j = choose|j: int| 0 <= j < seen.len() && seen[j] == v;
                        assert(more[j] == v);
                    }
                }
                if more.contains(v) {
                    let j = choose|j: int| 0 <= j < more.len() && more[j] == v;
                    if j == i {
                        assert(after[p as int] == v);
                    } else {
                        assert(seen[j] == v);
                        assert(before.contains(v));
                        let k0 = choose|k0: int| 0 <= k0 < before.len() && before[k0] == v;
                        let k = if k0 < p { k0 } else { k0 + 1 };
                        assert(after[k] == v);
                    }
                }
            }
        }
        i += 1;
    }
    proof {
        assert(items@.take(i as int) =~= items@);
        assert forall|v: u32| r@.contains(v) <==> (s@.contains(v) && v < 0x1_0000_0000) by {
            assert(items@.to_set().contains(v) <==> items@.contains(v));
        }
        lemma_ascending(r@, s@, 0x1_0000_0000);
    }
    r
}

/// Pushing onto a sequence inserts into its set of members.
pub proof fn lemma_push_to_set(s: Seq<u32>, v: u32)
    ensures
        s.push(v).to_set() == s.to_set().insert(v),
{
    assert forall|x: u32| #[trigger] s.push(v).to_set().contains(x) <==> s.to_set().insert(v).contains(x) by {
        if s.push(v).contains(x) {
            let j = choose|j: int| 0 <= j < s.push(v).len() && s.push(v)[j] == x;
            if j < s.len() {
                assert(s[j] == x);
            }
        }
        if s.contains(x) {
            let j = choose|j: int| 0 <= j < s.len() && s[j] == x;
            assert(s.push(v)[j] == x);
        }
        assert(s.push(v)[s.len() as int] == v);
    }
    assert(s.push(v).to_set() =~= s.to_set().insert(v));
}

} // verus!
