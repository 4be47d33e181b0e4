//! Sorted sequences without repeats, the form in which sets of ids are kept.

use vstd::prelude::*;

verus! {

/// A totally ordered key.
pub trait Key: Sized + Copy {
    /// The strict order.
    spec fn before(self, other: Self) -> bool;

    /// Exactly one of `a` before `b`, `a` equal to `b`, `b` before `a`.
    proof fn trichotomy(a: Self, b: Self)
        ensures
            a.before(b) || a == b || b.before(a),
            !(a.before(b) && b.before(a)),
            !a.before(a),
    ;

    proof fn transitive(a: Self, b: Self, c: Self)
        requires
            a.before(b),
            b.before(c),
        ensures
            a.before(c),
    ;

    fn is_before(&self, other: &Self) -> (r: bool)
        ensures
            r == self.before(*other),
    ;
}

impl Key for u32 {
    open spec fn before(self, other: Self) -> bool {
        self < other
    }

    proof fn trichotomy(a: Self, b: Self) {
    }

    proof fn transitive(a: Self, b: Self, c: Self) {
    }

    fn is_before(&self, other: &Self) -> (r: bool) {
        *self < *other
    }
}

impl Key for i32 {
    open spec fn before(self, other: Self) -> bool {
        self < other
    }

    proof fn trichotomy(a: Self, b: Self) {
    }

    proof fn transitive(a: Self, b: Self, c: Self) {
    }

    fn is_before(&self, other: &Self) -> (r: bool) {
        *self < *other
    }
}

/// `s` is strictly increasing: sorted, and nothing occurs twice.
pub open spec fn increasing<K: Key>(s: Seq<K>) -> bool {
    forall|i: int, j: int| 0 <= i < j < s.len() ==> (#[trigger] s[i]).before(#[trigger] s[j])
}

/// An increasing sequence is determined by what it holds.
pub proof fn increasing_is_unique<K: Key>(a: Seq<K>, b: Seq<K>)
    requires
        increasing(a),
        increasing(b),
        forall|k: K| a.contains(k) == b.contains(k),
    ensures
        a == b,
    decreases a.len(),
{
    if a.len() == 0 {
        if b.len() > 0 {
            assert(b.contains(b[0]));
            assert(a.contains(b[0]));
        }
    } else {
        assert(a.contains(a.last()));
        assert(b.contains(a.last()));
        assert(b.len() > 0);
        assert(b.contains(b.last()));
        assert(a.contains(b.last()));
        let i = choose|i: int| 0 <= i < b.len() && b[i] == a.last();
        let j = choose|j: int| 0 <= j < a.len() && a[j] == b.last();
        K::trichotomy(a.last(), b.last());
        assert(a.last() == b.last());
        let a1 = a.drop_last();
        let b1 = b.drop_last();
        assert forall|k: K| a1.contains(k) == b1.contains(k) by {
            if a1.contains(k) {
                let n = choose|n: int| 0 <= n < a1.len() && a1[n] == k;
                assert(a[n] == k);
                assert(a.contains(k));
                assert(b.contains(k));
                let m = choose|m: int| 0 <= m < b.len() && b[m] == k;
                K::trichotomy(k, a.last());
                assert(m != b.len() - 1);
                assert(b1[m] == k);
            }
            if b1.contains(k) {
                let n = choose|n: int| 0 <= n < b1.len() && b1[n] == k;
                assert(b[n] == k);
                assert(b.contains(k));
                assert(a.contains(k));
                let m = choose|m: int| 0 <= m < a.len() && a[m] == k;
                K::trichotomy(k, b.last());
                assert(m != a.len() - 1);
                assert(a1[m] == k);
            }
        }
        increasing_is_unique(a1, b1);
        assert(a == a1.push(a.last()));
        assert(b == b1.push(b.last()));
    }
}

/// The increasing sequence that holds what `s` holds.
pub open spec fn ascending<K: Key>(s: Seq<K>) -> Seq<K> {
    choose|r: Seq<K>|
        #![trigger increasing(r)]
        increasing(r) && forall|k: K| r.contains(k) == s.contains(k)
}

/// An increasing sequence with the members of `s` is the one that [`ascending`] names.
pub proof fn is_ascending<K: Key>(r: Seq<K>, s: Seq<K>)
    requires
        increasing(r),
        forall|k: K| #[trigger] r.contains(k) == s.contains(k),
    ensures
        ascending(s) == r,
{
    let a = ascending(s);
    assert(increasing(a) && forall|k: K| a.contains(k) == s.contains(k));
    increasing_is_unique(a, r);
}

/// Where `k` belongs in the increasing `v`: every entry before the place is before `k`, none from
/// the place on is.
pub fn place_of<K: Key>(v: &Vec<K>, k: &K) -> (r: usize)
    requires
        increasing(v@),
    ensures
        r <= v@.len(),
        forall|i: int| 0 <= i < r ==> (#[trigger] v@[i]).before(*k),
        forall|i: int| r <= i < v@.len() ==> !(#[trigger] v@[i]).before(*k),
{
    let mut lo: usize = 0;
    let mut hi: usize = v.len();
    while lo < hi
        invariant
            lo <= hi <= v@.len(),
            increasing(v@),
            forall|i: int| 0 <= i < lo ==> (#[trigger] v@[i]).before(*k),
            forall|i: int| hi <= i < v@.len() ==> !(#[trigger] v@[i]).before(*k),
        decreases hi - lo,
    {
        let mid: usize = lo + (hi - lo) / 2;
        if v[mid].is_before(k) {
            proof {
                assert forall|i: int| 0 <= i < mid + 1 implies (#[trigger] v@[i]).before(*k) by {
                    if i < mid {
                        K::transitive(v@[i], v@[mid as int], *k);
                    }
                }
            }
            lo = mid + 1;
        } else {
            proof {
                assert forall|i: int| mid <= i < v@.len() implies !(#[trigger] v@[i]).before(*k) by {
                    if i > mid && v@[i].before(*k) {
                        K::transitive(v@[mid as int], v@[i], *k);
                    }
                }
            }
            hi = mid;
        }
    }
    lo
}

/// Where `k` stands in the increasing `v`, if it does.
pub fn search<K: Key>(v: &Vec<K>, k: &K) -> (r: Option<usize>)
    requires
        increasing(v@),
    ensures
        r is Some == v@.contains(*k),
        r matches Some(i) ==> i < v@.len() && v@[i as int] == *k,
{
    let at: usize = place_of(v, k);
    if at < v.len() && !k.is_before(&v[at]) {
        proof {
            K::trichotomy(v@[at as int], *k);
        }
        Some(at)
    } else {
        proof {
            if v@.contains(*k) {
                let i = choose|i: int| 0 <= i < v@.len() && v@[i] == *k;
                K::trichotomy(*k, *k);
                if at < v@.len() {
                    if i > at {
                        K::trichotomy(v@[at as int], *k);
                    }
                }
            }
        }
        None
    }
}

/// Put `k` into the increasing `v`, unless it is there already.
pub fn insert<K: Key>(v: &mut Vec<K>, k: K)
    requires
        increasing(old(v)@),
    ensures
        increasing(final(v)@),
        forall|x: K| #[trigger] final(v)@.contains(x) == (old(v)@.contains(x) || x == k),
        final(v)@.len() <= old(v)@.len() + 1,
        final(v)@.len() >= old(v)@.len(),
{
    let at: usize = place_of(v, &k);
    if at < v.len() && !k.is_before(&v[at]) {
        proof {
            K::trichotomy(v@[at as int], k);
            assert(v@[at as int] == k);
        }
        return;
    }
    let ghost before = v@;
    proof {
        assert forall|i: int| at <= i < before.len() implies k.before(#[trigger] before[i]) by {
            K::trichotomy(before[at as int], k);
            if i > at {
                K::transitive(k, before[at as int], before[i]);
            }
        }
    }
    v.insert(at, k);
    proof {
        let after = v@;
        assert(after == before.insert(at as int, k));
        assert forall|i: int, j: int| 0 <= i < j < after.len() implies (#[trigger] after[i]).before(
            #[trigger] after[j],
        ) by {
            if j == at {
                assert(after[i] == before[i]);
            } else if i == at {
                assert(after[j] == before[j - 1]);
            } else {
                let i0 = if i < at {
                    i
                } else {
                    i - 1
                };
                let j0 = if j < at {
                    j
                } else {
                    j - 1
                };
                assert(after[i] == before[i0]);
                assert(after[j] == before[j0]);
            }
        }
        assert forall|x: K| #[trigger] after.contains(x) == (before.contains(x) || x == k) by {
            if after.contains(x) {
                let i = choose|i: int| 0 <= i < after.len() && after[i] == x;
                if i < at {
                    assert(before[i] == x);
                } else if i > at {
                    assert(before[i - 1] == x);
                }
            }
            if before.contains(x) {
                let i = choose|i: int| 0 <= i < before.len() && before[i] == x;
                if i < at {
                    assert(after[i] == x);
                } else {
                    assert(after[i + 1] == x);
                }
            }
            if x == k {
                assert(after[at as int] == x);
            }
        }
    }
}

/// The entries of `v`, sorted and unique.
pub fn sorted_unique<K: Key>(v: &[K]) -> (r: Vec<K>)
    ensures
        increasing(r@),
        forall|k: K| #[trigger] r@.contains(k) == v@.contains(k),
        r@.len() <= v@.len(),
{
    let mut out: Vec<K> = Vec::new();
    let mut i: usize = 0;
    while i < v.len()
        invariant
            i <= v@.len(),
            increasing(out@),
            out@.len() <= i,
            forall|k: K| #[trigger] out@.contains(k) == v@.take(i as int).contains(k),
        decreases v.len() - i,
    {
        let ghost before = out@;
        insert(&mut out, v[i]);
        proof {
            let t0 = v@.take(i as int);
            let t1 = v@.take(i + 1);
            assert(t1 == t0.push(v@[i as int]));
            assert forall|k: K| #[trigger] out@.contains(k) == t1.contains(k) by {
                assert(before.contains(k) == t0.contains(k));
                if t1.contains(k) {
                    let n = choose|n: int| 0 <= n < t1.len() && t1[n] == k;
                    if n < i {
                        assert(t0[n] == k);
                    }
                }
                if t0.contains(k) {
                    let n = choose|n: int| 0 <= n < t0.len() && t0[n] == k;
                    assert(t1[n] == k);
                }
                if k == v@[i as int] {
                    assert(t1[i as int] == k);
                }
            }
        }
        i += 1;
    }
    proof {
        assert(v@.take(i as int) == v@);
    }
    out
}

} // verus!
