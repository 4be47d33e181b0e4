//! Sorted lists of names, and counts of names.

use vstd::prelude::*;
use vstd::string::StringExecFns;

use crate::text::chars_of;
use crate::types::texts;

verus! {

/// A name comes before another one: at the first difference by the number of the character, and a
/// name before its continuations.
pub open spec fn before(a: Seq<char>, b: Seq<char>) -> bool
    decreases b.len(),
{
    if b.len() == 0 {
        false
    } else if a.len() == 0 {
        true
    } else {
        a[0] < b[0] || (a[0] == b[0] && before(a.skip(1), b.skip(1)))
    }
}

/// Of two different names exactly one comes before the other, and no name before itself.
pub proof fn order_is_total(a: Seq<char>, b: Seq<char>)
    ensures
        a == b ==> !before(a, b),
        a != b ==> before(a, b) != before(b, a),
    decreases b.len(),
{
    if a.len() == 0 && b.len() == 0 {
        assert(a =~= b);
    } else if a.len() > 0 && b.len() > 0 {
        order_is_total(a.skip(1), b.skip(1));
        if a[0] == b[0] && a.skip(1) == b.skip(1) {
            assert(a =~= seq![a[0]] + a.skip(1));
            assert(b =~= seq![b[0]] + b.skip(1));
        }
        if a.skip(1) != b.skip(1) {
            assert(a != b);
        }
    }
}

/// The order is transitive.
pub proof fn order_is_transitive(a: Seq<char>, b: Seq<char>, c: Seq<char>)
    requires
        before(a, b),
        before(b, c),
    ensures
        before(a, c),
    decreases c.len(),
{
    if a.len() > 0 && b.len() > 0 && c.len() > 0 {
        if a[0] == b[0] && b[0] == c[0] {
            order_is_transitive(a.skip(1), b.skip(1), c.skip(1));
        }
    }
}

/// Whether a name comes before another one.
pub fn is_before(a: &[char], b: &[char]) -> (r: bool)
    ensures
        r == before(a@, b@),
{
    let mut i: usize = 0;
    assert(a@.skip(0) =~= a@);
    assert(b@.skip(0) =~= b@);
    while i < a.len() && i < b.len() && a[i] == b[i]
        invariant
            i <= a@.len(),
            i <= b@.len(),
            before(a@, b@) == before(a@.skip(i as int), b@.skip(i as int)),
        decreases a.len() - i,
    {
        assert(a@.skip(i as int).skip(1) =~= a@.skip(i + 1));
        assert(b@.skip(i as int).skip(1) =~= b@.skip(i + 1));
        i += 1;
    }
    if i >= b.len() {
        false
    } else if i >= a.len() {
        true
    } else {
        a[i] < b[i]
    }
}

/// The names are in order, and none is there twice.
pub open spec fn in_order(v: Seq<Seq<char>>) -> bool {
    forall|i: int, j: int| 0 <= i < j < v.len() ==> before(#[trigger] v[i], #[trigger] v[j])
}

/// A sorted list with a name added, unless it is there already.
pub open spec fn with_name(v: Seq<Seq<char>>, name: Seq<char>) -> Seq<Seq<char>>
    decreases v.len(),
{
    if v.len() == 0 {
        seq![name]
    } else if v[0] == name {
        v
    } else if before(name, v[0]) {
        seq![name] + v
    } else {
        seq![v[0]] + with_name(v.skip(1), name)
    }
}

/// A sorted list stays sorted, and gets the name and nothing else.
pub proof fn name_is_added(v: Seq<Seq<char>>, name: Seq<char>)
    requires
        in_order(v),
    ensures
        in_order(with_name(v, name)),
        forall|x: Seq<char>| #[trigger]
            with_name(v, name).contains(x) <==> v.contains(x) || x == name,
    decreases v.len(),
{
    let w = with_name(v, name);
    if v.len() == 0 {
        assert(w[0] == name);
    } else if v[0] == name {
    } else if before(name, v[0]) {
        assert forall|i: int, j: int| 0 <= i < j < w.len() implies before(
            #[trigger] w[i],
            #[trigger] w[j],
        ) by {
            if i == 0 && j > 1 {
                assert(before(v[0], v[j - 1]));
                order_is_transitive(name, v[0], v[j - 1]);
            } else if i > 0 {
                assert(before(v[i - 1], v[j - 1]));
            }
        }
        assert forall|x: Seq<char>| #[trigger] w.contains(x) <==> v.contains(x) || x == name by {
            if v.contains(x) {
                let k = choose|k: int| 0 <= k < v.len() && v[k] == x;
                assert(w[k + 1] == x);
            }
            if x == name {
                assert(w[0] == x);
            }
        }
    } else {
        let rest = v.skip(1);
        assert(in_order(rest)) by {
            assert forall|i: int, j: int| 0 <= i < j < rest.len() implies before(
                #[trigger] rest[i],
                #[trigger] rest[j],
            ) by {
                assert(before(v[i + 1], v[j + 1]));
            }
        }
        name_is_added(rest, name);
        let tail = with_name(rest, name);
        order_is_total(v[0], name);
        assert forall|i: int, j: int| 0 <= i < j < w.len() implies before(
            #[trigger] w[i],
            #[trigger] w[j],
        ) by {
            if i == 0 {
                assert(tail.contains(tail[j - 1]));
                if tail[j - 1] != name {
                    let k = choose|k: int| 0 <= k < rest.len() && rest[k] == tail[j - 1];
                    assert(before(v[0], v[k + 1]));
                }
            } else {
                assert(before(tail[i - 1], tail[j - 1]));
            }
        }
        assert forall|x: Seq<char>| #[trigger] w.contains(x) <==> v.contains(x) || x == name by {
            if w.contains(x) {
                let k = choose|k: int| 0 <= k < w.len() && w[k] == x;
                if k > 0 {
                    assert(tail[k - 1] == x);
                    assert(tail.contains(x));
                    if rest.contains(x) {
                        let m = choose|m: int| 0 <= m < rest.len() && rest[m] == x;
                        assert(v[m + 1] == x);
                    }
                }
            }
            if v.contains(x) {
                let k = choose|k: int| 0 <= k < v.len() && v[k] == x;
                if k > 0 {
                    assert(rest[k - 1] == x);
                    assert(tail.contains(x));
                    let m = choose|m: int| 0 <= m < tail.len() && tail[m] == x;
                    assert(w[m + 1] == x);
                } else {
                    assert(w[0] == x);
                }
            }
            if x == name {
                assert(tail.contains(x));
                let m = choose|m: int| 0 <= m < tail.len() && tail[m] == x;
                assert(w[m + 1] == x);
            }
        }
    }
}

/// Add a name to a sorted list, unless it is there already.
pub fn add_name(v: &mut Vec<String>, name: &str)
    requires
        in_order(texts(old(v)@)),
    ensures
        texts(final(v)@) == with_name(texts(old(v)@), name@),
        in_order(texts(final(v)@)),
{
    let ghost all = texts(v@);
    proof {
        name_is_added(all, name@);
    }
    let key = chars_of(name);
    let n: usize = v.len();
    let mut i: usize = 0;
    assert(all.skip(0) =~= all);
    assert(all.take(0) + with_name(all, name@) =~= with_name(all, name@));
    while i < n
        invariant
            all == texts(v@),
            n == v@.len(),
            key@ == name@,
            i <= n,
            with_name(all, name@) == all.take(i as int) + with_name(all.skip(i as int), name@),
            in_order(with_name(all, name@)),
            *old(v) == *v,
        decreases n - i,
    {
        let cur = chars_of(v[i].as_str());
        let ghost rest = all.skip(i as int);
        assert(rest[0] == cur@);
        proof {
            order_is_total(name@, cur@);
        }
        if is_before(key.as_slice(), cur.as_slice()) {
            v.insert(i, String::from_str(name));
            assert(texts(v@) =~= all.take(i as int) + (seq![name@] + rest));
            return;
        }
        if !is_before(cur.as_slice(), key.as_slice()) {
            assert(all.take(i as int) + rest =~= all);
            return;
        }
        proof {
            assert(rest.skip(1) =~= all.skip(i + 1));
            assert(all.take(i as int) + (seq![rest[0]] + with_name(all.skip(i + 1), name@))
                =~= all.take(i + 1) + with_name(all.skip(i + 1), name@));
        }
        i += 1;
    }
    v.push(String::from_str(name));
    proof {
        assert(all.skip(i as int) =~= seq![]);
        assert(all.take(i as int) =~= all);
        assert(texts(v@) =~= all + seq![name@]);
    }
}

/// A name and how often it has been counted.
#[derive(Debug)]
pub struct Counted {
    pub name: String,
    pub count: usize,
}

/// What counts are.
pub open spec fn counts(v: Seq<Counted>) -> Seq<(Seq<char>, int)> {
    Seq::new(v.len(), |i: int| (v[i].name@, v[i].count as int))
}

/// Sorted counts with one more of a name.
pub open spec fn one_more(v: Seq<(Seq<char>, int)>, name: Seq<char>) -> Seq<(Seq<char>, int)>
    decreases v.len(),
{
    if v.len() == 0 {
        seq![(name, 1)]
    } else if v[0].0 == name {
        v.update(0, (name, v[0].1 + 1))
    } else if before(name, v[0].0) {
        seq![(name, 1int)] + v
    } else {
        seq![v[0]] + one_more(v.skip(1), name)
    }
}

/// How often a name has been counted.
pub open spec fn count_of(v: Seq<(Seq<char>, int)>, name: Seq<char>) -> int
    decreases v.len(),
{
    if v.len() == 0 {
        0
    } else if v[0].0 == name {
        v[0].1
    } else {
        count_of(v.skip(1), name)
    }
}

/// The names of the counts are in order.
pub open spec fn counts_in_order(v: Seq<(Seq<char>, int)>) -> bool {
    forall|i: int, j: int| 0 <= i < j < v.len() ==> before((#[trigger] v[i]).0, (#[trigger] v[j]).0)
}

/// Counting a name once more adds one to its count and to no other.
pub proof fn counting_adds_one(v: Seq<(Seq<char>, int)>, name: Seq<char>, other: Seq<char>)
    requires
        counts_in_order(v),
    ensures
        count_of(one_more(v, name), other) == count_of(v, other) + (if name == other {
            1int
        } else {
            0int
        }),
    decreases v.len(),
{
    let w = one_more(v, name);
    if v.len() == 0 {
        assert(w.skip(1) =~= seq![]);
        reveal_with_fuel(count_of, 2);
    } else if v[0].0 == name {
        assert(w.skip(1) =~= v.skip(1));
    } else if before(name, v[0].0) {
        assert(w.skip(1) =~= v);
        if name == other {
            not_counted(v, name);
        }
    } else {
        let rest = v.skip(1);
        assert forall|i: int, j: int| 0 <= i < j < rest.len() implies before(
            (#[trigger] rest[i]).0,
            (#[trigger] rest[j]).0,
        ) by {
            assert(before(v[i + 1].0, v[j + 1].0));
        }
        counting_adds_one(rest, name, other);
        assert(w.skip(1) =~= one_more(rest, name));
    }
}

/// A name that comes before all others has not been counted.
proof fn not_counted(v: Seq<(Seq<char>, int)>, name: Seq<char>)
    requires
        counts_in_order(v),
        v.len() > 0 ==> before(name, v[0].0),
    ensures
        count_of(v, name) == 0,
    decreases v.len(),
{
    if v.len() > 0 {
        order_is_total(name, v[0].0);
        let rest = v.skip(1);
        assert forall|i: int, j: int| 0 <= i < j < rest.len() implies before(
            (#[trigger] rest[i]).0,
            (#[trigger] rest[j]).0,
        ) by {
            assert(before(v[i + 1].0, v[j + 1].0));
        }
        if rest.len() > 0 {
            assert(before(v[0].0, v[1].0));
            order_is_transitive(name, v[0].0, rest[0].0);
        }
        not_counted(rest, name);
    }
}

/// Counts stay sorted, and get the name and no other.
pub proof fn counts_stay_in_order(v: Seq<(Seq<char>, int)>, name: Seq<char>)
    requires
        counts_in_order(v),
    ensures
        counts_in_order(one_more(v, name)),
        forall|k: int|
            0 <= k < one_more(v, name).len() ==> (#[trigger] one_more(v, name)[k]).0 == name || exists|
                i: int,
            |
                0 <= i < v.len() && v[i].0 == one_more(v, name)[k].0,
    decreases v.len(),
{
    let w = one_more(v, name);
    if v.len() == 0 {
    } else if v[0].0 == name {
        assert forall|i: int, j: int| 0 <= i < j < w.len() implies before(
            (#[trigger] w[i]).0,
            (#[trigger] w[j]).0,
        ) by {
            assert(before(v[i].0, v[j].0));
        }
        assert forall|k: int| 0 <= k < w.len() implies (#[trigger] w[k]).0 == name || exists|i: int|
            0 <= i < v.len() && v[i].0 == w[k].0 by {
            assert(v[k].0 == w[k].0);
        }
    } else if before(name, v[0].0) {
        assert forall|i: int, j: int| 0 <= i < j < w.len() implies before(
            (#[trigger] w[i]).0,
            (#[trigger] w[j]).0,
        ) by {
            if i == 0 && j > 1 {
                assert(before(v[0].0, v[j - 1].0));
                order_is_transitive(name, v[0].0, v[j - 1].0);
            } else if i > 0 {
                assert(before(v[i - 1].0, v[j - 1].0));
            }
        }
        assert forall|k: int| 0 <= k < w.len() implies (#[trigger] w[k]).0 == name || exists|i: int|
            0 <= i < v.len() && v[i].0 == w[k].0 by {
            if k > 0 {
                assert(v[k - 1].0 == w[k].0);
            }
        }
    } else {
        let rest = v.skip(1);
        assert forall|i: int, j: int| 0 <= i < j < rest.len() implies before(
            (#[trigger] rest[i]).0,
            (#[trigger] rest[j]).0,
        ) by {
            assert(before(v[i + 1].0, v[j + 1].0));
        }
        counts_stay_in_order(rest, name);
        let tail = one_more(rest, name);
        order_is_total(v[0].0, name);
        assert forall|k: int| 0 <= k < w.len() implies (#[trigger] w[k]).0 == name || exists|i: int|
            0 <= i < v.len() && v[i].0 == w[k].0 by {
            if k == 0 {
                assert(v[0].0 == w[0].0);
            } else {
                assert(w[k] == tail[k - 1]);
                if w[k].0 != name {
                    let i = choose|i: int| 0 <= i < rest.len() && rest[i].0 == tail[k - 1].0;
                    assert(v[i + 1].0 == w[k].0);
                }
            }
        }
        assert forall|i: int, j: int| 0 <= i < j < w.len() implies before(
            (#[trigger] w[i]).0,
            (#[trigger] w[j]).0,
        ) by {
            assert(w[j] == tail[j - 1]);
            if i == 0 {
                if tail[j - 1].0 != name {
                    let k = choose|k: int| 0 <= k < rest.len() && rest[k].0 == tail[j - 1].0;
                    assert(before(v[0].0, v[k + 1].0));
                }
            } else {
                assert(w[i] == tail[i - 1]);
                assert(before(tail[i - 1].0, tail[j - 1].0));
            }
        }
    }
}

/// Count a name once more.
pub fn count_name(v: &mut Vec<Counted>, name: &str)
    requires
        counts_in_order(counts(old(v)@)),
        forall|i: int| 0 <= i < old(v)@.len() ==> (#[trigger] old(v)@[i]).count < usize::MAX,
    ensures
        counts(final(v)@) == one_more(counts(old(v)@), name@),
        counts_in_order(counts(final(v)@)),
{
    let ghost all = counts(v@);
    proof {
        counts_stay_in_order(all, name@);
    }
    let key = chars_of(name);
    let n: usize = v.len();
    let mut i: usize = 0;
    assert(all.skip(0) =~= all);
    assert(all.take(0) + one_more(all, name@) =~= one_more(all, name@));
    while i < n
        invariant
            all == counts(v@),
            n == v@.len(),
            key@ == name@,
            i <= n,
            forall|i: int| 0 <= i < v@.len() ==> (#[trigger] v@[i]).count < usize::MAX,
            one_more(all, name@) == all.take(i as int) + one_more(all.skip(i as int), name@),
            counts_in_order(one_more(all, name@)),
            *old(v) == *v,
        decreases n - i,
    {
        let cur = chars_of(v[i].name.as_str());
        let ghost rest = all.skip(i as int);
        assert(rest[0].0 == cur@);
        proof {
            order_is_total(name@, cur@);
        }
        if is_before(key.as_slice(), cur.as_slice()) {
            v.insert(i, Counted { name: String::from_str(name), count: 1 });
            assert(counts(v@) =~= all.take(i as int) + (seq![(name@, 1int)] + rest));
            return;
        }
        if !is_before(cur.as_slice(), key.as_slice()) {
            assert(v@[i as int].count < usize::MAX);
            let c: usize = v[i].count + 1;
            v.set(i, Counted { name: String::from_str(name), count: c });
            assert(counts(v@) =~= all.take(i as int) + rest.update(0, (name@, c as int)));
            return;
        }
        proof {
            assert(rest.skip(1) =~= all.skip(i + 1));
            assert(all.take(i as int) + (seq![rest[0]] + one_more(all.skip(i + 1), name@))
                =~= all.take(i + 1) + one_more(all.skip(i + 1), name@));
        }
        i += 1;
    }
    v.push(Counted { name: String::from_str(name), count: 1 });
    proof {
        assert(all.skip(i as int) =~= seq![]);
        assert(all.take(i as int) =~= all);
        assert(counts(v@) =~= all + seq![(name@, 1int)]);
    }
}

} // verus!
