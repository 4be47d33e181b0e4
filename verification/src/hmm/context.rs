//! Context dependency: which pdf a phone state has in its phonetic context.

use vstd::prelude::*;

use crate::order::{ascending, increasing, insert, is_ascending, Key};
use crate::tree::{
    answer, answers, lookup, max_leaf, max_leaf_of_first, settled, settled_answers_are_the_answer,
    EventMap, Tree,
};
use crate::types::{PdfId, PhoneId};

verus! {

/// The event key of the pdf-class. It sorts before every context position.
pub const PDF_CLASS_KEY: i32 = -1;

/// Maps a window of phones and a pdf-class to a pdf.
///
/// Monophone systems use `n = 1, p = 0`; triphone systems `n = 3, p = 1`.
#[derive(Debug)]
pub struct ContextDependency {
    /// The width of the window.
    pub n: usize,
    /// The central position within it.
    pub p: usize,
    pub map: EventMap,
}

/// The event of a whole window: the pdf-class, then the phone at each position.
pub open spec fn window_event(window: Seq<PhoneId>, pdf_class: i32) -> Seq<(i32, i32)> {
    seq![(PDF_CLASS_KEY, pdf_class)] + Seq::new(window.len(), |i: int| (i as i32, window[i] as i32))
}

/// The event that fixes the pdf-class and the central phone only.
pub open spec fn central_event(p: usize, phone: PhoneId, pdf_class: i32) -> Seq<(i32, i32)> {
    if (p as i32) < PDF_CLASS_KEY || (p as i32 == PDF_CLASS_KEY && (phone as i32) < pdf_class) {
        seq![(p as i32, phone as i32), (PDF_CLASS_KEY, pdf_class)]
    } else {
        seq![(PDF_CLASS_KEY, pdf_class), (p as i32, phone as i32)]
    }
}

/// `f` answers for `phone`, and always the same.
pub open spec fn counts<F: Fn(PhoneId) -> usize>(f: F, phone: PhoneId) -> bool {
    &&& call_requires(f, (phone,))
    &&& forall|a: usize, b: usize| #[trigger]
        call_ensures(f, (phone,), a) && #[trigger] call_ensures(f, (phone,), b) ==> a == b
}

/// What `f` answers for `phone`.
pub open spec fn count_of<F: Fn(PhoneId) -> usize>(f: F, phone: PhoneId) -> usize {
    choose|r: usize| call_ensures(f, (phone,), r)
}

/// The phones of each set as sequences.
pub open spec fn rows<T>(sets: Seq<Vec<T>>) -> Seq<Seq<T>> {
    Seq::new(sets.len(), |i: int| sets[i]@)
}

/// A `(phone, pdf-class)` pair, ordered by phone and then by class.
#[derive(Clone, Copy, Debug, PartialEq, Eq, Structural)]
pub struct PhoneClass {
    pub phone: PhoneId,
    pub class: i32,
}

impl Key for PhoneClass {
    open spec fn before(self, other: Self) -> bool {
        self.phone < other.phone || (self.phone == other.phone && self.class < other.class)
    }

    proof fn trichotomy(a: Self, b: Self) {
    }

    proof fn transitive(a: Self, b: Self, c: Self) {
    }

    fn is_before(&self, other: &Self) -> (r: bool) {
        self.phone < other.phone || (self.phone == other.phone && self.class < other.class)
    }
}

/// The pairs as [`PhoneClass`] values.
pub open spec fn as_pairs(s: Seq<(PhoneId, i32)>) -> Seq<PhoneClass> {
    Seq::new(s.len(), |i: int| PhoneClass { phone: s[i].0, class: s[i].1 })
}

/// One of the first `upto` phones has this pair, whose central event can lead to `pdf`.
pub open spec fn offers(
    t: Tree,
    p: usize,
    phones: Seq<PhoneId>,
    num_classes: Seq<usize>,
    upto: int,
    pdf: int,
    pair: PhoneClass,
) -> bool {
    exists|k: int|
        0 <= k < upto && (#[trigger] phones[k]) == pair.phone && 0 <= pair.class < num_classes[k] as i32
            && answers(t, central_event(p, pair.phone, pair.class)).contains(pdf as u32)
}

/// How many pdfs the tree can name: one more than its largest leaf.
pub open spec fn pdf_count(t: Tree) -> nat {
    (max_leaf(t) + 1) as nat
}

/// How many leaves a set of phones with these class counts gets: one per pdf-class of its longest
/// phone, or a single one if its states share a root.
pub open spec fn leaves_of(counts: Seq<usize>, shared: bool) -> int {
    if shared {
        1
    } else {
        longest(counts)
    }
}

/// The largest count, or 0 if there is none.
pub open spec fn longest(counts: Seq<usize>) -> int
    decreases counts.len(),
{
    if counts.len() == 0 {
        0
    } else {
        let rest = longest(counts.drop_last());
        if counts.last() > rest {
            counts.last() as int
        } else {
            rest
        }
    }
}

/// The leaves of the first `k` sets together.
pub open spec fn leaves_before(counts: Seq<Seq<usize>>, shared: Seq<bool>, k: int) -> int
    decreases k,
{
    if k <= 0 {
        0
    } else {
        leaves_before(counts, shared, k - 1) + leaves_of(counts[k - 1], shared[k - 1])
    }
}

/// The tree of one phone set whose first leaf is `first`.
pub open spec fn root_tree(counts: Seq<usize>, shared: bool, first: int) -> Tree {
    if shared {
        Tree::Constant(first as u32)
    } else {
        Tree::Table {
            key: PDF_CLASS_KEY,
            table: Seq::new(longest(counts) as nat, |i: int| Tree::Constant((first + i) as u32)),
        }
    }
}

/// The largest size of a set.
pub open spec fn max_size(sets: Seq<Seq<PhoneId>>) -> int
    decreases sets.len(),
{
    if sets.len() == 0 {
        0
    } else {
        let rest = max_size(sets.drop_last());
        if sets.last().len() > rest {
            sets.last().len() as int
        } else {
            rest
        }
    }
}

/// The largest phone of a set, or 0.
pub open spec fn max_phone(set: Seq<PhoneId>) -> int
    decreases set.len(),
{
    if set.len() == 0 {
        0
    } else {
        let rest = max_phone(set.drop_last());
        if set.last() > rest {
            set.last() as int
        } else {
            rest
        }
    }
}

/// The largest phone of any set, or 0.
pub open spec fn highest(sets: Seq<Seq<PhoneId>>) -> int
    decreases sets.len(),
{
    if sets.len() == 0 {
        0
    } else {
        let rest = highest(sets.drop_last());
        if max_phone(sets.last()) > rest {
            max_phone(sets.last())
        } else {
            rest
        }
    }
}

/// All phones of the sets, set after set.
pub open spec fn concatenated(sets: Seq<Seq<PhoneId>>) -> Seq<PhoneId>
    decreases sets.len(),
{
    if sets.len() == 0 {
        Seq::empty()
    } else {
        concatenated(sets.drop_last()) + sets.last()
    }
}

/// The phones as event values.
pub open spec fn as_values(phones: Seq<PhoneId>) -> Seq<i32> {
    Seq::new(phones.len(), |i: int| phones[i] as i32)
}

/// The sets are indexed by phone rather than split: every set has one phone at most, and the
/// table would not be too sparse.
pub open spec fn tabular(sets: Seq<Seq<PhoneId>>) -> bool {
    max_size(sets) == 1 && sets.len() <= 2 * highest(sets)
}

/// The set whose only phone is `phone`.
pub open spec fn set_of(sets: Seq<Seq<PhoneId>>, phone: int) -> int {
    choose|i: int| 0 <= i < sets.len() && (#[trigger] sets[i]).len() == 1 && sets[i][0] == phone
}

/// Some set has `phone` as its only phone.
pub open spec fn is_set_of(sets: Seq<Seq<PhoneId>>, phone: int) -> bool {
    exists|i: int| 0 <= i < sets.len() && (#[trigger] sets[i]).len() == 1 && sets[i][0] == phone
}

/// The unsplit tree over the phone sets, whose leaves are numbered from `first` on, set after set.
pub open spec fn stub_tree(
    p: usize,
    sets: Seq<Seq<PhoneId>>,
    counts: Seq<Seq<usize>>,
    shared: Seq<bool>,
    first: int,
) -> Tree
    decreases sets.len(),
{
    if sets.len() <= 1 {
        root_tree(counts[0], shared[0], first)
    } else if tabular(sets) {
        Tree::Table {
            key: p as i32,
            table: Seq::new(
                (highest(sets) + 1) as nat,
                |phone: int|
                    if is_set_of(sets, phone) {
                        let i = set_of(sets, phone);
                        root_tree(counts[i], shared[i], first + leaves_before(counts, shared, i))
                    } else {
                        Tree::Missing
                    },
            ),
        }
    } else {
        let half = (sets.len() / 2) as int;
        Tree::Split {
            key: p as i32,
            yes_set: ascending(as_values(concatenated(sets.take(half)))),
            yes: Box::new(
                stub_tree(p, sets.take(half), counts.take(half), shared.take(half), first),
            ),
            no: Box::new(
                stub_tree(
                    p,
                    sets.skip(half),
                    counts.skip(half),
                    shared.skip(half),
                    first + leaves_before(counts, shared, half),
                ),
            ),
        }
    }
}

/// Every phone of a set that does not share its root has a pdf-class.
pub open spec fn root_fits(counts: Seq<usize>, shared: bool) -> bool {
    shared || forall|j: int| 0 <= j < counts.len() ==> #[trigger] counts[j] > 0
}

/// A tree can be built over the sets: there is one at least, every root fits, a table is indexed
/// by one phone per set and by no phone twice, and a split has no phone twice on its first side.
pub open spec fn fits(
    sets: Seq<Seq<PhoneId>>,
    counts: Seq<Seq<usize>>,
    shared: Seq<bool>,
) -> bool
    decreases sets.len(),
{
    if sets.len() == 0 {
        false
    } else if sets.len() == 1 {
        root_fits(counts[0], shared[0])
    } else if tabular(sets) {
        &&& forall|i: int| 0 <= i < sets.len() ==> (#[trigger] sets[i]).len() == 1
        &&& forall|i: int, j: int|
            0 <= i < j < sets.len() ==> (#[trigger] sets[i])[0] != (#[trigger] sets[j])[0]
        &&& forall|i: int| 0 <= i < sets.len() ==> root_fits(#[trigger] counts[i], shared[i])
    } else {
        let half = (sets.len() / 2) as int;
        &&& fits(sets.take(half), counts.take(half), shared.take(half))
        &&& fits(sets.skip(half), counts.skip(half), shared.skip(half))
        &&& as_values(concatenated(sets.take(half))).no_duplicates()
    }
}

/// The three lists run parallel, and a set without a shared root has a count for each phone.
pub open spec fn parallel(
    sets: Seq<Seq<PhoneId>>,
    counts: Seq<Seq<usize>>,
    shared: Seq<bool>,
) -> bool {
    &&& counts.len() == sets.len()
    &&& shared.len() == sets.len()
    &&& forall|i: int|
        0 <= i < sets.len() && !shared[i] ==> (#[trigger] counts[i]).len() == sets[i].len()
}

proof fn leaves_before_is_additive(counts: Seq<Seq<usize>>, shared: Seq<bool>, half: int, k: int)
    requires
        0 <= half <= counts.len(),
        counts.len() == shared.len(),
        0 <= k <= counts.len() - half,
    ensures
        leaves_before(counts, shared, half + k) == leaves_before(counts, shared, half)
            + leaves_before(counts.skip(half), shared.skip(half), k),
    decreases k,
{
    if k > 0 {
        leaves_before_is_additive(counts, shared, half, k - 1);
        assert(counts.skip(half)[k - 1] == counts[half + k - 1]);
        assert(shared.skip(half)[k - 1] == shared[half + k - 1]);
    }
}

proof fn leaves_before_of_prefix(counts: Seq<Seq<usize>>, shared: Seq<bool>, half: int, k: int)
    requires
        0 <= k <= half <= counts.len(),
        counts.len() == shared.len(),
    ensures
        leaves_before(counts.take(half), shared.take(half), k) == leaves_before(counts, shared, k),
    decreases k,
{
    if k > 0 {
        leaves_before_of_prefix(counts, shared, half, k - 1);
    }
}

proof fn leaves_before_grows(counts: Seq<Seq<usize>>, shared: Seq<bool>, i: int, j: int)
    requires
        0 <= i <= j,
    ensures
        0 <= leaves_before(counts, shared, i) <= leaves_before(counts, shared, j),
    decreases j,
{
    if j > 0 {
        longest_is_natural(counts[j - 1]);
        if i < j {
            leaves_before_grows(counts, shared, i, j - 1);
        } else {
            leaves_before_grows(counts, shared, i - 1, j - 1);
        }
    }
}

proof fn longest_is_natural(counts: Seq<usize>)
    ensures
        longest(counts) >= 0,
    decreases counts.len(),
{
    if counts.len() > 0 {
        longest_is_natural(counts.drop_last());
    }
}

proof fn longest_bounds(counts: Seq<usize>, i: int)
    requires
        0 <= i < counts.len(),
    ensures
        counts[i] <= longest(counts),
    decreases counts.len(),
{
    if i < counts.len() - 1 {
        longest_bounds(counts.drop_last(), i);
    }
}

proof fn highest_bounds(sets: Seq<Seq<PhoneId>>, i: int, j: int)
    requires
        0 <= i < sets.len(),
        0 <= j < sets[i].len(),
    ensures
        sets[i][j] <= highest(sets),
    decreases sets.len(),
{
    if i < sets.len() - 1 {
        highest_bounds(sets.drop_last(), i, j);
    } else {
        max_phone_bounds(sets[i], j);
    }
}

proof fn max_phone_bounds(set: Seq<PhoneId>, j: int)
    requires
        0 <= j < set.len(),
    ensures
        set[j] <= max_phone(set),
    decreases set.len(),
{
    if j < set.len() - 1 {
        max_phone_bounds(set.drop_last(), j);
    }
}

proof fn concatenated_members(sets: Seq<Seq<PhoneId>>, phone: PhoneId)
    ensures
        concatenated(sets).contains(phone) == exists|i: int|
            0 <= i < sets.len() && (#[trigger] sets[i]).contains(phone),
    decreases sets.len(),
{
    if sets.len() > 0 {
        let front = sets.drop_last();
        concatenated_members(front, phone);
        let a = concatenated(front);
        let whole = concatenated(sets);
        if whole.contains(phone) {
            let k = choose|k: int| 0 <= k < whole.len() && whole[k] == phone;
            if k < a.len() {
                assert(a[k] == phone);
                let i = choose|i: int| 0 <= i < front.len() && (#[trigger] front[i]).contains(phone);
                assert(sets[i].contains(phone));
            } else {
                assert(sets.last()[k - a.len()] == phone);
                assert(sets[sets.len() - 1].contains(phone));
            }
        }
        if exists|i: int| 0 <= i < sets.len() && (#[trigger] sets[i]).contains(phone) {
            let i = choose|i: int| 0 <= i < sets.len() && (#[trigger] sets[i]).contains(phone);
            if i < front.len() {
                assert(front[i].contains(phone));
                let k = choose|k: int| 0 <= k < a.len() && a[k] == phone;
                assert(whole[k] == phone);
            } else {
                let k = choose|k: int| 0 <= k < sets[i].len() && sets[i][k] == phone;
                assert(whole[a.len() + k] == phone);
            }
        }
    }
}

/// No two of the sets share a phone.
pub open spec fn disjoint(sets: Seq<Seq<PhoneId>>) -> bool {
    forall|i: int, j: int, phone: PhoneId|
        0 <= i < j < sets.len() && #[trigger] sets[i].contains(phone) ==> !#[trigger] sets[j].contains(
            phone,
        )
}

/// The leaves of an unsplit tree over disjoint phone sets are numbered set after set, and within a
/// set class after class: a phone of set `i` in pdf-class `c` has leaf
/// `first + (leaves of the sets before i) + c`, one whose root is shared has the first of these
/// for every class, and a class that no phone of the set has gets no answer.
pub proof fn stub_leaves_are_contiguous(
    p: usize,
    sets: Seq<Seq<PhoneId>>,
    counts: Seq<Seq<usize>>,
    shared: Seq<bool>,
    first: int,
    event: Seq<(i32, i32)>,
    i: int,
    phone: PhoneId,
    class: i32,
)
    requires
        parallel(sets, counts, shared),
        fits(sets, counts, shared),
        disjoint(sets),
        0 <= first,
        first + leaves_before(counts, shared, sets.len() as int) <= u32::MAX,
        forall|k: int, j: int|
            0 <= k < sets.len() && 0 <= j < sets[k].len() ==> #[trigger] sets[k][j] <= i32::MAX,
        0 <= i < sets.len(),
        sets[i].contains(phone),
        class >= 0,
        lookup(event, p as i32) == Some(phone as i32),
        lookup(event, PDF_CLASS_KEY) == Some(class),
    ensures
        answer(stub_tree(p, sets, counts, shared, first), event) == (if shared[i] {
            Some((first + leaves_before(counts, shared, i)) as u32)
        } else if class < longest(counts[i]) {
            Some((first + leaves_before(counts, shared, i) + class) as u32)
        } else {
            None
        }),
    decreases sets.len(),
{
    reveal_with_fuel(answer, 3);
    let tree = stub_tree(p, sets, counts, shared, first);
    if sets.len() <= 1 {
    } else if tabular(sets) {
        let j = set_of(sets, phone as int);
        assert(sets[i].len() == 1 && sets[i][0] == phone);
        assert(is_set_of(sets, phone as int));
        assert(sets[j][0] == phone);
        assert(i == j);
        highest_bounds(sets, i, 0);
        assert(tree->table[phone as int] == root_tree(
            counts[i],
            shared[i],
            first + leaves_before(counts, shared, i),
        ));
    } else {
        let half = (sets.len() / 2) as int;
        let yes = sets.take(half);
        let no = sets.skip(half);
        let values = as_values(concatenated(yes));
        let yes_set = ascending(values);
        leaves_before_of_prefix(counts, shared, half, half);
        leaves_before_is_additive(counts, shared, half, sets.len() - half);
        leaves_before_grows(counts, shared, half, sets.len() as int);
        assert forall|k: int, j: int|
            0 <= k < yes.len() && 0 <= j < yes[k].len() implies #[trigger] yes[k][j] <= i32::MAX by {
            assert(sets[k][j] <= i32::MAX);
        }
        assert forall|k: int, j: int|
            0 <= k < no.len() && 0 <= j < no[k].len() implies #[trigger] no[k][j] <= i32::MAX by {
            assert(sets[k + half][j] <= i32::MAX);
        }
        assert(disjoint(yes)) by {
            assert forall|a: int, b: int, q: PhoneId|
                0 <= a < b < yes.len() && #[trigger] yes[a].contains(q) implies !#[trigger] yes[b].contains(
                q,
            ) by {
                assert(sets[a].contains(q));
            }
        }
        assert(disjoint(no)) by {
            assert forall|a: int, b: int, q: PhoneId|
                0 <= a < b < no.len() && #[trigger] no[a].contains(q) implies !#[trigger] no[b].contains(
                q,
            ) by {
                assert(sets[a + half].contains(q));
                assert(!sets[b + half].contains(q));
            }
        }
        assert(parallel(yes, counts.take(half), shared.take(half)));
        assert(parallel(no, counts.skip(half), shared.skip(half))) by {
            assert forall|k: int| 0 <= k < no.len() && !shared.skip(half)[k] implies (
            #[trigger] counts.skip(half)[k]).len() == no[k].len() by {
                assert(counts[k + half].len() == sets[k + half].len());
            }
        }
        ascending_members(values);
        concatenated_members(yes, phone);
        assert(yes_set.contains(phone as i32) == (i < half)) by {
            if i < half {
                assert(yes[i].contains(phone));
                let c = concatenated(yes);
                let k = choose|k: int| 0 <= k < c.len() && c[k] == phone;
                assert(values[k] == phone as i32);
            }
            if values.contains(phone as i32) {
                let c = concatenated(yes);
                let k = choose|k: int| 0 <= k < values.len() && values[k] == phone as i32;
                let other = c[k];
                assert(c.contains(other));
                concatenated_members(yes, other);
                let a = choose|a: int| 0 <= a < yes.len() && (#[trigger] yes[a]).contains(other);
                let b = choose|b: int| 0 <= b < yes[a].len() && yes[a][b] == other;
                assert(sets[a][b] <= i32::MAX);
                let e = choose|e: int| 0 <= e < sets[i].len() && sets[i][e] == phone;
                assert(sets[i][e] <= i32::MAX);
                assert(other == phone);
                assert(sets[a].contains(phone));
            }
        }
        if i < half {
            leaves_before_of_prefix(counts, shared, half, i);
            stub_leaves_are_contiguous(
                p,
                yes,
                counts.take(half),
                shared.take(half),
                first,
                event,
                i,
                phone,
                class,
            );
        } else {
            leaves_before_is_additive(counts, shared, half, i - half);
            assert(no[i - half].contains(phone));
            stub_leaves_are_contiguous(
                p,
                no,
                counts.skip(half),
                shared.skip(half),
                first + leaves_before(counts, shared, half),
                event,
                i - half,
                phone,
                class,
            );
        }
    }
}

/// The ascending sequence of values without repeats exists and holds the same values.
proof fn ascending_members(s: Seq<i32>)
    ensures
        increasing(ascending(s)),
        forall|k: i32| #[trigger] ascending(s).contains(k) == s.contains(k),
{
    let r = sort_out(s);
    is_ascending(r, s);
}

proof fn sort_out(s: Seq<i32>) -> (r: Seq<i32>)
    ensures
        increasing(r),
        forall|k: i32| #[trigger] r.contains(k) == s.contains(k),
    decreases s.len(),
{
    if s.len() == 0 {
        s
    } else {
        let q = sort_out(s.drop_last());
        let x = s.last();
        let r = if q.contains(x) {
            q
        } else {
            put_in(q, x)
        };
        assert forall|k: i32| #[trigger] r.contains(k) == s.contains(k) by {
            assert(q.contains(k) == s.drop_last().contains(k));
            if s.contains(k) {
                let i = choose|i: int| 0 <= i < s.len() && s[i] == k;
                if i < s.len() - 1 {
                    assert(s.drop_last()[i] == k);
                }
            }
            if s.drop_last().contains(k) {
                let i = choose|i: int| 0 <= i < s.drop_last().len() && s.drop_last()[i] == k;
                assert(s[i] == k);
            }
            assert(s[s.len() - 1] == x);
        }
        r
    }
}

proof fn put_in(q: Seq<i32>, x: i32) -> (r: Seq<i32>)
    requires
        increasing(q),
        !q.contains(x),
    ensures
        increasing(r),
        forall|k: i32| #[trigger] r.contains(k) == (q.contains(k) || k == x),
    decreases q.len(),
{
    if q.len() == 0 || q.last() < x {
        let r = q.push(x);
        assert forall|k: i32| #[trigger] r.contains(k) == (q.contains(k) || k == x) by {
            if q.contains(k) {
                let i = choose|i: int| 0 <= i < q.len() && q[i] == k;
                assert(r[i] == k);
            }
            assert(r[q.len() as int] == x);
        }
        r
    } else {
        assert(q[q.len() - 1] != x);
        let front = q.drop_last();
        assert(!front.contains(x)) by {
            if front.contains(x) {
                let i = choose|i: int| 0 <= i < front.len() && front[i] == x;
                assert(q[i] == x);
            }
        }
        let s = put_in(front, x);
        let r = s.push(q.last());
        assert forall|k: i32| #[trigger] r.contains(k) == (q.contains(k) || k == x) by {
            assert(s.contains(k) == (front.contains(k) || k == x));
            if r.contains(k) {
                let i = choose|i: int| 0 <= i < r.len() && r[i] == k;
                if i < s.len() {
                    assert(s[i] == k);
                    if front.contains(k) {
                        let j = choose|j: int| 0 <= j < front.len() && front[j] == k;
                        assert(q[j] == k);
                    }
                } else {
                    assert(q[q.len() - 1] == k);
                }
            }
            if q.contains(k) {
                let i = choose|i: int| 0 <= i < q.len() && q[i] == k;
                if i < front.len() {
                    assert(front[i] == k);
                    let j = choose|j: int| 0 <= j < s.len() && s[j] == k;
                    assert(r[j] == k);
                } else {
                    assert(r[s.len() as int] == k);
                }
            }
            if k == x {
                let j = choose|j: int| 0 <= j < s.len() && s[j] == k;
                assert(r[j] == k);
            }
        }
        assert forall|i: int| 0 <= i < s.len() implies #[trigger] s[i] < q.last() by {
            assert(s.contains(s[i]));
            if front.contains(s[i]) {
                let j = choose|j: int| 0 <= j < front.len() && front[j] == s[i];
                assert(q[j].before(q[q.len() - 1]));
            }
        }
        r
    }
}

/// The class counts that `f` gives: one for each phone of a set that does not share its root.
pub open spec fn count_rows<F: Fn(PhoneId) -> usize>(
    f: F,
    sets: Seq<Seq<PhoneId>>,
    shared: Seq<bool>,
) -> Seq<Seq<usize>> {
    Seq::new(
        sets.len(),
        |i: int|
            if shared[i] {
                Seq::empty()
            } else {
                Seq::new(sets[i].len(), |j: int| count_of(f, sets[i][j]))
            },
    )
}

/// The tree that a table entry stands for.
spec fn entry_tree(entry: Option<Box<EventMap>>) -> Tree {
    match entry {
        Some(m) => m.tree(),
        None => Tree::Missing,
    }
}

/// The tree of one phone set, and the first leaf that it leaves unused.
fn root(counts: &Vec<usize>, shared: bool, first: PdfId) -> (r: (EventMap, PdfId))
    requires
        first + leaves_of(counts@, shared) <= u32::MAX,
    ensures
        r.0.tree() == root_tree(counts@, shared, first as int),
        r.1 == first + leaves_of(counts@, shared),
{
    if shared {
        return (EventMap::Constant(first), first + 1);
    }
    let mut max_len: usize = 0;
    let mut i: usize = 0;
    while i < counts.len()
        invariant
            i <= counts@.len(),
            max_len == longest(counts@.take(i as int)),
        decreases counts.len() - i,
    {
        proof {
            assert(counts@.take(i + 1).drop_last() == counts@.take(i as int));
        }
        if counts[i] > max_len {
            max_len = counts[i];
        }
        i += 1;
    }
    proof {
        assert(counts@.take(i as int) == counts@);
    }
    let mut table: Vec<Option<Box<EventMap>>> = Vec::new();
    let mut next: PdfId = first;
    let mut k: usize = 0;
    while k < max_len
        invariant
            k <= max_len,
            first + max_len <= u32::MAX,
            next == first + k,
            table@.len() == k,
            forall|j: int|
                0 <= j < k ==> entry_tree(#[trigger] table@[j]) == Tree::Constant(
                    (first + j) as u32,
                ),
        decreases max_len - k,
    {
        let leaf = EventMap::Constant(next);
        assert(leaf.tree() == Tree::Constant(next));
        table.push(Some(Box::new(leaf)));
        next += 1;
        k += 1;
    }
    let map = EventMap::Table { key: PDF_CLASS_KEY, table };
    proof {
        let want = root_tree(counts@, shared, first as int);
        assert forall|j: int| 0 <= j < max_len implies (#[trigger] map.tree()->table[j])
            == want->table[j] by {
            assert(entry_tree(table@[j]) == Tree::Constant((first + j) as u32));
        }
        assert(map.tree()->table =~= want->table);
    }
    (map, next)
}

/// The largest set size and the largest phone of the sets from `lo` to `hi`.
fn extent(sets: &[Vec<PhoneId>], lo: usize, hi: usize) -> (r: (usize, PhoneId))
    requires
        lo <= hi <= sets@.len(),
    ensures
        r.0 == max_size(rows(sets@).subrange(lo as int, hi as int)),
        r.1 == highest(rows(sets@).subrange(lo as int, hi as int)),
{
    let ghost all = rows(sets@);
    let mut size: usize = 0;
    let mut top: PhoneId = 0;
    let mut i: usize = lo;
    while i < hi
        invariant
            lo <= i <= hi <= sets@.len(),
            all == rows(sets@),
            size == max_size(all.subrange(lo as int, i as int)),
            top == highest(all.subrange(lo as int, i as int)),
        decreases hi - i,
    {
        let set = &sets[i];
        proof {
            let longer = all.subrange(lo as int, i + 1);
            assert(longer.drop_last() == all.subrange(lo as int, i as int));
            assert(longer.last() == set@);
        }
        if set.len() > size {
            size = set.len();
        }
        let mut best: PhoneId = 0;
        let mut j: usize = 0;
        while j < set.len()
            invariant
                j <= set@.len(),
                best == max_phone(set@.take(j as int)),
            decreases set.len() - j,
        {
            proof {
                assert(set@.take(j + 1).drop_last() == set@.take(j as int));
            }
            if set[j] > best {
                best = set[j];
            }
            j += 1;
        }
        proof {
            assert(set@.take(j as int) == set@);
        }
        if best > top {
            top = best;
        }
        i += 1;
    }
    (size, top)
}

/// The phones of the sets from `lo` to `hi` as sorted event values.
fn value_set(sets: &[Vec<PhoneId>], lo: usize, hi: usize) -> (r: Vec<i32>)
    requires
        lo <= hi <= sets@.len(),
    ensures
        r@ == ascending(as_values(concatenated(rows(sets@).subrange(lo as int, hi as int)))),
{
    let ghost all = rows(sets@);
    let mut out: Vec<i32> = Vec::new();
    let mut i: usize = lo;
    while i < hi
        invariant
            lo <= i <= hi <= sets@.len(),
            all == rows(sets@),
            increasing(out@),
            forall|v: i32| #[trigger]
                out@.contains(v) == as_values(
                    concatenated(all.subrange(lo as int, i as int)),
                ).contains(v),
        decreases hi - i,
    {
        let set = &sets[i];
        let ghost done = concatenated(all.subrange(lo as int, i as int));
        proof {
            let longer = all.subrange(lo as int, i + 1);
            assert(longer.drop_last() == all.subrange(lo as int, i as int));
            assert(longer.last() == set@);
            assert(concatenated(longer) == done + set@);
            assert(done + set@.take(0) == done);
        }
        let mut j: usize = 0;
        while j < set.len()
            invariant
                j <= set@.len(),
                increasing(out@),
                forall|v: i32| #[trigger]
                    out@.contains(v) == as_values(done + set@.take(j as int)).contains(v),
            decreases set.len() - j,
        {
            let ghost before = out@;
            let v: i32 = set[j] as i32;
            insert(&mut out, v);
            proof {
                let s0 = done + set@.take(j as int);
                let s1 = done + set@.take(j + 1);
                assert(s1 == s0.push(set@[j as int]));
                assert forall|x: i32| #[trigger]
                    out@.contains(x) == as_values(s1).contains(x) by {
                    assert(before.contains(x) == as_values(s0).contains(x));
                    if as_values(s1).contains(x) {
                        let k = choose|k: int| 0 <= k < s1.len() && as_values(s1)[k] == x;
                        if k < s0.len() {
                            assert(as_values(s0)[k] == x);
                        }
                    }
                    if as_values(s0).contains(x) {
                        let k = choose|k: int| 0 <= k < s0.len() && as_values(s0)[k] == x;
                        assert(as_values(s1)[k] == x);
                    }
                    assert(as_values(s1)[s0.len() as int] == v);
                }
            }
            j += 1;
        }
        proof {
            assert(set@.take(j as int) == set@);
        }
        i += 1;
    }
    proof {
        is_ascending(out@, as_values(concatenated(all.subrange(lo as int, hi as int))));
    }
    out
}

/// The tree over the sets from `lo` to `hi`, and the first leaf that it leaves unused.
fn stub(
    p: usize,
    sets: &[Vec<PhoneId>],
    counts: &Vec<Vec<usize>>,
    shared: &[bool],
    lo: usize,
    hi: usize,
    first: PdfId,
) -> (r: (EventMap, PdfId))
    requires
        lo < hi <= sets@.len(),
        counts@.len() == sets@.len(),
        shared@.len() == sets@.len(),
        fits(
            rows(sets@).subrange(lo as int, hi as int),
            rows(counts@).subrange(lo as int, hi as int),
            shared@.subrange(lo as int, hi as int),
        ),
        first + leaves_before(
            rows(counts@).subrange(lo as int, hi as int),
            shared@.subrange(lo as int, hi as int),
            hi - lo,
        ) <= u32::MAX,
    ensures
        r.0.tree() == stub_tree(
            p,
            rows(sets@).subrange(lo as int, hi as int),
            rows(counts@).subrange(lo as int, hi as int),
            shared@.subrange(lo as int, hi as int),
            first as int,
        ),
        r.1 == first + leaves_before(
            rows(counts@).subrange(lo as int, hi as int),
            shared@.subrange(lo as int, hi as int),
            hi - lo,
        ),
    decreases hi - lo,
{
    let ghost ss = rows(sets@).subrange(lo as int, hi as int);
    let ghost cs = rows(counts@).subrange(lo as int, hi as int);
    let ghost sh = shared@.subrange(lo as int, hi as int);
    let (size, top) = extent(sets, lo, hi);
    if hi - lo == 1 {
        assert(cs[0] == counts@[lo as int]@ && sh[0] == shared@[lo as int]);
        reveal_with_fuel(leaves_before, 2);
        return root(&counts[lo], shared[lo], first);
    }
    let n: usize = hi - lo;
    if size == 1 && (n as u64) <= 2 * (top as u64) {
        return by_phone(p, sets, counts, shared, lo, hi, first, top);
    }
    let half: usize = n / 2;
    let mid: usize = lo + half;
    proof {
        assert(ss.take(half as int) == rows(sets@).subrange(lo as int, mid as int));
        assert(cs.take(half as int) == rows(counts@).subrange(lo as int, mid as int));
        assert(sh.take(half as int) == shared@.subrange(lo as int, mid as int));
        assert(ss.skip(half as int) == rows(sets@).subrange(mid as int, hi as int));
        assert(cs.skip(half as int) == rows(counts@).subrange(mid as int, hi as int));
        assert(sh.skip(half as int) == shared@.subrange(mid as int, hi as int));
        leaves_before_of_prefix(cs, sh, half as int, half as int);
        leaves_before_is_additive(cs, sh, half as int, n - half);
        leaves_before_grows(cs, sh, half as int, n as int);
    }
    let (yes, between) = stub(p, sets, counts, shared, lo, mid, first);
    let (no, next) = stub(p, sets, counts, shared, mid, hi, between);
    let yes_set = value_set(sets, lo, mid);
    let map = EventMap::Split { key: p as i32, yes_set, yes: Box::new(yes), no: Box::new(no) };
    (map, next)
}

/// The tree over single-phone sets, as a table indexed by the phone.
fn by_phone(
    p: usize,
    sets: &[Vec<PhoneId>],
    counts: &Vec<Vec<usize>>,
    shared: &[bool],
    lo: usize,
    hi: usize,
    first: PdfId,
    top: PhoneId,
) -> (r: (EventMap, PdfId))
    requires
        lo + 1 < hi <= sets@.len(),
        counts@.len() == sets@.len(),
        shared@.len() == sets@.len(),
        tabular(rows(sets@).subrange(lo as int, hi as int)),
        top == highest(rows(sets@).subrange(lo as int, hi as int)),
        fits(
            rows(sets@).subrange(lo as int, hi as int),
            rows(counts@).subrange(lo as int, hi as int),
            shared@.subrange(lo as int, hi as int),
        ),
        first + leaves_before(
            rows(counts@).subrange(lo as int, hi as int),
            shared@.subrange(lo as int, hi as int),
            hi - lo,
        ) <= u32::MAX,
    ensures
        r.0.tree() == stub_tree(
            p,
            rows(sets@).subrange(lo as int, hi as int),
            rows(counts@).subrange(lo as int, hi as int),
            shared@.subrange(lo as int, hi as int),
            first as int,
        ),
        r.1 == first + leaves_before(
            rows(counts@).subrange(lo as int, hi as int),
            shared@.subrange(lo as int, hi as int),
            hi - lo,
        ),
{
    let ghost ss = rows(sets@).subrange(lo as int, hi as int);
    let ghost cs = rows(counts@).subrange(lo as int, hi as int);
    let ghost sh = shared@.subrange(lo as int, hi as int);
    let mut table: Vec<Option<Box<EventMap>>> = Vec::new();
    let mut k: PhoneId = 0;
    loop
        invariant_except_break
            table@.len() == k,
        invariant
            k <= top,
            forall|j: int| 0 <= j < table@.len() ==> (#[trigger] table@[j]) is None,
        ensures
            table@.len() == top + 1,
        decreases top - k,
    {
        table.push(None);
        if k == top {
            break;
        }
        k += 1;
    }
    let mut next: PdfId = first;
    let mut i: usize = lo;
    proof {
        assert forall|ph: int| 0 <= ph < table@.len() implies (#[trigger] entry_tree(table@[ph]))
            == Tree::Missing by {
            assert(table@[ph] is None);
        }
    }
    while i < hi
        invariant
            lo <= i <= hi <= sets@.len(),
            counts@.len() == sets@.len(),
            shared@.len() == sets@.len(),
            ss == rows(sets@).subrange(lo as int, hi as int),
            cs == rows(counts@).subrange(lo as int, hi as int),
            sh == shared@.subrange(lo as int, hi as int),
            forall|a: int| 0 <= a < ss.len() ==> (#[trigger] ss[a]).len() == 1,
            forall|a: int, b: int|
                0 <= a < b < ss.len() ==> (#[trigger] ss[a])[0] != (#[trigger] ss[b])[0],
            top == highest(ss),
            table@.len() == top + 1,
            next == first + leaves_before(cs, sh, i - lo),
            first + leaves_before(cs, sh, hi - lo) <= u32::MAX,
            forall|a: int|
                0 <= a < i - lo ==> entry_tree(table@[(#[trigger] ss[a])[0] as int]) == root_tree(
                    cs[a],
                    sh[a],
                    first + leaves_before(cs, sh, a),
                ),
            forall|ph: int|
                0 <= ph < table@.len() && (forall|a: int|
                    0 <= a < i - lo ==> (#[trigger] ss[a])[0] != ph) ==> entry_tree(
                    #[trigger] table@[ph],
                ) == Tree::Missing,
        decreases hi - i,
    {
        let ghost a = i - lo;
        proof {
            assert(ss[a] == sets@[i as int]@);
            assert(cs[a] == counts@[i as int]@ && sh[a] == shared@[i as int]);
            leaves_before_grows(cs, sh, a + 1, hi - lo);
            highest_bounds(ss, a, 0);
        }
        let (sub, after) = root(&counts[i], shared[i], next);
        let phone: PhoneId = sets[i][0];
        let ghost before = table@;
        table.set(phone as usize, Some(Box::new(sub)));
        proof {
            assert forall|b: int| 0 <= b < a + 1 implies entry_tree(
                table@[(#[trigger] ss[b])[0] as int],
            ) == root_tree(cs[b], sh[b], first + leaves_before(cs, sh, b)) by {
                if b < a {
                    assert(ss[b][0] != ss[a][0]);
                    highest_bounds(ss, b, 0);
                }
            }
            assert forall|ph: int|
                0 <= ph < table@.len() && (forall|b: int|
                    0 <= b < a + 1 ==> (#[trigger] ss[b])[0] != ph) implies entry_tree(
                #[trigger] table@[ph],
            ) == Tree::Missing by {
                assert(ss[a][0] != ph);
                assert(before[ph] == table@[ph]);
            }
        }
        next = after;
        i += 1;
    }
    let map = EventMap::Table { key: p as i32, table };
    proof {
        let want = stub_tree(p, ss, cs, sh, first as int);
        assert forall|ph: int| 0 <= ph < table@.len() implies (#[trigger] map.tree()->table[ph])
            == want->table[ph] by {
            assert(map.tree()->table[ph] == entry_tree(table@[ph]));
            if is_set_of(ss, ph) {
                let a = set_of(ss, ph);
                assert(ss[a][0] == ph);
            } else {
                assert forall|a: int| 0 <= a < hi - lo implies (#[trigger] ss[a])[0] != ph by {
                    assert(ss[a].len() == 1);
                }
            }
        }
        assert(map.tree()->table =~= want->table);
    }
    (map, next)
}

/// The unsplit tree over `phone_sets`: one leaf per set where the root is shared, one per set and
/// pdf-class where it is not. `num_leaves` is the number of the next leaf; leaves are numbered in
/// the order of the sets.
pub fn get_stub_map<F: Fn(PhoneId) -> usize>(
    p: usize,
    phone_sets: &[Vec<PhoneId>],
    num_pdf_classes: &F,
    share_roots: &[bool],
    num_leaves: &mut PdfId,
) -> (r: EventMap)
    requires
        phone_sets@.len() > 0,
        share_roots@.len() == phone_sets@.len(),
        forall|i: int, j: int|
            0 <= i < phone_sets@.len() && !share_roots@[i] && 0 <= j < phone_sets@[i]@.len()
                ==> #[trigger] counts(*num_pdf_classes, phone_sets@[i]@[j]),
        fits(
            rows(phone_sets@),
            count_rows(*num_pdf_classes, rows(phone_sets@), share_roots@),
            share_roots@,
        ),
        *old(num_leaves) + leaves_before(
            count_rows(*num_pdf_classes, rows(phone_sets@), share_roots@),
            share_roots@,
            phone_sets@.len() as int,
        ) <= u32::MAX,
    ensures
        r.tree() == stub_tree(
            p,
            rows(phone_sets@),
            count_rows(*num_pdf_classes, rows(phone_sets@), share_roots@),
            share_roots@,
            *old(num_leaves) as int,
        ),
        *final(num_leaves) == *old(num_leaves) + leaves_before(
            count_rows(*num_pdf_classes, rows(phone_sets@), share_roots@),
            share_roots@,
            phone_sets@.len() as int,
        ),
{
    let ghost want = count_rows(*num_pdf_classes, rows(phone_sets@), share_roots@);
    let mut all: Vec<Vec<usize>> = Vec::new();
    let mut i: usize = 0;
    while i < phone_sets.len()
        invariant
            i <= phone_sets@.len(),
            share_roots@.len() == phone_sets@.len(),
            forall|a: int, b: int|
                0 <= a < phone_sets@.len() && !share_roots@[a] && 0 <= b < phone_sets@[a]@.len()
                    ==> #[trigger] counts(*num_pdf_classes, phone_sets@[a]@[b]),
            want == count_rows(*num_pdf_classes, rows(phone_sets@), share_roots@),
            all@.len() == i,
            forall|k: int| 0 <= k < i ==> (#[trigger] all@[k])@ == want[k],
        decreases phone_sets.len() - i,
    {
        let mut row: Vec<usize> = Vec::new();
        if !share_roots[i] {
            let set = &phone_sets[i];
            let mut j: usize = 0;
            while j < set.len()
                invariant
                    j <= set@.len(),
                    i < phone_sets@.len(),
                    set@ == phone_sets@[i as int]@,
                    !share_roots@[i as int],
                    forall|a: int, b: int|
                        0 <= a < phone_sets@.len() && !share_roots@[a] && 0 <= b
                            < phone_sets@[a]@.len() ==> #[trigger] counts(
                            *num_pdf_classes,
                            phone_sets@[a]@[b],
                        ),
                    row@.len() == j,
                    forall|k: int|
                        0 <= k < j ==> #[trigger] row@[k] == count_of(*num_pdf_classes, set@[k]),
                decreases set.len() - j,
            {
                assert(counts(*num_pdf_classes, phone_sets@[i as int]@[j as int]));
                let count: usize = num_pdf_classes(set[j]);
                row.push(count);
                j += 1;
            }
        }
        assert(row@ =~= want[i as int]);
        all.push(row);
        i += 1;
    }
    let n: usize = phone_sets.len();
    proof {
        assert(rows(all@) =~= want);
        assert(rows(phone_sets@).subrange(0, n as int) == rows(phone_sets@));
        assert(want.subrange(0, n as int) == want);
        assert(share_roots@.subrange(0, n as int) == share_roots@);
    }
    let (map, next) = stub(p, phone_sets, &all, share_roots, 0, n, *num_leaves);
    *num_leaves = next;
    map
}

/// All phones of the sets, sorted and unique.
pub fn all_phones(phone_sets: &[Vec<PhoneId>]) -> (r: Vec<PhoneId>)
    ensures
        increasing(r@),
        forall|p: PhoneId| #[trigger]
            r@.contains(p) == exists|i: int|
                0 <= i < phone_sets@.len() && (#[trigger] phone_sets@[i])@.contains(p),
{
    let mut out: Vec<PhoneId> = Vec::new();
    let mut i: usize = 0;
    while i < phone_sets.len()
        invariant
            i <= phone_sets@.len(),
            increasing(out@),
            forall|p: PhoneId| #[trigger]
                out@.contains(p) == exists|e: int|
                    0 <= e < i && (#[trigger] phone_sets@[e])@.contains(p),
        decreases phone_sets.len() - i,
    {
        let ghost before = out@;
        let set = &phone_sets[i];
        let mut j: usize = 0;
        while j < set.len()
            invariant
                j <= set@.len(),
                increasing(out@),
                forall|p: PhoneId| #[trigger]
                    out@.contains(p) == (before.contains(p) || exists|k: int|
                        0 <= k < j && set@[k] == p),
            decreases set.len() - j,
        {
            let ghost mid = out@;
            insert(&mut out, set[j]);
            proof {
                assert forall|p: PhoneId| #[trigger]
                    out@.contains(p) == (before.contains(p) || exists|k: int|
                        0 <= k < j + 1 && set@[k] == p) by {
                    assert(mid.contains(p) == (before.contains(p) || exists|k: int|
                        0 <= k < j && set@[k] == p));
                    if p == set@[j as int] {
                        assert(set@[j as int] == p);
                    }
                }
            }
            j += 1;
        }
        proof {
            assert forall|p: PhoneId| #[trigger]
                out@.contains(p) == exists|e: int|
                    0 <= e < i + 1 && (#[trigger] phone_sets@[e])@.contains(p) by {
                if out@.contains(p) {
                    if before.contains(p) {
                        let e = choose|e: int|
                            0 <= e < i && (#[trigger] phone_sets@[e])@.contains(p);
                        assert(phone_sets@[e]@.contains(p));
                    } else {
                        assert(phone_sets@[i as int]@.contains(p));
                    }
                }
                if exists|e: int| 0 <= e < i + 1 && (#[trigger] phone_sets@[e])@.contains(p) {
                    let e = choose|e: int|
                        0 <= e < i + 1 && (#[trigger] phone_sets@[e])@.contains(p);
                    if e < i {
                        assert(before.contains(p));
                    }
                }
            }
        }
        i += 1;
    }
    out
}

/// The central position lies inside the window.
pub open spec fn is_window(n: usize, p: usize) -> bool {
    p < n
}

impl ContextDependency {
    pub fn new(n: usize, p: usize, map: EventMap) -> (r: Self)
        requires
            is_window(n, p),
        ensures
            r.n == n,
            r.p == p,
            r.map == map,
    {
        ContextDependency { n, p, map }
    }

    /// Monophone system: the window is the phone itself, no roots are shared, and the tree is
    /// unsplit.
    pub fn monophone_shared<F: Fn(PhoneId) -> usize>(
        phone_sets: &[Vec<PhoneId>],
        num_pdf_classes: &F,
    ) -> (r: Self)
        requires
            phone_sets@.len() > 0,
            forall|i: int, j: int|
                0 <= i < phone_sets@.len() && 0 <= j < phone_sets@[i]@.len() ==> #[trigger] counts(
                    *num_pdf_classes,
                    phone_sets@[i]@[j],
                ),
            fits(
                rows(phone_sets@),
                count_rows(
                    *num_pdf_classes,
                    rows(phone_sets@),
                    Seq::new(phone_sets@.len(), |i: int| false),
                ),
                Seq::new(phone_sets@.len(), |i: int| false),
            ),
            leaves_before(
                count_rows(
                    *num_pdf_classes,
                    rows(phone_sets@),
                    Seq::new(phone_sets@.len(), |i: int| false),
                ),
                Seq::new(phone_sets@.len(), |i: int| false),
                phone_sets@.len() as int,
            ) <= u32::MAX,
        ensures
            r.n == 1,
            r.p == 0,
            r.map.tree() == stub_tree(
                0,
                rows(phone_sets@),
                count_rows(
                    *num_pdf_classes,
                    rows(phone_sets@),
                    Seq::new(phone_sets@.len(), |i: int| false),
                ),
                Seq::new(phone_sets@.len(), |i: int| false),
                0,
            ),
    {
        let mut share_roots: Vec<bool> = Vec::new();
        let mut i: usize = 0;
        while i < phone_sets.len()
            invariant
                i <= phone_sets@.len(),
                share_roots@ == Seq::new(i as nat, |k: int| false),
            decreases phone_sets.len() - i,
        {
            share_roots.push(false);
            i += 1;
        }
        let mut num_leaves: PdfId = 0;
        let map = get_stub_map(
            0,
            phone_sets,
            num_pdf_classes,
            share_roots.as_slice(),
            &mut num_leaves,
        );
        ContextDependency::new(1, 0, map)
    }

    /// The pdf of `pdf_class` for the phone at the centre of `window`, whose entries are phones
    /// with 0 for "outside the utterance".
    pub fn compute(&self, window: &[PhoneId], pdf_class: i32) -> (r: Option<PdfId>)
        requires
            window@.len() == self.n,
        ensures
            r == answer(self.map.tree(), window_event(window@, pdf_class)),
    {
        let mut event: Vec<(i32, i32)> = Vec::new();
        event.push((PDF_CLASS_KEY, pdf_class));
        let mut i: usize = 0;
        while i < window.len()
            invariant
                i <= window@.len(),
                event@ == window_event(window@.take(i as int), pdf_class),
            decreases window.len() - i,
        {
            event.push((i as i32, window[i] as i32));
            proof {
                assert(event@ =~= window_event(window@.take(i + 1), pdf_class));
            }
            i += 1;
        }
        proof {
            assert(window@.take(i as int) == window@);
        }
        self.map.map(event.as_slice())
    }

    /// One more than the largest pdf of the tree.
    pub fn num_pdfs(&self) -> (r: usize)
        requires
            pdf_count(self.map.tree()) <= usize::MAX,
        ensures
            r == pdf_count(self.map.tree()),
            r <= u32::MAX + 1,
    {
        (self.map.max_result() + 1) as usize
    }

    pub fn context_width(&self) -> (r: usize)
        ensures
            r == self.n,
    {
        self.n
    }

    pub fn central_position(&self) -> (r: usize)
        ensures
            r == self.p,
    {
        self.p
    }

    /// For each pdf the `(phone, pdf-class)` pairs that can produce it, sorted and unique. The
    /// classes of a phone are those below what `num_pdf_classes` answers for it.
    pub fn get_pdf_info<F: Fn(PhoneId) -> usize>(
        &self,
        phones: &[PhoneId],
        num_pdf_classes: &F,
    ) -> (r: Vec<Vec<(PhoneId, i32)>>)
        requires
            forall|k: int| 0 <= k < phones@.len() ==> #[trigger] counts(*num_pdf_classes, phones@[k]),
            pdf_count(self.map.tree()) <= usize::MAX,
        ensures
            r@.len() == pdf_count(self.map.tree()),
            r@.len() <= u32::MAX + 1,
            forall|pdf: int|
                0 <= pdf < r@.len() ==> increasing(as_pairs((#[trigger] r@[pdf])@)) && forall|
                    pair: PhoneClass,
                |
                    #[trigger] as_pairs(r@[pdf]@).contains(pair) == offers(
                        self.map.tree(),
                        self.p,
                        phones@,
                        Seq::new(phones@.len(), |k: int| count_of(*num_pdf_classes, phones@[k])),
                        phones@.len() as int,
                        pdf,
                        pair,
                    ),
    {
        let ghost want = Seq::new(phones@.len(), |k: int| count_of(*num_pdf_classes, phones@[k]));
        let mut class_counts: Vec<usize> = Vec::new();
        let mut i: usize = 0;
        while i < phones.len()
            invariant
                i <= phones@.len(),
                forall|k: int|
                    0 <= k < phones@.len() ==> #[trigger] counts(*num_pdf_classes, phones@[k]),
                class_counts@.len() == i,
                forall|k: int|
                    0 <= k < i ==> #[trigger] class_counts@[k] == count_of(
                        *num_pdf_classes,
                        phones@[k],
                    ),
            decreases phones.len() - i,
        {
            assert(counts(*num_pdf_classes, phones@[i as int]));
            let count: usize = num_pdf_classes(phones[i]);
            class_counts.push(count);
            i += 1;
        }
        assert(class_counts@ =~= want);
        let info = self.pdf_info(phones, &class_counts);
        info
    }

    /// As [`ContextDependency::get_pdf_info`], with the class counts in a list.
    pub fn pdf_info(&self, phones: &[PhoneId], class_counts: &Vec<usize>) -> (r: Vec<
        Vec<(PhoneId, i32)>,
    >)
        requires
            class_counts@.len() == phones@.len(),
            pdf_count(self.map.tree()) <= usize::MAX,
        ensures
            r@.len() == pdf_count(self.map.tree()),
            r@.len() <= u32::MAX + 1,
            forall|pdf: int|
                0 <= pdf < r@.len() ==> increasing(as_pairs((#[trigger] r@[pdf])@)) && forall|
                    pair: PhoneClass,
                |
                    #[trigger] as_pairs(r@[pdf]@).contains(pair) == offers(
                        self.map.tree(),
                        self.p,
                        phones@,
                        class_counts@,
                        phones@.len() as int,
                        pdf,
                        pair,
                    ),
    {
        let ghost tree = self.map.tree();
        let num: usize = self.num_pdfs();
        let mut table: Vec<Vec<PhoneClass>> = Vec::new();
        let mut k: usize = 0;
        while k < num
            invariant
                k <= num,
                table@.len() == k,
                forall|q: int| 0 <= q < k ==> (#[trigger] table@[q])@ == Seq::<PhoneClass>::empty(),
            decreases num - k,
        {
            table.push(Vec::new());
            k += 1;
        }
        let mut i: usize = 0;
        while i < phones.len()
            invariant
                i <= phones@.len(),
                class_counts@.len() == phones@.len(),
                tree == self.map.tree(),
                table@.len() == num,
                num <= u32::MAX + 1,
                forall|q: int|
                    0 <= q < num ==> increasing((#[trigger] table@[q])@) && forall|pair: PhoneClass|
                        #[trigger] table@[q]@.contains(pair) == offers(
                            tree,
                            self.p,
                            phones@,
                            class_counts@,
                            i as int,
                            q,
                            pair,
                        ),
            decreases phones.len() - i,
        {
            let ghost start = table@;
            let phone: PhoneId = phones[i];
            let len: i32 = class_counts[i] as i32;
            let mut pos: i32 = 0;
            while pos < len
                invariant
                    0 <= pos,
                    pos <= len || len < 0,
                    len < 0 ==> pos == 0,
                    i < phones@.len(),
                    phone == phones@[i as int],
                    len == class_counts@[i as int] as i32,
                    class_counts@.len() == phones@.len(),
                    tree == self.map.tree(),
                    table@.len() == num,
                    start.len() == num,
                    num <= u32::MAX + 1,
                    forall|q: int|
                        0 <= q < num ==> increasing((#[trigger] table@[q])@) && forall|
                            pair: PhoneClass,
                        |
                            #[trigger] table@[q]@.contains(pair) == (start[q]@.contains(pair)
                                || offered_by(tree, self.p, phone, pos, q, pair)),
                decreases len - pos,
            {
                let ghost mid = table@;
                let event = central(self.p, phone, pos);
                let mut pdfs: Vec<PdfId> = Vec::new();
                self.map.multi_map(event.as_slice(), &mut pdfs);
                let ghost found = answers(tree, central_event(self.p, phone, pos));
                assert(pdfs@ == found);
                let pair = PhoneClass { phone, class: pos };
                let mut j: usize = 0;
                while j < pdfs.len()
                    invariant
                        j <= pdfs@.len(),
                        table@.len() == num,
                        mid.len() == num,
                        num <= u32::MAX + 1,
                        forall|q: int|
                            0 <= q < num ==> increasing((#[trigger] table@[q])@) && forall|
                                x: PhoneClass,
                            |
                                #[trigger] table@[q]@.contains(x) == (mid[q]@.contains(x) || (x
                                    == pair && pdfs@.take(j as int).contains(q as u32))),
                    decreases pdfs.len() - j,
                {
                    let pdf: usize = pdfs[j] as usize;
                    proof {
                        assert(pdfs@.take(j + 1) == pdfs@.take(j as int).push(pdfs@[j as int]));
                    }
                    let ghost inner = table@;
                    if pdf < num {
                        let mut slot: Vec<PhoneClass> = Vec::new();
                        std::mem::swap(&mut slot, &mut table[pdf]);
                        insert(&mut slot, pair);
                        std::mem::swap(&mut slot, &mut table[pdf]);
                    }
                    proof {
                        assert forall|q: int| 0 <= q < num implies increasing(
                            (#[trigger] table@[q])@,
                        ) && forall|x: PhoneClass|
                            #[trigger] table@[q]@.contains(x) == (mid[q]@.contains(x) || (x == pair
                                && pdfs@.take(j + 1).contains(q as u32))) by {
                            let t0 = pdfs@.take(j as int);
                            let t1 = pdfs@.take(j + 1);
                            assert(t1.contains(q as u32) == (t0.contains(q as u32) || pdfs@[j as int]
                                == q as u32)) by {
                                if t0.contains(q as u32) {
                                    let m = choose|m: int| 0 <= m < t0.len() && t0[m] == q as u32;
                                    assert(t1[m] == q as u32);
                                }
                                assert(t1[j as int] == pdfs@[j as int]);
                                if t1.contains(q as u32) {
                                    let m = choose|m: int| 0 <= m < t1.len() && t1[m] == q as u32;
                                    if m < j {
                                        assert(t0[m] == q as u32);
                                    }
                                }
                            }
                            if q == pdf {
                                assert(increasing(inner[q]@));
                                assert forall|x: PhoneClass|
                                    #[trigger] table@[q]@.contains(x) == (mid[q]@.contains(x) || (x
                                        == pair && t1.contains(q as u32))) by {
                                    assert(inner[q]@.contains(x) == (mid[q]@.contains(x) || (x
                                        == pair && t0.contains(q as u32))));
                                }
                            } else {
                                assert(table@[q] == inner[q]);
                                assert(q as u32 != pdfs@[j as int]);
                            }
                        }
                    }
                    j += 1;
                }
                proof {
                    assert(pdfs@.take(j as int) == pdfs@);
                    assert forall|q: int| 0 <= q < num implies increasing((#[trigger] table@[q])@)
                        && forall|x: PhoneClass|
                        #[trigger] table@[q]@.contains(x) == (start[q]@.contains(x) || offered_by(
                            tree,
                            self.p,
                            phone,
                            (pos + 1) as i32,
                            q,
                            x,
                        )) by {
                        assert forall|x: PhoneClass|
                            #[trigger] table@[q]@.contains(x) == (start[q]@.contains(x)
                                || offered_by(tree, self.p, phone, (pos + 1) as i32, q, x)) by {
                            assert(mid[q]@.contains(x) == (start[q]@.contains(x) || offered_by(
                                tree,
                                self.p,
                                phone,
                                pos,
                                q,
                                x,
                            )));
                        }
                    }
                }
                pos += 1;
            }
            proof {
                assert forall|q: int| 0 <= q < num implies increasing((#[trigger] table@[q])@)
                    && forall|x: PhoneClass|
                    #[trigger] table@[q]@.contains(x) == offers(
                        tree,
                        self.p,
                        phones@,
                        class_counts@,
                        i + 1,
                        q,
                        x,
                    ) by {
                    assert forall|x: PhoneClass|
                        #[trigger] table@[q]@.contains(x) == offers(
                            tree,
                            self.p,
                            phones@,
                            class_counts@,
                            i + 1,
                            q,
                            x,
                        ) by {
                        assert(start[q]@.contains(x) == offers(
                            tree,
                            self.p,
                            phones@,
                            class_counts@,
                            i as int,
                            q,
                            x,
                        ));
                        if offered_by(tree, self.p, phone, pos, q, x) {
                            assert(phones@[i as int] == x.phone);
                        }
                    }
                }
            }
            i += 1;
        }
        let mut out: Vec<Vec<(PhoneId, i32)>> = Vec::new();
        let mut q: usize = 0;
        while q < num
            invariant
                q <= num,
                table@.len() == num,
                out@.len() == q,
                forall|k: int| 0 <= k < q ==> as_pairs((#[trigger] out@[k])@) == table@[k]@,
            decreases num - q,
        {
            let mut list: Vec<(PhoneId, i32)> = Vec::new();
            let mut j: usize = 0;
            while j < table[q].len()
                invariant
                    q < num,
                    table@.len() == num,
                    j <= table@[q as int]@.len(),
                    list@.len() == j,
                    forall|k: int|
                        0 <= k < j ==> (#[trigger] list@[k]) == (
                            table@[q as int]@[k].phone,
                            table@[q as int]@[k].class,
                        ),
                decreases table@[q as int]@.len() - j,
            {
                list.push((table[q][j].phone, table[q][j].class));
                j += 1;
            }
            assert(as_pairs(list@) =~= table@[q as int]@);
            out.push(list);
            q += 1;
        }
        out
    }
}

/// `pair` belongs to `phone`, its class is one of the first `pos`, and its central event can lead
/// to `pdf`.
spec fn offered_by(t: Tree, p: usize, phone: PhoneId, pos: i32, pdf: int, pair: PhoneClass) -> bool {
    pair.phone == phone && 0 <= pair.class < pos && answers(
        t,
        central_event(p, pair.phone, pair.class),
    ).contains(pdf as u32)
}

/// The event that fixes the pdf-class and the central phone only, sorted.
pub fn central(p: usize, phone: PhoneId, pdf_class: i32) -> (r: Vec<(i32, i32)>)
    ensures
        r@ == central_event(p, phone, pdf_class),
{
    let mut event: Vec<(i32, i32)> = Vec::new();
    let key: i32 = p as i32;
    let v: i32 = phone as i32;
    if key < PDF_CLASS_KEY || (key == PDF_CLASS_KEY && v < pdf_class) {
        event.push((key, v));
        event.push((PDF_CLASS_KEY, pdf_class));
    } else {
        event.push((PDF_CLASS_KEY, pdf_class));
        event.push((key, v));
    }
    event
}

/// An unsplit tree asks for the pdf-class and the central phone only.
pub proof fn stub_is_settled(
    p: usize,
    sets: Seq<Seq<PhoneId>>,
    counts: Seq<Seq<usize>>,
    shared: Seq<bool>,
    first: int,
    event: Seq<(i32, i32)>,
)
    requires
        sets.len() > 0,
        counts.len() == sets.len(),
        shared.len() == sets.len(),
        lookup(event, p as i32) is Some,
        lookup(event, PDF_CLASS_KEY) is Some,
    ensures
        settled(stub_tree(p, sets, counts, shared, first), event),
    decreases sets.len(),
{
    let tree = stub_tree(p, sets, counts, shared, first);
    if sets.len() <= 1 {
        root_is_settled(counts[0], shared[0], first, event);
    } else if tabular(sets) {
        assert forall|i: int| 0 <= i < tree->table.len() implies settled(
            #[trigger] tree->table[i],
            event,
        ) by {
            if is_set_of(sets, i) {
                let k = set_of(sets, i);
                root_is_settled(counts[k], shared[k], first + leaves_before(counts, shared, k), event);
            }
        }
    } else {
        let half = (sets.len() / 2) as int;
        stub_is_settled(p, sets.take(half), counts.take(half), shared.take(half), first, event);
        stub_is_settled(
            p,
            sets.skip(half),
            counts.skip(half),
            shared.skip(half),
            first + leaves_before(counts, shared, half),
            event,
        );
    }
}

proof fn root_is_settled(counts: Seq<usize>, shared: bool, first: int, event: Seq<(i32, i32)>)
    requires
        lookup(event, PDF_CLASS_KEY) is Some,
    ensures
        settled(root_tree(counts, shared, first), event),
{
    let tree = root_tree(counts, shared, first);
    if !shared {
        assert forall|i: int| 0 <= i < tree->table.len() implies settled(
            #[trigger] tree->table[i],
            event,
        ) by {
            assert(tree->table[i] == Tree::Constant((first + i) as u32));
        }
    }
}

/// In a monophone system the pairs listed for a pdf are exactly those whose pdf it is.
pub proof fn pdf_info_inverts_compute(
    t: Tree,
    phones: Seq<PhoneId>,
    num_classes: Seq<usize>,
    pdf: u32,
    pair: PhoneClass,
)
    requires
        num_classes.len() == phones.len(),
        settled(t, window_event(seq![pair.phone], pair.class)),
    ensures
        offers(t, 0, phones, num_classes, phones.len() as int, pdf as int, pair) == ((exists|k: int|
            0 <= k < phones.len() && (#[trigger] phones[k]) == pair.phone && 0 <= pair.class
                < num_classes[k] as i32) && answer(t, window_event(seq![pair.phone], pair.class))
            == Some(pdf)),
{
    let event = window_event(seq![pair.phone], pair.class);
    assert(event =~= central_event(0, pair.phone, pair.class));
    settled_answers_are_the_answer(t, event);
    if answer(t, event) == Some(pdf) {
        assert(answers(t, event)[0] == pdf);
    }
}

/// The unsplit tree names exactly as many pdfs as its sets have leaves.
pub proof fn stub_pdf_count(
    p: usize,
    sets: Seq<Seq<PhoneId>>,
    counts: Seq<Seq<usize>>,
    shared: Seq<bool>,
    first: int,
)
    requires
        parallel(sets, counts, shared),
        fits(sets, counts, shared),
        0 <= first,
        first + leaves_before(counts, shared, sets.len() as int) <= u32::MAX,
        forall|i: int| 0 <= i < sets.len() ==> (#[trigger] sets[i]).len() > 0,
    ensures
        max_leaf(stub_tree(p, sets, counts, shared, first)) == first + leaves_before(
            counts,
            shared,
            sets.len() as int,
        ) - 1,
        leaves_before(counts, shared, sets.len() as int) > 0,
    decreases sets.len(),
{
    let tree = stub_tree(p, sets, counts, shared, first);
    let total = leaves_before(counts, shared, sets.len() as int);
    if sets.len() <= 1 {
        reveal_with_fuel(leaves_before, 2);
        root_pdf_count(sets[0], counts[0], shared[0], first);
    } else if tabular(sets) {
        let last = sets.len() - 1;
        assert forall|i: int| 0 <= i < sets.len() implies leaves_before(counts, shared, i)
            < #[trigger] leaves_before(counts, shared, i + 1) by {
            assert(sets[i].len() == 1);
            root_pdf_count_positive(sets[i], counts[i], shared[i]);
        }
        assert(leaves_before(counts, shared, last + 1) == total);
        leaves_before_grows(counts, shared, 0, last);
        assert forall|ph: int| 0 <= ph < tree->table.len() implies max_leaf(
            #[trigger] tree->table[ph],
        ) <= first + total - 1 by {
            if is_set_of(sets, ph) {
                let k = set_of(sets, ph);
                leaves_before_grows(counts, shared, k, k + 1);
                leaves_before_grows(counts, shared, k + 1, sets.len() as int);
                root_pdf_count(sets[k], counts[k], shared[k], first + leaves_before(counts, shared, k));
            }
        }
        let ph = sets[last][0] as int;
        assert(is_set_of(sets, ph)) by {
            assert(sets[last].len() == 1);
        }
        let k = set_of(sets, ph);
        assert(k == last) by {
            assert(sets[k][0] == sets[last][0]);
        }
        highest_bounds(sets, last, 0);
        root_pdf_count(
            sets[last],
            counts[last],
            shared[last],
            first + leaves_before(counts, shared, last),
        );
        assert(max_leaf(tree->table[ph]) == first + total - 1);
        table_max(tree->table, tree->table.len(), ph, first + total - 1);
    } else {
        let half = (sets.len() / 2) as int;
        leaves_before_of_prefix(counts, shared, half, half);
        leaves_before_is_additive(counts, shared, half, sets.len() - half);
        leaves_before_grows(counts, shared, half, sets.len() as int);
        leaves_before_grows(counts, shared, 0, half);
        assert(parallel(sets.take(half), counts.take(half), shared.take(half)));
        assert(parallel(sets.skip(half), counts.skip(half), shared.skip(half))) by {
            assert forall|k: int| 0 <= k < sets.len() - half && !shared.skip(half)[k] implies (
            #[trigger] counts.skip(half)[k]).len() == sets.skip(half)[k].len() by {
                assert(counts[k + half].len() == sets[k + half].len());
            }
        }
        stub_pdf_count(p, sets.take(half), counts.take(half), shared.take(half), first);
        stub_pdf_count(
            p,
            sets.skip(half),
            counts.skip(half),
            shared.skip(half),
            first + leaves_before(counts, shared, half),
        );
    }
}

proof fn root_pdf_count_positive(set: Seq<PhoneId>, counts: Seq<usize>, shared: bool)
    requires
        set.len() > 0,
        !shared ==> counts.len() == set.len(),
        root_fits(counts, shared),
    ensures
        leaves_of(counts, shared) > 0,
{
    if !shared {
        assert(counts[0] > 0);
        longest_bounds(counts, 0);
    }
}

proof fn root_pdf_count(set: Seq<PhoneId>, counts: Seq<usize>, shared: bool, first: int)
    requires
        set.len() > 0,
        !shared ==> counts.len() == set.len(),
        root_fits(counts, shared),
        0 <= first,
        first + leaves_of(counts, shared) <= u32::MAX,
    ensures
        max_leaf(root_tree(counts, shared, first)) == first + leaves_of(counts, shared) - 1,
        leaves_of(counts, shared) > 0,
{
    root_pdf_count_positive(set, counts, shared);
    if !shared {
        let tree = root_tree(counts, shared, first);
        let n = longest(counts);
        assert forall|i: int| 0 <= i < tree->table.len() implies max_leaf(#[trigger] tree->table[i])
            == first + i by {
            assert(tree->table[i] == Tree::Constant((first + i) as u32));
        }
        table_max(tree->table, tree->table.len(), n - 1, first + n - 1);
    }
}

proof fn table_max(table: Seq<Tree>, n: nat, at: int, best: int)
    requires
        n <= table.len(),
        best >= -1,
        forall|i: int| 0 <= i < n ==> max_leaf(#[trigger] table[i]) <= best,
    ensures
        max_leaf_of_first(table, n) <= best,
        0 <= at < n && max_leaf(table[at]) == best ==> max_leaf_of_first(table, n) == best,
    decreases n,
{
    if n > 0 {
        table_max(table, (n - 1) as nat, at, best);
        assert(max_leaf(table[n - 1]) <= best);
    }
}

/// Each item in a list of its own.
pub open spec fn singly<T>(v: Seq<T>) -> Seq<Seq<T>> {
    Seq::new(v.len(), |i: int| seq![v[i]])
}

/// The sum of the first `n` counts.
pub open spec fn sum_of_first(v: Seq<usize>, n: int) -> int
    decreases n,
{
    if n <= 0 {
        0
    } else {
        sum_of_first(v, n - 1) + v[n - 1]
    }
}

/// The tree of a monophone system: a set for every phone, none sharing its root.
pub open spec fn monophone_tree(phones: Seq<PhoneId>, classes: Seq<usize>) -> Tree {
    stub_tree(
        0,
        singly(phones),
        singly(classes),
        Seq::new(phones.len(), |i: int| false),
        0,
    )
}

proof fn single_leaves_add_up(classes: Seq<usize>, n: int)
    requires
        0 <= n <= classes.len(),
    ensures
        leaves_before(singly(classes), Seq::new(classes.len(), |i: int| false), n) == sum_of_first(
            classes,
            n,
        ),
        forall|i: int| 0 <= i < classes.len() ==> longest(#[trigger] singly(classes)[i]) == classes[i],
    decreases n,
{
    assert forall|i: int| 0 <= i < classes.len() implies longest(#[trigger] singly(classes)[i])
        == classes[i] by {
        let one = singly(classes)[i];
        assert(one.drop_last() =~= Seq::<usize>::empty());
        assert(longest(one.drop_last()) == 0);
        assert(one.last() == classes[i]);
    }
    if n > 0 {
        single_leaves_add_up(classes, n - 1);
        assert(longest(singly(classes)[n - 1]) == classes[n - 1]);
    }
}

proof fn singles_have_size_one(sets: Seq<Seq<PhoneId>>)
    requires
        sets.len() > 0,
        forall|i: int| 0 <= i < sets.len() ==> (#[trigger] sets[i]).len() == 1,
    ensures
        max_size(sets) == 1,
    decreases sets.len(),
{
    let rest = sets.drop_last();
    assert(sets[sets.len() - 1].len() == 1);
    if rest.len() > 0 {
        assert forall|i: int| 0 <= i < rest.len() implies (#[trigger] rest[i]).len() == 1 by {
            assert(rest[i] == sets[i]);
        }
        singles_have_size_one(rest);
    } else {
        assert(max_size(rest) == 0);
    }
}

/// Phones from 1 on that are all different are no more than the highest one.
proof fn phones_are_no_more_than_highest(phones: Seq<PhoneId>)
    requires
        phones.no_duplicates(),
        forall|i: int| 0 <= i < phones.len() ==> #[trigger] phones[i] >= 1,
    ensures
        phones.len() <= highest(singly(phones)),
        0 <= highest(singly(phones)),
{
    let sets = singly(phones);
    let h = highest(sets);
    let ints = Seq::new(phones.len(), |i: int| phones[i] as int);
    if phones.len() > 0 {
        highest_bounds(sets, 0, 0);
        assert(sets[0][0] == phones[0]);
    } else {
        assert(h == 0);
    }
    assert(ints.no_duplicates());
    ints.unique_seq_to_set();
    vstd::set_lib::lemma_int_range(1, h + 1);
    let range = vstd::set_lib::set_int_range(1, h + 1);
    assert(ints.to_set().subset_of(range)) by {
        assert forall|x: int| ints.to_set().contains(x) implies range.contains(x) by {
            let i = choose|i: int| 0 <= i < ints.len() && ints[i] == x;
            assert(phones[i] >= 1);
            highest_bounds(sets, i, 0);
            assert(sets[i][0] == phones[i]);
        }
    }
    vstd::set_lib::lemma_len_subset(ints.to_set(), range);
}

proof fn singles_fit(phones: Seq<PhoneId>, classes: Seq<usize>)
    requires
        phones.len() > 0,
        classes.len() == phones.len(),
        phones.no_duplicates(),
        forall|j: int| 0 <= j < phones.len() ==> #[trigger] phones[j] >= 1,
        forall|j: int| 0 <= j < classes.len() ==> #[trigger] classes[j] >= 1,
    ensures
        fits(singly(phones), singly(classes), Seq::new(phones.len(), |j: int| false)),
        parallel(singly(phones), singly(classes), Seq::new(phones.len(), |j: int| false)),
        tabular(singly(phones)),
{
    let sets = singly(phones);
    let counts = singly(classes);
    let shared = Seq::new(phones.len(), |j: int| false);
    singles_have_size_one(sets);
    phones_are_no_more_than_highest(phones);
    assert forall|j: int| 0 <= j < sets.len() implies root_fits(#[trigger] counts[j], shared[j]) by {
        assert(counts[j][0] == classes[j]);
    }
    assert forall|j: int, k: int| 0 <= j < k < sets.len() implies (#[trigger] sets[j])[0] != (
    #[trigger] sets[k])[0] by {
        assert(sets[j][0] == phones[j] && sets[k][0] == phones[k]);
    }
}

/// In a monophone system the pdfs of a phone stand one after the other, in the order of its
/// pdf-classes, behind those of the phones before it; a class that the phone does not have gets no
/// pdf. There are as many pdfs as the phones have classes together. Only phones up to the largest
/// event value can be looked up where there are several.
pub proof fn monophone_pdfs_are_contiguous(
    phones: Seq<PhoneId>,
    classes: Seq<usize>,
    i: int,
    class: i32,
)
    requires
        phones.len() > 0,
        classes.len() == phones.len(),
        phones.no_duplicates(),
        forall|j: int| 0 <= j < phones.len() ==> #[trigger] phones[j] >= 1,
        forall|j: int| 0 <= j < classes.len() ==> #[trigger] classes[j] >= 1,
        sum_of_first(classes, classes.len() as int) <= u32::MAX,
        0 <= i < phones.len(),
        phones.len() == 1 || phones[i] <= i32::MAX,
        class >= 0,
    ensures
        answer(monophone_tree(phones, classes), window_event(seq![phones[i]], class)) == (if class
            < classes[i] {
            Some((sum_of_first(classes, i) + class) as u32)
        } else {
            None
        }),
        pdf_count(monophone_tree(phones, classes)) == sum_of_first(classes, classes.len() as int),
{
    let sets = singly(phones);
    let counts = singly(classes);
    let shared = Seq::new(phones.len(), |j: int| false);
    let n = phones.len() as int;
    let tree = monophone_tree(phones, classes);
    let event = window_event(seq![phones[i]], class);
    singles_fit(phones, classes);
    single_leaves_add_up(classes, n);
    single_leaves_add_up(classes, i);
    assert(shared =~= Seq::new(classes.len(), |j: int| false));
    stub_pdf_count(0, sets, counts, shared, 0);
    assert(event[0] == (PDF_CLASS_KEY, class));
    assert(lookup(event, PDF_CLASS_KEY) == Some(class));
    let rest = event.drop_first();
    assert(rest[0] == (0i32, phones[i] as i32));
    assert(lookup(rest, 0) == Some(phones[i] as i32));
    assert(lookup(event, 0) == Some(phones[i] as i32));
    reveal_with_fuel(answer, 3);
    assert(longest(counts[i]) == classes[i]);
    if n > 1 {
        let phone = phones[i];
        let j = set_of(sets, phone as int);
        assert(sets[i].len() == 1 && sets[i][0] == phone);
        assert(is_set_of(sets, phone as int));
        assert(sets[j][0] == phones[j]);
        assert(i == j);
        highest_bounds(sets, i, 0);
        assert(tree->table[phone as int] == root_tree(
            counts[i],
            shared[i],
            leaves_before(counts, shared, i),
        ));
    }
}

} // verus!
