//! The objects that Kaldi's model files hold: topologies, transition models, mixtures, trees and
//! matrices.

use vstd::prelude::*;
use vstd::string::StringExecFns;

use crate::float::{is_evaluator, FloatOp};
use crate::gmm::am::AmDiagGmm;
use crate::gmm::diag::{constant, has_constant, DiagGmm, GmmView};
use crate::gmm::matrix::{unflattened, Matrix, MatrixView};
use crate::hmm::context::ContextDependency;
use crate::hmm::topology::{state_views, EntryView, HmmState, HmmTopology, StateView, TopologyEntry};
use crate::hmm::transition::Tuple;
use crate::kaldi_io::read::{
    after_space, after_text, bytes_at, expected_at, float_at, floats_of, header_fault, i32_at,
    int_vec_at, matrix_at, peek_at, token_at, u32_at, vector_at, KaldiReadError, KaldiReader,
    Parsed, Trouble,
};
use crate::text::{append_decimal, append_int, decimal_int, joined, same_text, with_int};
use crate::tree::{EventMap, Tree};
use crate::types::PhoneId;

verus! {

/// `n` items, one after the other. A count that is not positive stands for none.
pub open spec fn repeated<T>(item: spec_fn(int) -> Parsed<T>, pos: int, n: int) -> Parsed<Seq<T>>
    decreases n,
{
    if n <= 0 {
        Parsed::Done(Seq::empty(), pos)
    } else {
        match repeated(item, pos, n - 1) {
            Parsed::Done(list, p) => match item(p) {
                Parsed::Done(x, next) => Parsed::Done(list.push(x), next),
                Parsed::Failed(e, next) => Parsed::Failed(e, next),
            },
            Parsed::Failed(e, p) => Parsed::Failed(e, p),
        }
    }
}

/// A list fails as soon as one of its items does.
proof fn failure_stays<T>(item: spec_fn(int) -> Parsed<T>, pos: int, k: int, n: int)
    requires
        k <= n,
        repeated(item, pos, k) is Failed,
    ensures
        repeated(item, pos, n) == repeated(item, pos, k),
    decreases n,
{
    if k < n {
        failure_stays(item, pos, k, n - 1);
    }
}

/// The trouble of a malformed object, at the cursor.
pub open spec fn malformed_at<T>(pos: int, msg: Seq<char>) -> Parsed<T> {
    Parsed::Failed(Trouble::Malformed { offset: pos, msg }, pos)
}

/// One transition: destination and probability.
pub open spec fn transition_at<F: Fn(FloatOp) -> u64>(buf: Seq<u8>, pos: int, f: F) -> Parsed<
    (usize, u32),
> {
    match i32_at(buf, pos) {
        Parsed::Done(dst, p1) => match float_at(buf, p1, f) {
            Parsed::Done(prob, p2) => Parsed::Done((dst as usize, prob), p2),
            Parsed::Failed(e, p2) => Parsed::Failed(e, p2),
        },
        Parsed::Failed(e, p1) => Parsed::Failed(e, p1),
    }
}

/// What the two pdf-classes of a state are not allowed to do.
pub open spec fn chain_message() -> Seq<char> {
    "chain-style topology (forward != self-loop pdf-class) is not supported"@
}

/// The pdf-class of a state. A topology that is not an HMM stores two, which have to agree.
pub open spec fn pdf_class_at(buf: Seq<u8>, pos: int, is_hmm: bool) -> Parsed<i32> {
    match i32_at(buf, pos) {
        Parsed::Done(forward, p1) => if is_hmm {
            Parsed::Done(forward, p1)
        } else {
            match i32_at(buf, p1) {
                Parsed::Done(looped, p2) => if looped != forward {
                    malformed_at(p2, chain_message())
                } else {
                    Parsed::Done(forward, p2)
                },
                Parsed::Failed(e, p2) => Parsed::Failed(e, p2),
            }
        },
        Parsed::Failed(e, p1) => Parsed::Failed(e, p1),
    }
}

/// One HMM state.
pub open spec fn state_at<F: Fn(FloatOp) -> u64>(
    buf: Seq<u8>,
    pos: int,
    is_hmm: bool,
    f: F,
) -> Parsed<StateView> {
    match pdf_class_at(buf, pos, is_hmm) {
        Parsed::Done(pdf_class, p1) => match i32_at(buf, p1) {
            Parsed::Done(n, p2) => match repeated(
                |p: int| transition_at(buf, p, f),
                p2,
                n as int,
            ) {
                Parsed::Done(transitions, p3) => Parsed::Done(
                    StateView { pdf_class, transitions },
                    p3,
                ),
                Parsed::Failed(e, p3) => Parsed::Failed(e, p3),
            },
            Parsed::Failed(e, p2) => Parsed::Failed(e, p2),
        },
        Parsed::Failed(e, p1) => Parsed::Failed(e, p1),
    }
}

/// The states of one topology entry.
pub open spec fn entry_at<F: Fn(FloatOp) -> u64>(
    buf: Seq<u8>,
    pos: int,
    is_hmm: bool,
    f: F,
) -> Parsed<Seq<StateView>> {
    match i32_at(buf, pos) {
        Parsed::Done(n, p1) => repeated(|p: int| state_at(buf, p, is_hmm, f), p1, n as int),
        Parsed::Failed(e, p1) => Parsed::Failed(e, p1),
    }
}

/// The number of entries; -1 in its place announces a topology that is not an HMM, and the number
/// follows.
pub open spec fn entry_count_at(buf: Seq<u8>, pos: int) -> Parsed<(bool, i32)> {
    match i32_at(buf, pos) {
        Parsed::Done(first, p1) => if first != -1 {
            if first < 0 {
                malformed_at(p1, "negative topology entry count "@ + decimal_int(first as int))
            } else {
                Parsed::Done((true, first), p1)
            }
        } else {
            match i32_at(buf, p1) {
                Parsed::Done(second, p2) => if second < 0 {
                    malformed_at(p2, "negative topology entry count "@ + decimal_int(second as int))
                } else {
                    Parsed::Done((false, second), p2)
                },
                Parsed::Failed(e, p2) => Parsed::Failed(e, p2),
            }
        },
        Parsed::Failed(e, p1) => Parsed::Failed(e, p1),
    }
}

/// The entry that `phone` maps to, if it is a legal one.
pub open spec fn entry_of(phone2idx: Seq<i32>, phone: i32) -> Option<int> {
    if 0 <= phone < phone2idx.len() && phone2idx[phone as int] >= 0 {
        Some(phone2idx[phone as int] as int)
    } else {
        None
    }
}

/// The first phone from the `k`-th on that maps to no entry.
pub open spec fn mapping_fault(
    phones: Seq<i32>,
    phone2idx: Seq<i32>,
    num_entries: int,
    k: int,
    pos: int,
) -> Option<Trouble>
    decreases phones.len() - k,
{
    if k < 0 || k >= phones.len() {
        None
    } else {
        match entry_of(phone2idx, phones[k]) {
            None => Some(
                Trouble::Malformed {
                    offset: pos,
                    msg: "phone "@ + decimal_int(phones[k] as int) + " has no topology entry"@,
                },
            ),
            Some(e) => if e >= num_entries {
                Some(
                    Trouble::Malformed {
                        offset: pos,
                        msg: "phone "@ + decimal_int(phones[k] as int) + " maps to entry "@
                            + decimal_int(e) + ", out of range"@,
                    },
                )
            } else {
                mapping_fault(phones, phone2idx, num_entries, k + 1, pos)
            },
        }
    }
}

/// Those of the first `k` phones that map to entry `e`, in order.
pub open spec fn phones_of_entry(
    phones: Seq<i32>,
    phone2idx: Seq<i32>,
    e: int,
    k: int,
) -> Seq<PhoneId>
    decreases k,
{
    if k <= 0 {
        Seq::empty()
    } else {
        let before = phones_of_entry(phones, phone2idx, e, k - 1);
        if entry_of(phone2idx, phones[k - 1]) == Some(e) {
            before.push(phones[k - 1] as u32)
        } else {
            before
        }
    }
}

/// The entries with their phones.
pub open spec fn mapped_entries(
    phones: Seq<i32>,
    phone2idx: Seq<i32>,
    entries: Seq<Seq<StateView>>,
    pos: int,
) -> Parsed<Seq<EntryView>> {
    match mapping_fault(phones, phone2idx, entries.len() as int, 0, pos) {
        Some(e) => Parsed::Failed(e, pos),
        None => Parsed::Done(
            Seq::new(
                entries.len(),
                |e: int|
                    EntryView {
                        phones: phones_of_entry(phones, phone2idx, e, phones.len() as int),
                        states: entries[e],
                    },
            ),
            pos,
        ),
    }
}

/// A topology behind its phone lists.
pub open spec fn entries_at<F: Fn(FloatOp) -> u64>(
    buf: Seq<u8>,
    pos: int,
    phones: Seq<i32>,
    phone2idx: Seq<i32>,
    f: F,
) -> Parsed<Seq<EntryView>> {
    match entry_count_at(buf, pos) {
        Parsed::Done(header, p1) => match repeated(
            |p: int| entry_at(buf, p, header.0, f),
            p1,
            header.1 as int,
        ) {
            Parsed::Done(entries, p2) => match expected_at(buf, p2, "</Topology>"@) {
                Parsed::Done(u, p3) => mapped_entries(phones, phone2idx, entries, p3),
                Parsed::Failed(e, p3) => Parsed::Failed(e, p3),
            },
            Parsed::Failed(e, p2) => Parsed::Failed(e, p2),
        },
        Parsed::Failed(e, p1) => Parsed::Failed(e, p1),
    }
}

/// A topology: the phones, the entry of each phone, and the entries.
pub open spec fn topology_at<F: Fn(FloatOp) -> u64>(buf: Seq<u8>, pos: int, f: F) -> Parsed<
    Seq<EntryView>,
> {
    match expected_at(buf, pos, "<Topology>"@) {
        Parsed::Done(u, p1) => match int_vec_at(buf, p1) {
            Parsed::Done(phones, p2) => match int_vec_at(buf, p2) {
                Parsed::Done(phone2idx, p3) => entries_at(buf, p3, phones, phone2idx, f),
                Parsed::Failed(e, p3) => Parsed::Failed(e, p3),
            },
            Parsed::Failed(e, p2) => Parsed::Failed(e, p2),
        },
        Parsed::Failed(e, p1) => Parsed::Failed(e, p1),
    }
}

fn read_transition<F: Fn(FloatOp) -> u64>(r: &mut KaldiReader, f: &F) -> (res: Result<
    (usize, u32),
    KaldiReadError,
>)
    requires
        is_evaluator(*f),
        old(r).inside(),
    ensures
        final(r).inside(),
        final(r).bytes() == old(r).bytes(),
        match transition_at(old(r).bytes(), old(r).at(), *f) {
            Parsed::Done(v, next) => res matches Ok(x) && x == v && final(r).at() == next,
            Parsed::Failed(e, next) => res matches Err(x) && x@ == e && final(r).at() == next,
        },
{
    let dst: i32 = match r.i32() {
        Ok(v) => v,
        Err(e) => {
            return Err(e);
        },
    };
    match r.float(f) {
        Ok(prob) => Ok((dst as usize, prob)),
        Err(e) => Err(e),
    }
}

fn read_state<F: Fn(FloatOp) -> u64>(r: &mut KaldiReader, is_hmm: bool, f: &F) -> (res: Result<
    HmmState,
    KaldiReadError,
>)
    requires
        is_evaluator(*f),
        old(r).inside(),
    ensures
        final(r).inside(),
        final(r).bytes() == old(r).bytes(),
        match state_at(old(r).bytes(), old(r).at(), is_hmm, *f) {
            Parsed::Done(v, next) => res matches Ok(x) && x@ == v && final(r).at() == next,
            Parsed::Failed(e, next) => res matches Err(x) && x@ == e && final(r).at() == next,
        },
{
    let ghost buf = r.bytes();
    let pdf_class: i32 = match r.i32() {
        Ok(v) => v,
        Err(e) => {
            return Err(e);
        },
    };
    if !is_hmm {
        let looped: i32 = match r.i32() {
            Ok(v) => v,
            Err(e) => {
                return Err(e);
            },
        };
        if looped != pdf_class {
            return Err(
                r.malformed(
                    String::from_str(
                        "chain-style topology (forward != self-loop pdf-class) is not supported",
                    ),
                ),
            );
        }
    }
    let n: i32 = match r.i32() {
        Ok(v) => v,
        Err(e) => {
            return Err(e);
        },
    };
    let ghost start = r.at();
    let ghost item = |p: int| transition_at(buf, p, *f);
    let mut transitions: Vec<(usize, u32)> = Vec::new();
    let mut i: i32 = 0;
    while i < n
        invariant
            is_evaluator(*f),
            r.inside(),
            r.bytes() == buf,
            buf == old(r).bytes(),
            0 <= i,
            i <= n || n < 0,
            n < 0 ==> i == 0,
            item == |p: int| transition_at(buf, p, *f),
            repeated(item, start, i as int) == Parsed::Done(transitions@, r.at()),
            state_at(old(r).bytes(), old(r).at(), is_hmm, *f) == (match repeated(
                item,
                start,
                n as int,
            ) {
                Parsed::Done(ts, p3) => Parsed::Done(StateView { pdf_class, transitions: ts }, p3),
                Parsed::Failed(e, p3) => Parsed::Failed(e, p3),
            }),
        decreases n - i,
    {
        let ghost p = r.at();
        match read_transition(r, f) {
            Ok(t) => {
                transitions.push(t);
            },
            Err(e) => {
                proof {
                    assert(item(p) is Failed);
                    failure_stays(item, start, i + 1, n as int);
                }
                return Err(e);
            },
        }
        i += 1;
    }
    Ok(HmmState::new(pdf_class, transitions))
}

fn read_entry<F: Fn(FloatOp) -> u64>(r: &mut KaldiReader, is_hmm: bool, f: &F) -> (res: Result<
    Vec<HmmState>,
    KaldiReadError,
>)
    requires
        is_evaluator(*f),
        old(r).inside(),
    ensures
        final(r).inside(),
        final(r).bytes() == old(r).bytes(),
        match entry_at(old(r).bytes(), old(r).at(), is_hmm, *f) {
            Parsed::Done(v, next) => res matches Ok(x) && state_views(x@) == v && final(r).at()
                == next,
            Parsed::Failed(e, next) => res matches Err(x) && x@ == e && final(r).at() == next,
        },
{
    let ghost buf = r.bytes();
    let n: i32 = match r.i32() {
        Ok(v) => v,
        Err(e) => {
            return Err(e);
        },
    };
    let ghost start = r.at();
    let ghost item = |p: int| state_at(buf, p, is_hmm, *f);
    let mut states: Vec<HmmState> = Vec::new();
    let mut i: i32 = 0;
    assert(state_views(states@) =~= Seq::<StateView>::empty());
    while i < n
        invariant
            is_evaluator(*f),
            r.inside(),
            r.bytes() == buf,
            buf == old(r).bytes(),
            0 <= i,
            i <= n || n < 0,
            n < 0 ==> i == 0,
            item == |p: int| state_at(buf, p, is_hmm, *f),
            repeated(item, start, i as int) == Parsed::Done(state_views(states@), r.at()),
            entry_at(old(r).bytes(), old(r).at(), is_hmm, *f) == repeated(item, start, n as int),
        decreases n - i,
    {
        let ghost p = r.at();
        let ghost before = states@;
        match read_state(r, is_hmm, f) {
            Ok(s) => {
                states.push(s);
                assert(state_views(states@) =~= state_views(before).push(s@));
            },
            Err(e) => {
                proof {
                    assert(item(p) is Failed);
                    failure_stays(item, start, i + 1, n as int);
                }
                return Err(e);
            },
        }
        i += 1;
    }
    Ok(states)
}

/// The views of a list of prototypes.
pub open spec fn entry_views(entries: Seq<Vec<HmmState>>) -> Seq<Seq<StateView>> {
    Seq::new(entries.len(), |i: int| state_views(entries[i]@))
}

fn read_entries<F: Fn(FloatOp) -> u64>(
    r: &mut KaldiReader,
    is_hmm: bool,
    n: i32,
    f: &F,
) -> (res: Result<Vec<Vec<HmmState>>, KaldiReadError>)
    requires
        is_evaluator(*f),
        old(r).inside(),
    ensures
        final(r).inside(),
        final(r).bytes() == old(r).bytes(),
        match repeated(
            |p: int| entry_at(old(r).bytes(), p, is_hmm, *f),
            old(r).at(),
            n as int,
        ) {
            Parsed::Done(v, next) => res matches Ok(x) && entry_views(x@) == v && final(r).at()
                == next,
            Parsed::Failed(e, next) => res matches Err(x) && x@ == e && final(r).at() == next,
        },
{
    let ghost buf = r.bytes();
    let ghost start = r.at();
    let ghost item = |p: int| entry_at(buf, p, is_hmm, *f);
    let mut entries: Vec<Vec<HmmState>> = Vec::new();
    let mut i: i32 = 0;
    assert(entry_views(entries@) =~= Seq::<Seq<StateView>>::empty());
    while i < n
        invariant
            is_evaluator(*f),
            r.inside(),
            r.bytes() == buf,
            buf == old(r).bytes(),
            start == old(r).at(),
            0 <= i,
            i <= n || n < 0,
            n < 0 ==> i == 0,
            item == |p: int| entry_at(buf, p, is_hmm, *f),
            repeated(item, start, i as int) == Parsed::Done(entry_views(entries@), r.at()),
        decreases n - i,
    {
        let ghost p = r.at();
        let ghost before = entries@;
        match read_entry(r, is_hmm, f) {
            Ok(s) => {
                entries.push(s);
                assert(entry_views(entries@) =~= entry_views(before).push(state_views(s@)));
            },
            Err(e) => {
                proof {
                    assert(item(p) is Failed);
                    failure_stays(item, start, i + 1, n as int);
                }
                return Err(e);
            },
        }
        i += 1;
    }
    Ok(entries)
}

/// Put every phone under the entry that it maps to.
fn map_phones(r: &KaldiReader, phones: &Vec<i32>, phone2idx: &Vec<i32>, num_entries: usize) -> (res:
    Result<Vec<Vec<PhoneId>>, KaldiReadError>)
    ensures
        match mapping_fault(phones@, phone2idx@, num_entries as int, 0, r.at()) {
            Some(e) => res matches Err(x) && x@ == e,
            None => res matches Ok(lists) && lists@.len() == num_entries && forall|e: int|
                0 <= e < num_entries ==> (#[trigger] lists@[e])@ == phones_of_entry(
                    phones@,
                    phone2idx@,
                    e,
                    phones@.len() as int,
                ),
        },
{
    let mut lists: Vec<Vec<PhoneId>> = Vec::new();
    let mut e: usize = 0;
    while e < num_entries
        invariant
            e <= num_entries,
            lists@.len() == e,
            forall|k: int| 0 <= k < e ==> (#[trigger] lists@[k])@ == Seq::<PhoneId>::empty(),
        decreases num_entries - e,
    {
        lists.push(Vec::new());
        e += 1;
    }
    let mut k: usize = 0;
    while k < phones.len()
        invariant
            k <= phones@.len(),
            lists@.len() == num_entries,
            mapping_fault(phones@, phone2idx@, num_entries as int, 0, r.at()) == mapping_fault(
                phones@,
                phone2idx@,
                num_entries as int,
                k as int,
                r.at(),
            ),
            forall|e: int|
                0 <= e < num_entries ==> (#[trigger] lists@[e])@ == phones_of_entry(
                    phones@,
                    phone2idx@,
                    e,
                    k as int,
                ),
        decreases phones.len() - k,
    {
        let phone: i32 = phones[k];
        if phone < 0 || phone as usize >= phone2idx.len() || phone2idx[phone as usize] < 0 {
            let mut msg = with_int("phone ", phone as i64);
            msg.append(" has no topology entry");
            return Err(r.malformed(msg));
        }
        let idx: usize = phone2idx[phone as usize] as usize;
        if idx >= num_entries {
            let mut msg = with_int("phone ", phone as i64);
            msg.append(" maps to entry ");
            append_int(&mut msg, idx as i64);
            msg.append(", out of range");
            return Err(r.malformed(msg));
        }
        let ghost before = lists@;
        let mut slot: Vec<PhoneId> = Vec::new();
        std::mem::swap(&mut slot, &mut lists[idx]);
        slot.push(phone as u32);
        std::mem::swap(&mut slot, &mut lists[idx]);
        proof {
            assert forall|e: int| 0 <= e < num_entries implies (#[trigger] lists@[e])@
                == phones_of_entry(phones@, phone2idx@, e, k + 1) by {
                assert(before[e]@ == phones_of_entry(phones@, phone2idx@, e, k as int));
            }
        }
        k += 1;
    }
    Ok(lists)
}

/// A topology.
pub fn read_topology<F: Fn(FloatOp) -> u64>(r: &mut KaldiReader, f: &F) -> (res: Result<
    HmmTopology,
    KaldiReadError,
>)
    requires
        is_evaluator(*f),
        old(r).inside(),
    ensures
        final(r).inside(),
        final(r).bytes() == old(r).bytes(),
        match topology_at(old(r).bytes(), old(r).at(), *f) {
            Parsed::Done(v, next) => res matches Ok(x) && x@ == v && final(r).at() == next,
            Parsed::Failed(e, next) => res matches Err(x) && x@ == e && final(r).at() == next,
        },
{
    match r.expect("<Topology>") {
        Ok(u) => {},
        Err(e) => {
            return Err(e);
        },
    }
    let phones = match r.int_vec() {
        Ok(v) => v,
        Err(e) => {
            return Err(e);
        },
    };
    let phone2idx = match r.int_vec() {
        Ok(v) => v,
        Err(e) => {
            return Err(e);
        },
    };
    let mut count: i32 = match r.i32() {
        Ok(v) => v,
        Err(e) => {
            return Err(e);
        },
    };
    let is_hmm: bool = count != -1;
    if !is_hmm {
        count = match r.i32() {
            Ok(v) => v,
            Err(e) => {
                return Err(e);
            },
        };
    }
    if count < 0 {
        return Err(r.malformed(with_int("negative topology entry count ", count as i64)));
    }
    let states = match read_entries(r, is_hmm, count, f) {
        Ok(v) => v,
        Err(e) => {
            return Err(e);
        },
    };
    match r.expect("</Topology>") {
        Ok(u) => {},
        Err(e) => {
            return Err(e);
        },
    }
    let ghost pos = r.at();
    let ghost views = entry_views(states@);
    let lists = match map_phones(r, &phones, &phone2idx, states.len()) {
        Ok(v) => v,
        Err(e) => {
            return Err(e);
        },
    };
    let topo = assemble(states, lists);
    proof {
        let want = mapped_entries(phones@, phone2idx@, views, pos)->Done_0;
        assert(topo@ =~= want);
    }
    Ok(topo)
}

/// Join the prototypes with their phones.
fn assemble(states: Vec<Vec<HmmState>>, lists: Vec<Vec<PhoneId>>) -> (r: HmmTopology)
    requires
        states@.len() == lists@.len(),
    ensures
        r@.len() == states@.len(),
        forall|i: int|
            0 <= i < r@.len() ==> #[trigger] r@[i] == (EntryView {
                phones: lists@[i]@,
                states: state_views(states@[i]@),
            }),
{
    let ghost all_states = states@;
    let ghost all_lists = lists@;
    let n: usize = states.len();
    let mut states: Vec<Vec<HmmState>> = states;
    let mut lists: Vec<Vec<PhoneId>> = lists;
    let mut reversed: Vec<TopologyEntry> = Vec::new();
    let mut i: usize = n;
    while i > 0
        invariant
            i <= n,
            n == all_states.len(),
            n == all_lists.len(),
            states@ == all_states.take(i as int),
            lists@ == all_lists.take(i as int),
            reversed@.len() == n - i,
            forall|k: int|
                0 <= k < n - i ==> (#[trigger] reversed@[k])@ == (EntryView {
                    phones: all_lists[n - 1 - k]@,
                    states: state_views(all_states[n - 1 - k]@),
                }),
        decreases i,
    {
        let s = states.pop().unwrap();
        let p = lists.pop().unwrap();
        proof {
            assert(all_states.take(i as int).drop_last() == all_states.take(i - 1));
            assert(all_lists.take(i as int).drop_last() == all_lists.take(i - 1));
        }
        reversed.push(TopologyEntry { phones: p, states: s });
        i -= 1;
    }
    let mut entries: Vec<TopologyEntry> = Vec::new();
    let ghost rev = reversed@;
    let mut k: usize = n;
    while k > 0
        invariant
            k <= n,
            n == all_states.len(),
            n == all_lists.len(),
            rev.len() == n,
            reversed@ == rev.take(k as int),
            entries@.len() == n - k,
            forall|j: int|
                0 <= j < n ==> (#[trigger] rev[j])@ == (EntryView {
                    phones: all_lists[n - 1 - j]@,
                    states: state_views(all_states[n - 1 - j]@),
                }),
            forall|j: int|
                0 <= j < n - k ==> (#[trigger] entries@[j])@ == (EntryView {
                    phones: all_lists[j]@,
                    states: state_views(all_states[j]@),
                }),
        decreases k,
    {
        let e = reversed.pop().unwrap();
        proof {
            assert(rev.take(k as int).drop_last() == rev.take(k - 1));
            assert(e == rev[k - 1]);
        }
        entries.push(e);
        k -= 1;
    }
    HmmTopology { entries }
}

/// A transition model as it is stored: the topology, the tuples in their own order, and the log
/// probabilities by transition id.
#[derive(Debug)]
pub struct KaldiTransitionModel {
    pub topo: HmmTopology,
    pub tuples: Vec<Tuple>,
    /// Place 0 is unused.
    pub log_probs: Vec<u32>,
}

/// What a stored transition model is.
#[verifier::ext_equal]
pub struct StoredModel {
    pub topo: Seq<EntryView>,
    pub tuples: Seq<Tuple>,
    pub log_probs: Seq<u32>,
}

impl View for KaldiTransitionModel {
    type V = StoredModel;

    open spec fn view(&self) -> StoredModel {
        StoredModel { topo: self.topo@, tuples: self.tuples@, log_probs: self.log_probs@ }
    }
}

/// A negative HMM state stands for state 0.
pub open spec fn clamped(v: i32) -> usize {
    if v < 0 {
        0
    } else {
        v as usize
    }
}

/// One tuple. Where the self-loop pdf is not stored it is the forward pdf.
pub open spec fn tuple_at(buf: Seq<u8>, pos: int, has_loop_pdf: bool) -> Parsed<Tuple> {
    match i32_at(buf, pos) {
        Parsed::Done(phone, p1) => match i32_at(buf, p1) {
            Parsed::Done(state, p2) => match i32_at(buf, p2) {
                Parsed::Done(forward, p3) => {
                    let t = Tuple {
                        phone: phone as u32,
                        hmm_state: clamped(state),
                        forward_pdf: forward as u32,
                        self_loop_pdf: forward as u32,
                    };
                    if has_loop_pdf {
                        match i32_at(buf, p3) {
                            Parsed::Done(looped, p4) => Parsed::Done(
                                Tuple { self_loop_pdf: looped as u32, ..t },
                                p4,
                            ),
                            Parsed::Failed(e, p4) => Parsed::Failed(e, p4),
                        }
                    } else {
                        Parsed::Done(t, p3)
                    }
                },
                Parsed::Failed(e, p3) => Parsed::Failed(e, p3),
            },
            Parsed::Failed(e, p2) => Parsed::Failed(e, p2),
        },
        Parsed::Failed(e, p1) => Parsed::Failed(e, p1),
    }
}

/// One of two tokens, and whether it is the first of them.
pub open spec fn either_at(buf: Seq<u8>, pos: int, first: Seq<char>, second: Seq<char>, msg: Seq<
    char,
>) -> Parsed<bool> {
    match token_at(buf, pos) {
        Parsed::Done(token, next) => if token == first {
            Parsed::Done(true, next)
        } else if token == second {
            Parsed::Done(false, next)
        } else {
            malformed_at(next, msg + token)
        },
        Parsed::Failed(e, next) => Parsed::Failed(e, next),
    }
}

/// The tuples, between their opening and their closing token.
pub open spec fn tuples_at(buf: Seq<u8>, pos: int) -> Parsed<Seq<Tuple>> {
    match either_at(buf, pos, "<Tuples>"@, "<Triples>"@, "expected <Tuples> or <Triples>, got "@) {
        Parsed::Done(has_loop_pdf, p1) => match i32_at(buf, p1) {
            Parsed::Done(n, p2) => if n < 0 {
                malformed_at(p2, "negative tuple count "@ + decimal_int(n as int))
            } else {
                match repeated(|p: int| tuple_at(buf, p, has_loop_pdf), p2, n as int) {
                    Parsed::Done(list, p3) => match either_at(
                        buf,
                        p3,
                        "</Tuples>"@,
                        "</Triples>"@,
                        "expected </Tuples> or </Triples>, got "@,
                    ) {
                        Parsed::Done(b, p4) => Parsed::Done(list, p4),
                        Parsed::Failed(e, p4) => Parsed::Failed(e, p4),
                    },
                    Parsed::Failed(e, p3) => Parsed::Failed(e, p3),
                }
            },
            Parsed::Failed(e, p2) => Parsed::Failed(e, p2),
        },
        Parsed::Failed(e, p1) => Parsed::Failed(e, p1),
    }
}

/// The log probabilities, and the end of the model.
pub open spec fn log_probs_at<F: Fn(FloatOp) -> u64>(buf: Seq<u8>, pos: int, f: F) -> Parsed<
    Seq<u32>,
> {
    match expected_at(buf, pos, "<LogProbs>"@) {
        Parsed::Done(u, p1) => match vector_at(buf, p1, f) {
            Parsed::Done(v, p2) => match expected_at(buf, p2, "</LogProbs>"@) {
                Parsed::Done(w, p3) => match expected_at(buf, p3, "</TransitionModel>"@) {
                    Parsed::Done(x, p4) => Parsed::Done(v, p4),
                    Parsed::Failed(e, p4) => Parsed::Failed(e, p4),
                },
                Parsed::Failed(e, p3) => Parsed::Failed(e, p3),
            },
            Parsed::Failed(e, p2) => Parsed::Failed(e, p2),
        },
        Parsed::Failed(e, p1) => Parsed::Failed(e, p1),
    }
}

/// A stored transition model.
pub open spec fn transition_model_at<F: Fn(FloatOp) -> u64>(
    buf: Seq<u8>,
    pos: int,
    f: F,
) -> Parsed<StoredModel> {
    match expected_at(buf, pos, "<TransitionModel>"@) {
        Parsed::Done(u, p1) => match topology_at(buf, p1, f) {
            Parsed::Done(topo, p2) => match tuples_at(buf, p2) {
                Parsed::Done(tuples, p3) => match log_probs_at(buf, p3, f) {
                    Parsed::Done(log_probs, p4) => Parsed::Done(
                        StoredModel { topo, tuples, log_probs },
                        p4,
                    ),
                    Parsed::Failed(e, p4) => Parsed::Failed(e, p4),
                },
                Parsed::Failed(e, p3) => Parsed::Failed(e, p3),
            },
            Parsed::Failed(e, p2) => Parsed::Failed(e, p2),
        },
        Parsed::Failed(e, p1) => Parsed::Failed(e, p1),
    }
}

fn read_tuple(r: &mut KaldiReader, has_loop_pdf: bool) -> (res: Result<Tuple, KaldiReadError>)
    requires
        old(r).inside(),
    ensures
        final(r).inside(),
        final(r).bytes() == old(r).bytes(),
        match tuple_at(old(r).bytes(), old(r).at(), has_loop_pdf) {
            Parsed::Done(v, next) => res matches Ok(x) && x == v && final(r).at() == next,
            Parsed::Failed(e, next) => res matches Err(x) && x@ == e && final(r).at() == next,
        },
{
    let phone: i32 = match r.i32() {
        Ok(v) => v,
        Err(e) => {
            return Err(e);
        },
    };
    let state: i32 = match r.i32() {
        Ok(v) => v,
        Err(e) => {
            return Err(e);
        },
    };
    let forward: i32 = match r.i32() {
        Ok(v) => v,
        Err(e) => {
            return Err(e);
        },
    };
    let looped: i32 = if has_loop_pdf {
        match r.i32() {
            Ok(v) => v,
            Err(e) => {
                return Err(e);
            },
        }
    } else {
        forward
    };
    let hmm_state: usize = if state < 0 {
        0
    } else {
        state as usize
    };
    Ok(
        Tuple {
            phone: phone as u32,
            hmm_state,
            forward_pdf: forward as u32,
            self_loop_pdf: looped as u32,
        },
    )
}

fn read_either(
    r: &mut KaldiReader,
    first: &str,
    second: &str,
    msg: &str,
) -> (res: Result<bool, KaldiReadError>)
    requires
        old(r).inside(),
    ensures
        final(r).inside(),
        final(r).bytes() == old(r).bytes(),
        match either_at(old(r).bytes(), old(r).at(), first@, second@, msg@) {
            Parsed::Done(v, next) => res matches Ok(x) && x == v && final(r).at() == next,
            Parsed::Failed(e, next) => res matches Err(x) && x@ == e && final(r).at() == next,
        },
{
    let token = match r.token() {
        Ok(t) => t,
        Err(e) => {
            return Err(e);
        },
    };
    if same_text(token.as_str(), first) {
        Ok(true)
    } else if same_text(token.as_str(), second) {
        Ok(false)
    } else {
        Err(r.malformed(joined(msg, token.as_str())))
    }
}

fn read_tuples(r: &mut KaldiReader) -> (res: Result<Vec<Tuple>, KaldiReadError>)
    requires
        old(r).inside(),
    ensures
        final(r).inside(),
        final(r).bytes() == old(r).bytes(),
        match tuples_at(old(r).bytes(), old(r).at()) {
            Parsed::Done(v, next) => res matches Ok(x) && x@ == v && final(r).at() == next,
            Parsed::Failed(e, next) => res matches Err(x) && x@ == e && final(r).at() == next,
        },
{
    let ghost buf = r.bytes();
    let has_loop_pdf: bool = match read_either(
        r,
        "<Tuples>",
        "<Triples>",
        "expected <Tuples> or <Triples>, got ",
    ) {
        Ok(v) => v,
        Err(e) => {
            return Err(e);
        },
    };
    let n: i32 = match r.i32() {
        Ok(v) => v,
        Err(e) => {
            return Err(e);
        },
    };
    if n < 0 {
        return Err(r.malformed(with_int("negative tuple count ", n as i64)));
    }
    let ghost start = r.at();
    let ghost item = |p: int| tuple_at(buf, p, has_loop_pdf);
    let mut tuples: Vec<Tuple> = Vec::new();
    let mut i: i32 = 0;
    while i < n
        invariant
            r.inside(),
            r.bytes() == buf,
            buf == old(r).bytes(),
            0 <= i <= n,
            item == |p: int| tuple_at(buf, p, has_loop_pdf),
            repeated(item, start, i as int) == Parsed::Done(tuples@, r.at()),
            repeated(item, start, n as int) matches Parsed::Failed(e, p) ==> tuples_at(
                old(r).bytes(),
                old(r).at(),
            ) == Parsed::<Seq<Tuple>>::Failed(e, p),
        decreases n - i,
    {
        let ghost p = r.at();
        match read_tuple(r, has_loop_pdf) {
            Ok(t) => {
                tuples.push(t);
            },
            Err(e) => {
                proof {
                    assert(item(p) is Failed);
                    failure_stays(item, start, i + 1, n as int);
                }
                return Err(e);
            },
        }
        i += 1;
    }
    match read_either(r, "</Tuples>", "</Triples>", "expected </Tuples> or </Triples>, got ") {
        Ok(b) => Ok(tuples),
        Err(e) => Err(e),
    }
}

/// A transition model. The tuples stand between `<Tuples>` tokens, or between `<Triples>` tokens
/// where the self-loop pdf is not stored.
pub fn read_transition_model<F: Fn(FloatOp) -> u64>(r: &mut KaldiReader, f: &F) -> (res: Result<
    KaldiTransitionModel,
    KaldiReadError,
>)
    requires
        is_evaluator(*f),
        old(r).inside(),
    ensures
        final(r).inside(),
        final(r).bytes() == old(r).bytes(),
        match transition_model_at(old(r).bytes(), old(r).at(), *f) {
            Parsed::Done(v, next) => res matches Ok(x) && x@ == v && final(r).at() == next,
            Parsed::Failed(e, next) => res matches Err(x) && x@ == e && final(r).at() == next,
        },
{
    match r.expect("<TransitionModel>") {
        Ok(u) => {},
        Err(e) => {
            return Err(e);
        },
    }
    let topo = match read_topology(r, f) {
        Ok(v) => v,
        Err(e) => {
            return Err(e);
        },
    };
    let tuples = match read_tuples(r) {
        Ok(v) => v,
        Err(e) => {
            return Err(e);
        },
    };
    match r.expect("<LogProbs>") {
        Ok(u) => {},
        Err(e) => {
            return Err(e);
        },
    }
    let log_probs = match r.vector(f) {
        Ok(v) => v,
        Err(e) => {
            return Err(e);
        },
    };
    match r.expect("</LogProbs>") {
        Ok(u) => {},
        Err(e) => {
            return Err(e);
        },
    }
    match r.expect("</TransitionModel>") {
        Ok(u) => {},
        Err(e) => {
            return Err(e);
        },
    }
    Ok(KaldiTransitionModel { topo, tuples, log_probs })
}

/// How `format!("{:?}", ..)` shows a byte as a character, or its absence.
pub uninterp spec fn shown(byte: Option<u8>) -> Seq<char>;

/// Calls `format!` on the byte as a character with the `Debug` format: the claim is that the text
/// depends on the byte alone.
#[verifier::external_body]
fn show_byte(byte: Option<u8>) -> (r: String)
    ensures
        r@ == shown(byte),
{
    format!("{:?}", byte.map(|c| c as char))
}

/// An event map. `NULL` stands for a table entry that holds nothing.
pub open spec fn event_map_at(buf: Seq<u8>, pos: int) -> Parsed<Tree>
    decreases buf.len() - pos, 0int,
{
    let head = peek_at(buf, pos);
    if head == Some(0x4eu8) {
        match expected_at(buf, pos, "NULL"@) {
            Parsed::Done(u, p1) => Parsed::Done(Tree::Missing, p1),
            Parsed::Failed(e, p1) => Parsed::Failed(e, p1),
        }
    } else if head == Some(0x43u8) {
        match expected_at(buf, pos, "CE"@) {
            Parsed::Done(u, p1) => match i32_at(buf, p1) {
                Parsed::Done(leaf, p2) => Parsed::Done(Tree::Constant(leaf as u32), p2),
                Parsed::Failed(e, p2) => Parsed::Failed(e, p2),
            },
            Parsed::Failed(e, p1) => Parsed::Failed(e, p1),
        }
    } else if head == Some(0x54u8) {
        match table_header_at(buf, pos) {
            Parsed::Done(header, p1) => if pos < p1 <= buf.len() {
                match children_at(buf, p1, header.1 as int) {
                    Parsed::Done(table, p2) => match expected_at(buf, p2, ")"@) {
                        Parsed::Done(u, p3) => Parsed::Done(Tree::Table { key: header.0, table }, p3),
                        Parsed::Failed(e, p3) => Parsed::Failed(e, p3),
                    },
                    Parsed::Failed(e, p2) => Parsed::Failed(e, p2),
                }
            } else {
                malformed_at(pos, seq![])
            },
            Parsed::Failed(e, p1) => Parsed::Failed(e, p1),
        }
    } else if head == Some(0x53u8) {
        match split_header_at(buf, pos) {
            Parsed::Done(header, p1) => if pos < p1 <= buf.len() {
                match children_at(buf, p1, 1) {
                    Parsed::Done(yes, p2) => if yes[0] is Missing {
                        malformed_at(p2, "split node with a NULL yes-child"@)
                    } else if pos < p2 <= buf.len() {
                        match children_at(buf, p2, 1) {
                            Parsed::Done(no, p3) => if no[0] is Missing {
                                malformed_at(p3, "split node with a NULL no-child"@)
                            } else {
                                match expected_at(buf, p3, "}"@) {
                                    Parsed::Done(u, p4) => Parsed::Done(
                                        Tree::Split {
                                            key: header.0,
                                            yes_set: header.1,
                                            yes: Box::new(yes[0]),
                                            no: Box::new(no[0]),
                                        },
                                        p4,
                                    ),
                                    Parsed::Failed(e, p4) => Parsed::Failed(e, p4),
                                }
                            },
                            Parsed::Failed(e, p3) => Parsed::Failed(e, p3),
                        }
                    } else {
                        malformed_at(pos, seq![])
                    },
                    Parsed::Failed(e, p2) => Parsed::Failed(e, p2),
                }
            } else {
                malformed_at(pos, seq![])
            },
            Parsed::Failed(e, p1) => Parsed::Failed(e, p1),
        }
    } else {
        malformed_at(pos, "expected an event-map node (N/C/T/S), found "@ + shown(head))
    }
}

/// `n` event maps, one after the other.
pub open spec fn children_at(buf: Seq<u8>, pos: int, n: int) -> Parsed<Seq<Tree>>
    decreases buf.len() - pos, n,
{
    if n <= 0 {
        Parsed::Done(Seq::empty(), pos)
    } else {
        match event_map_at(buf, pos) {
            Parsed::Done(t, p1) => if pos < p1 <= buf.len() {
                match children_at(buf, p1, n - 1) {
                    Parsed::Done(rest, p2) => Parsed::Done(seq![t] + rest, p2),
                    Parsed::Failed(e, p2) => Parsed::Failed(e, p2),
                }
            } else {
                malformed_at(pos, seq![])
            },
            Parsed::Failed(e, p1) => Parsed::Failed(e, p1),
        }
    }
}

/// The key and the size of a table.
pub open spec fn table_header_at(buf: Seq<u8>, pos: int) -> Parsed<(i32, u32)> {
    match expected_at(buf, pos, "TE"@) {
        Parsed::Done(u, p1) => match i32_at(buf, p1) {
            Parsed::Done(key, p2) => match u32_at(buf, p2) {
                Parsed::Done(size, p3) => match expected_at(buf, p3, "("@) {
                    Parsed::Done(v, p4) => Parsed::Done((key, size), p4),
                    Parsed::Failed(e, p4) => Parsed::Failed(e, p4),
                },
                Parsed::Failed(e, p3) => Parsed::Failed(e, p3),
            },
            Parsed::Failed(e, p2) => Parsed::Failed(e, p2),
        },
        Parsed::Failed(e, p1) => Parsed::Failed(e, p1),
    }
}

/// The key and the yes-set of a split.
pub open spec fn split_header_at(buf: Seq<u8>, pos: int) -> Parsed<(i32, Seq<i32>)> {
    match expected_at(buf, pos, "SE"@) {
        Parsed::Done(u, p1) => match i32_at(buf, p1) {
            Parsed::Done(key, p2) => match int_vec_at(buf, p2) {
                Parsed::Done(yes_set, p3) => match expected_at(buf, p3, "{"@) {
                    Parsed::Done(v, p4) => Parsed::Done((key, yes_set), p4),
                    Parsed::Failed(e, p4) => Parsed::Failed(e, p4),
                },
                Parsed::Failed(e, p3) => Parsed::Failed(e, p3),
            },
            Parsed::Failed(e, p2) => Parsed::Failed(e, p2),
        },
        Parsed::Failed(e, p1) => Parsed::Failed(e, p1),
    }
}

proof fn space_advances(buf: Seq<u8>, pos: int)
    requires
        0 <= pos <= buf.len(),
    ensures
        pos <= after_space(buf, pos) <= buf.len(),
    decreases buf.len() - pos,
{
    if pos < buf.len() && crate::text::is_ascii_space(buf[pos]) {
        space_advances(buf, pos + 1);
    }
}

proof fn text_advances(buf: Seq<u8>, pos: int)
    requires
        0 <= pos <= buf.len(),
    ensures
        pos <= after_text(buf, pos) <= buf.len(),
    decreases buf.len() - pos,
{
    if pos < buf.len() && !crate::text::is_ascii_space(buf[pos]) {
        text_advances(buf, pos + 1);
    }
}

/// A token that is read moves the cursor on.
proof fn token_advances(buf: Seq<u8>, pos: int)
    requires
        0 <= pos <= buf.len(),
    ensures
        token_at(buf, pos) matches Parsed::Done(t, next) ==> pos < next <= buf.len(),
{
    space_advances(buf, pos);
    text_advances(buf, after_space(buf, pos));
}

/// An event map that is read moves the cursor on.
proof fn event_map_advances(buf: Seq<u8>, pos: int)
    requires
        0 <= pos <= buf.len(),
    ensures
        event_map_at(buf, pos) matches Parsed::Done(t, next) ==> pos < next <= buf.len(),
    decreases buf.len() - pos, 0int,
{
    token_advances(buf, pos);
    let head = peek_at(buf, pos);
    if head == Some(0x54u8) {
        if let Parsed::Done(header, p1) = table_header_at(buf, pos) {
            if pos < p1 <= buf.len() {
                children_advance(buf, p1, header.1 as int);
                if let Parsed::Done(table, p2) = children_at(buf, p1, header.1 as int) {
                    token_advances(buf, p2);
                }
            }
        }
    } else if head == Some(0x53u8) {
        if let Parsed::Done(header, p1) = split_header_at(buf, pos) {
            if pos < p1 <= buf.len() {
                children_advance(buf, p1, 1);
                if let Parsed::Done(yes, p2) = children_at(buf, p1, 1) {
                    if pos < p2 <= buf.len() {
                        children_advance(buf, p2, 1);
                        if let Parsed::Done(no, p3) = children_at(buf, p2, 1) {
                            token_advances(buf, p3);
                        }
                    }
                }
            }
        }
    }
}

proof fn children_advance(buf: Seq<u8>, pos: int, n: int)
    requires
        0 <= pos <= buf.len(),
    ensures
        children_at(buf, pos, n) matches Parsed::Done(list, next) ==> pos <= next <= buf.len()
            && list.len() == (if n <= 0 {
            0
        } else {
            n
        }),
    decreases buf.len() - pos, n,
{
    if n > 0 {
        if let Parsed::Done(t, p1) = event_map_at(buf, pos) {
            if pos < p1 <= buf.len() {
                children_advance(buf, p1, n - 1);
            }
        }
    }
}

/// The tree that an optional map stands for.
pub open spec fn optional_tree(m: Option<EventMap>) -> Tree {
    match m {
        Some(map) => map.tree(),
        None => Tree::Missing,
    }
}

/// An event map, or none for `NULL`.
pub fn read_event_map(r: &mut KaldiReader) -> (res: Result<Option<EventMap>, KaldiReadError>)
    requires
        old(r).inside(),
    ensures
        final(r).inside(),
        final(r).bytes() == old(r).bytes(),
        match event_map_at(old(r).bytes(), old(r).at()) {
            Parsed::Done(v, next) => res matches Ok(x) && optional_tree(x) == v && final(r).at()
                == next,
            Parsed::Failed(e, next) => res matches Err(x) && x@ == e && final(r).at() == next,
        },
        res matches Ok(x) ==> final(r).at() > old(r).at(),
    decreases old(r).bytes().len() - old(r).at(), 1int,
{
    let ghost buf = r.bytes();
    let ghost pos = r.at();
    proof {
        event_map_advances(buf, pos);
        token_advances(buf, pos);
    }
    let head: Option<u8> = r.peek();
    match head {
        Some(0x4e) => {
            match r.expect("NULL") {
                Ok(u) => Ok(None),
                Err(e) => Err(e),
            }
        },
        Some(0x43) => {
            match r.expect("CE") {
                Ok(u) => {},
                Err(e) => {
                    return Err(e);
                },
            }
            match r.i32() {
                Ok(leaf) => Ok(Some(EventMap::Constant(leaf as u32))),
                Err(e) => Err(e),
            }
        },
        Some(0x54) => {
            match r.expect("TE") {
                Ok(u) => {},
                Err(e) => {
                    return Err(e);
                },
            }
            let key: i32 = match r.i32() {
                Ok(v) => v,
                Err(e) => {
                    return Err(e);
                },
            };
            let size: u32 = match r.u32() {
                Ok(v) => v,
                Err(e) => {
                    return Err(e);
                },
            };
            proof {
                token_advances(buf, r.at());
            }
            match r.expect("(") {
                Ok(u) => {},
                Err(e) => {
                    return Err(e);
                },
            }
            let table = match read_children(r, size) {
                Ok(v) => v,
                Err(e) => {
                    return Err(e);
                },
            };
            proof {
                token_advances(buf, r.at());
            }
            match r.expect(")") {
                Ok(u) => {},
                Err(e) => {
                    return Err(e);
                },
            }
            let map = EventMap::Table { key, table };
            assert(map.tree()->table =~= child_trees(table@));
            Ok(Some(map))
        },
        Some(0x53) => {
            match r.expect("SE") {
                Ok(u) => {},
                Err(e) => {
                    return Err(e);
                },
            }
            let key: i32 = match r.i32() {
                Ok(v) => v,
                Err(e) => {
                    return Err(e);
                },
            };
            let yes_set = match r.int_vec() {
                Ok(v) => v,
                Err(e) => {
                    return Err(e);
                },
            };
            proof {
                token_advances(buf, r.at());
            }
            match r.expect("{") {
                Ok(u) => {},
                Err(e) => {
                    return Err(e);
                },
            }
            proof {
                single_child(buf, r.at());
            }
            let yes = match read_event_map(r) {
                Ok(Some(m)) => m,
                Ok(None) => {
                    return Err(
                        r.malformed(String::from_str("split node with a NULL yes-child")),
                    );
                },
                Err(e) => {
                    return Err(e);
                },
            };
            proof {
                assert(!(yes.tree() is Missing));
                single_child(buf, r.at());
            }
            let no = match read_event_map(r) {
                Ok(Some(m)) => m,
                Ok(None) => {
                    return Err(r.malformed(String::from_str("split node with a NULL no-child")));
                },
                Err(e) => {
                    return Err(e);
                },
            };
            proof {
                assert(!(no.tree() is Missing));
                token_advances(buf, r.at());
            }
            match r.expect("}") {
                Ok(u) => {},
                Err(e) => {
                    return Err(e);
                },
            }
            Ok(Some(EventMap::Split { key, yes_set, yes: Box::new(yes), no: Box::new(no) }))
        },
        other => {
            let text = show_byte(other);
            Err(
                r.malformed(
                    joined("expected an event-map node (N/C/T/S), found ", text.as_str()),
                ),
            )
        },
    }
}

/// A list of one event map is that event map.
proof fn single_child(buf: Seq<u8>, pos: int)
    requires
        0 <= pos <= buf.len(),
    ensures
        children_at(buf, pos, 1) == (match event_map_at(buf, pos) {
            Parsed::Done(t, next) => Parsed::Done(seq![t], next),
            Parsed::Failed(e, next) => Parsed::Failed(e, next),
        }),
{
    event_map_advances(buf, pos);
    if let Parsed::Done(t, p1) = event_map_at(buf, pos) {
        assert(children_at(buf, p1, 0) == Parsed::<Seq<Tree>>::Done(Seq::empty(), p1));
        assert(seq![t] + Seq::<Tree>::empty() =~= seq![t]);
    }
}

/// The trees of the entries of a table.
pub open spec fn child_trees(table: Seq<Option<Box<EventMap>>>) -> Seq<Tree> {
    Seq::new(
        table.len(),
        |i: int|
            match table[i] {
                Some(m) => m.tree(),
                None => Tree::Missing,
            },
    )
}

fn read_children(r: &mut KaldiReader, n: u32) -> (res: Result<
    Vec<Option<Box<EventMap>>>,
    KaldiReadError,
>)
    requires
        old(r).inside(),
    ensures
        final(r).inside(),
        final(r).bytes() == old(r).bytes(),
        match children_at(old(r).bytes(), old(r).at(), n as int) {
            Parsed::Done(v, next) => res matches Ok(x) && child_trees(x@) == v && final(r).at()
                == next,
            Parsed::Failed(e, next) => res matches Err(x) && x@ == e && final(r).at() == next,
        },
        res matches Ok(x) ==> final(r).at() >= old(r).at(),
    decreases old(r).bytes().len() - old(r).at(), 2int,
{
    let ghost buf = r.bytes();
    let ghost start = r.at();
    let mut table: Vec<Option<Box<EventMap>>> = Vec::new();
    let mut i: u32 = 0;
    proof {
        assert(child_trees(table@) =~= Seq::<Tree>::empty());
        if let Parsed::Done(rest, p) = children_at(buf, start, n as int) {
            assert(Seq::<Tree>::empty() + rest =~= rest);
        }
    }
    while i < n
        invariant
            r.inside(),
            r.bytes() == buf,
            buf == old(r).bytes(),
            start == old(r).at(),
            start <= r.at(),
            i <= n,
            children_at(buf, start, n as int) == (match children_at(buf, r.at(), n - i) {
                Parsed::Done(rest, p) => Parsed::Done(child_trees(table@) + rest, p),
                Parsed::Failed(e, p) => Parsed::Failed(e, p),
            }),
        decreases n - i,
    {
        let ghost before = table@;
        let ghost pos = r.at();
        let child = match read_event_map(r) {
            Ok(Some(m)) => Some(Box::new(m)),
            Ok(None) => None,
            Err(e) => {
                return Err(e);
            },
        };
        table.push(child);
        proof {
            let t = child_trees(table@).last();
            assert(child_trees(table@) =~= child_trees(before).push(t));
            if let Parsed::Done(rest, p) = children_at(buf, r.at(), n - i - 1) {
                assert(child_trees(before) + (seq![t] + rest) =~= child_trees(table@) + rest);
            }
        }
        i += 1;
    }
    proof {
        assert(children_at(buf, r.at(), 0) == Parsed::<Seq<Tree>>::Done(Seq::empty(), r.at()));
        assert(child_trees(table@) + Seq::<Tree>::empty() =~= child_trees(table@));
    }
    Ok(table)
}

/// An optional token and what follows it, then the token `last`.
pub open spec fn skipped_at<T>(
    buf: Seq<u8>,
    pos: int,
    optional: Seq<char>,
    last: Seq<char>,
    skip: spec_fn(int) -> Parsed<T>,
) -> Parsed<()> {
    match token_at(buf, pos) {
        Parsed::Done(first, p1) => if first == optional {
            match skip(p1) {
                Parsed::Done(u, p2) => match token_at(buf, p2) {
                    Parsed::Done(second, p3) => closing(second, last, p3),
                    Parsed::Failed(e, p3) => Parsed::Failed(e, p3),
                },
                Parsed::Failed(e, p2) => Parsed::Failed(e, p2),
            }
        } else {
            closing(first, last, p1)
        },
        Parsed::Failed(e, p1) => Parsed::Failed(e, p1),
    }
}

/// `found` has to be the token `last`.
pub open spec fn closing(found: Seq<char>, last: Seq<char>, next: int) -> Parsed<()> {
    if found == last {
        Parsed::Done((), next)
    } else {
        malformed_at(next, "expected "@ + last + ", got "@ + found)
    }
}

fn expected_message(expected: &str, found: &str) -> (r: String)
    ensures
        r@ == "expected "@ + expected@ + ", got "@ + found@,
{
    let head = joined("expected ", expected);
    let body = joined(head.as_str(), ", got ");
    joined(body.as_str(), found)
}

/// A tree with its context window.
pub open spec fn context_dependency_at(buf: Seq<u8>, pos: int) -> Parsed<(int, int, Tree)> {
    match expected_at(buf, pos, "ContextDependency"@) {
        Parsed::Done(u, p1) => match i32_at(buf, p1) {
            Parsed::Done(n, p2) => match i32_at(buf, p2) {
                Parsed::Done(p, p3) => match skipped_at(
                    buf,
                    p3,
                    "ToLength"@,
                    "ToPdf"@,
                    |q: int| event_map_at(buf, q),
                ) {
                    Parsed::Done(v, p4) => match event_map_at(buf, p4) {
                        Parsed::Done(map, p5) => if map is Missing {
                            malformed_at(p5, "tree has a NULL root"@)
                        } else {
                            match expected_at(buf, p5, "EndContextDependency"@) {
                                Parsed::Done(w, p6) => if n <= 0 || p >= n {
                                    malformed_at(p6, "central position outside of the window"@)
                                } else {
                                    Parsed::Done(
                                        (
                                            n as int,
                                            if p < 0 {
                                                0
                                            } else {
                                                p as int
                                            },
                                            map,
                                        ),
                                        p6,
                                    )
                                },
                                Parsed::Failed(e, p6) => Parsed::Failed(e, p6),
                            }
                        },
                        Parsed::Failed(e, p5) => Parsed::Failed(e, p5),
                    },
                    Parsed::Failed(e, p4) => Parsed::Failed(e, p4),
                },
                Parsed::Failed(e, p3) => Parsed::Failed(e, p3),
            },
            Parsed::Failed(e, p2) => Parsed::Failed(e, p2),
        },
        Parsed::Failed(e, p1) => Parsed::Failed(e, p1),
    }
}

/// A tree with its context window. A central position that is not inside of the window is
/// malformed.
pub fn read_context_dependency(r: &mut KaldiReader) -> (res: Result<
    ContextDependency,
    KaldiReadError,
>)
    requires
        old(r).inside(),
    ensures
        final(r).inside(),
        final(r).bytes() == old(r).bytes(),
        match context_dependency_at(old(r).bytes(), old(r).at()) {
            Parsed::Done(v, next) => res matches Ok(x) && x.n == v.0 && x.p == v.1 && x.map.tree()
                == v.2 && final(r).at() == next,
            Parsed::Failed(e, next) => res matches Err(x) && x@ == e && final(r).at() == next,
        },
{
    let ghost buf = r.bytes();
    match r.expect("ContextDependency") {
        Ok(u) => {},
        Err(e) => {
            return Err(e);
        },
    }
    let n: i32 = match r.i32() {
        Ok(v) => v,
        Err(e) => {
            return Err(e);
        },
    };
    let p: i32 = match r.i32() {
        Ok(v) => v,
        Err(e) => {
            return Err(e);
        },
    };
    let mut tok = match r.token() {
        Ok(v) => v,
        Err(e) => {
            return Err(e);
        },
    };
    if same_text(tok.as_str(), "ToLength") {
        match read_event_map(r) {
            Ok(ignored) => {},
            Err(e) => {
                return Err(e);
            },
        }
        tok = match r.token() {
            Ok(v) => v,
            Err(e) => {
                return Err(e);
            },
        };
    }
    if !same_text(tok.as_str(), "ToPdf") {
        return Err(r.malformed(expected_message("ToPdf", tok.as_str())));
    }
    let map = match read_event_map(r) {
        Ok(Some(m)) => m,
        Ok(None) => {
            return Err(r.malformed(String::from_str("tree has a NULL root")));
        },
        Err(e) => {
            return Err(e);
        },
    };
    assert(!(map.tree() is Missing));
    match r.expect("EndContextDependency") {
        Ok(u) => {},
        Err(e) => {
            return Err(e);
        },
    }
    if n <= 0 || p >= n {
        return Err(r.malformed(String::from_str("central position outside of the window")));
    }
    let center: usize = if p < 0 {
        0
    } else {
        p as usize
    };
    Ok(ContextDependency::new(n as usize, center, map))
}

/// A matrix is read with as many values as its shape says.
proof fn matrix_has_its_shape<F: Fn(FloatOp) -> u64>(buf: Seq<u8>, pos: int, f: F)
    requires
        0 <= pos <= buf.len(),
    ensures
        matrix_at(buf, pos, f) matches Parsed::Done(m, next) ==> 0 <= m.0 && 0 <= m.1 && m.2.len()
            == m.0 * m.1,
{
    token_advances(buf, pos);
    if let Parsed::Done(token, p1) = token_at(buf, pos) {
        if let Some(width) = crate::kaldi_io::read::width_of(token, "FM"@, "DM"@) {
            if let Parsed::Done(rows, p2) = i32_at(buf, p1) {
                if let Parsed::Done(cols, p3) = i32_at(buf, p2) {
                    if rows >= 0 && cols >= 0 {
                        let a = rows as int;
                        let b = cols as int;
                        assert(width * a * b == width * (a * b)) by (nonlinear_arith);
                        assert(0 <= a * b) by (nonlinear_arith)
                            requires
                                0 <= a,
                                0 <= b,
                        ;
                        if let Parsed::Done(data, p4) = bytes_at(buf, p3, width * a * b) {
                            assert(width * (a * b) >= 0) by (nonlinear_arith)
                                requires
                                    0 <= a * b,
                                    0 <= width,
                            ;
                            assert(data.len() == width * (a * b));
                            assert(width == 4 || width == 8);
                            assert(floats_of(data, width, f).len() == data.len() / width as nat);
                            assert((4 * (a * b)) / 4 == a * b);
                            assert((8 * (a * b)) / 8 == a * b);
                        }
                    }
                }
            }
        }
    }
}

/// The message for matrices that do not fit together.
pub open spec fn shape_fault(weights: int, mr: int, mc: int, vr: int, vc: int) -> Seq<char> {
    "GMM shape mismatch: "@ + decimal_int(weights) + " weights, means "@ + decimal_int(mr) + "x"@
        + decimal_int(mc) + ", inv_vars "@ + decimal_int(vr) + "x"@ + decimal_int(vc)
}

/// The parameters of a mixture as they are stored: its weights, its means times inverse variances,
/// and its inverse variances.
pub open spec fn parameters_at<F: Fn(FloatOp) -> u64>(buf: Seq<u8>, pos: int, f: F) -> Parsed<
    (Seq<u32>, MatrixView, MatrixView),
> {
    match skipped_at(buf, pos, "<GCONSTS>"@, "<WEIGHTS>"@, |q: int| vector_at(buf, q, f)) {
        Parsed::Done(u, p1) => match vector_at(buf, p1, f) {
            Parsed::Done(weights, p2) => match expected_at(buf, p2, "<MEANS_INVVARS>"@) {
                Parsed::Done(v, p3) => match matrix_at(buf, p3, f) {
                    Parsed::Done(means, p4) => match expected_at(buf, p4, "<INV_VARS>"@) {
                        Parsed::Done(w, p5) => match matrix_at(buf, p5, f) {
                            Parsed::Done(vars, p6) => if means.0 != vars.0 || means.1 != vars.1
                                || means.0 != weights.len() {
                                malformed_at(
                                    p6,
                                    shape_fault(
                                        weights.len() as int,
                                        means.0,
                                        means.1,
                                        vars.0,
                                        vars.1,
                                    ),
                                )
                            } else {
                                Parsed::Done(
                                    (
                                        weights,
                                        unflattened(means.0, means.1, means.2),
                                        unflattened(vars.0, vars.1, vars.2),
                                    ),
                                    p6,
                                )
                            },
                            Parsed::Failed(e, p6) => Parsed::Failed(e, p6),
                        },
                        Parsed::Failed(e, p5) => Parsed::Failed(e, p5),
                    },
                    Parsed::Failed(e, p4) => Parsed::Failed(e, p4),
                },
                Parsed::Failed(e, p3) => Parsed::Failed(e, p3),
            },
            Parsed::Failed(e, p2) => Parsed::Failed(e, p2),
        },
        Parsed::Failed(e, p1) => Parsed::Failed(e, p1),
    }
}

/// The mixture with these parameters, its constants computed; nothing if a component has none.
pub open spec fn assembled<F: Fn(FloatOp) -> u64>(
    weights: Seq<u32>,
    means_invvars: MatrixView,
    inv_vars: MatrixView,
    f: F,
) -> Option<GmmView> {
    let bare = GmmView { weights, means_invvars, inv_vars, gconsts: Seq::empty() };
    if forall|g: int| 0 <= g < weights.len() ==> #[trigger] has_constant(bare, g, f) {
        Some(
            GmmView { gconsts: Seq::new(weights.len(), |g: int| constant(bare, g, f)), ..bare },
        )
    } else {
        None
    }
}

/// A mixture.
pub open spec fn diag_gmm_at<F: Fn(FloatOp) -> u64>(buf: Seq<u8>, pos: int, f: F) -> Parsed<
    GmmView,
> {
    match token_at(buf, pos) {
        Parsed::Done(open, p1) => if open != "<DiagGMM>"@ && open != "<DiagGMMBegin>"@ {
            malformed_at(p1, "expected <DiagGMM>, got "@ + open)
        } else {
            match parameters_at(buf, p1, f) {
                Parsed::Done(p, p2) => match token_at(buf, p2) {
                    Parsed::Done(close, p3) => if close != "</DiagGMM>"@ && close
                        != "<DiagGMMEnd>"@ {
                        malformed_at(p3, "expected </DiagGMM>, got "@ + close)
                    } else {
                        match assembled(p.0, p.1, p.2, f) {
                            Some(m) => Parsed::Done(m, p3),
                            None => malformed_at(p3, "mixture with a constant that is undefined"@),
                        }
                    },
                    Parsed::Failed(e, p3) => Parsed::Failed(e, p3),
                },
                Parsed::Failed(e, p2) => Parsed::Failed(e, p2),
            }
        },
        Parsed::Failed(e, p1) => Parsed::Failed(e, p1),
    }
}

fn read_parameters<F: Fn(FloatOp) -> u64>(r: &mut KaldiReader, f: &F) -> (res: Result<
    (Vec<u32>, Matrix, Matrix),
    KaldiReadError,
>)
    requires
        is_evaluator(*f),
        old(r).inside(),
    ensures
        final(r).inside(),
        final(r).bytes() == old(r).bytes(),
        match parameters_at(old(r).bytes(), old(r).at(), *f) {
            Parsed::Done(v, next) => res matches Ok(x) && x.0@ == v.0 && x.1@ == v.1 && x.2@ == v.2
                && final(r).at() == next,
            Parsed::Failed(e, next) => res matches Err(x) && x@ == e && final(r).at() == next,
        },
        res matches Ok(x) ==> x.1@.wf() && x.2@.wf() && x.1@.rows.len() == x.0@.len()
            && x.2@.rows.len() == x.0@.len() && x.1@.cols == x.2@.cols,
{
    let ghost buf = r.bytes();
    let mut tok = match r.token() {
        Ok(v) => v,
        Err(e) => {
            return Err(e);
        },
    };
    if same_text(tok.as_str(), "<GCONSTS>") {
        match r.vector(f) {
            Ok(ignored) => {},
            Err(e) => {
                return Err(e);
            },
        }
        tok = match r.token() {
            Ok(v) => v,
            Err(e) => {
                return Err(e);
            },
        };
    }
    if !same_text(tok.as_str(), "<WEIGHTS>") {
        return Err(r.malformed(expected_message("<WEIGHTS>", tok.as_str())));
    }
    let weights = match r.vector(f) {
        Ok(v) => v,
        Err(e) => {
            return Err(e);
        },
    };
    match r.expect("<MEANS_INVVARS>") {
        Ok(u) => {},
        Err(e) => {
            return Err(e);
        },
    }
    proof {
        matrix_has_its_shape(buf, r.at(), *f);
    }
    let (mr, mc, mdata) = match r.matrix(f) {
        Ok(v) => v,
        Err(e) => {
            return Err(e);
        },
    };
    match r.expect("<INV_VARS>") {
        Ok(u) => {},
        Err(e) => {
            return Err(e);
        },
    }
    proof {
        matrix_has_its_shape(buf, r.at(), *f);
    }
    let (vr, vc, vdata) = match r.matrix(f) {
        Ok(v) => v,
        Err(e) => {
            return Err(e);
        },
    };
    if mr != vr || mc != vc || mr != weights.len() {
        let mut msg = String::from_str("GMM shape mismatch: ");
        append_decimal(&mut msg, weights.len() as u64);
        msg.append(" weights, means ");
        append_decimal(&mut msg, mr as u64);
        msg.append("x");
        append_decimal(&mut msg, mc as u64);
        msg.append(", inv_vars ");
        append_decimal(&mut msg, vr as u64);
        msg.append("x");
        append_decimal(&mut msg, vc as u64);
        return Err(r.malformed(msg));
    }
    Ok((weights, Matrix::from_data(mr, mc, &mdata), Matrix::from_data(vr, vc, &vdata)))
}

/// A mixture. The stored constants are optional and never trusted: they are computed anew, and a
/// mixture of which they are undefined is malformed.
pub fn read_diag_gmm<F: Fn(FloatOp) -> u64>(r: &mut KaldiReader, f: &F) -> (res: Result<
    DiagGmm,
    KaldiReadError,
>)
    requires
        is_evaluator(*f),
        old(r).inside(),
    ensures
        final(r).inside(),
        final(r).bytes() == old(r).bytes(),
        match diag_gmm_at(old(r).bytes(), old(r).at(), *f) {
            Parsed::Done(v, next) => res matches Ok(x) && x@ == v && final(r).at() == next,
            Parsed::Failed(e, next) => res matches Err(x) && x@ == e && final(r).at() == next,
        },
        res matches Ok(x) ==> x@.wf(),
{
    let open = match r.token() {
        Ok(v) => v,
        Err(e) => {
            return Err(e);
        },
    };
    if !same_text(open.as_str(), "<DiagGMM>") && !same_text(open.as_str(), "<DiagGMMBegin>") {
        return Err(r.malformed(joined("expected <DiagGMM>, got ", open.as_str())));
    }
    let (weights, means_invvars, inv_vars) = match read_parameters(r, f) {
        Ok(v) => v,
        Err(e) => {
            return Err(e);
        },
    };
    let close = match r.token() {
        Ok(v) => v,
        Err(e) => {
            return Err(e);
        },
    };
    if !same_text(close.as_str(), "</DiagGMM>") && !same_text(close.as_str(), "<DiagGMMEnd>") {
        return Err(r.malformed(joined("expected </DiagGMM>, got ", close.as_str())));
    }
    let mut gmm = DiagGmm { weights, means_invvars, inv_vars, gconsts: Vec::new() };
    let ghost bare = gmm@;
    proof {
        assert(bare.gconsts =~= Seq::<u32>::empty());
    }
    match gmm.try_compute_gconsts(f) {
        Some(bad) => Ok(gmm),
        None => Err(
            r.malformed(String::from_str("mixture with a constant that is undefined")),
        ),
    }
}

/// The mixture of pdf `i`, whose dimension has to be `dim`.
pub open spec fn pdf_at<F: Fn(FloatOp) -> u64>(
    buf: Seq<u8>,
    pos: int,
    i: int,
    dim: int,
    f: F,
) -> Parsed<GmmView> {
    match diag_gmm_at(buf, pos, f) {
        Parsed::Done(m, next) => if m.inv_vars.cols != dim {
            malformed_at(
                next,
                "pdf "@ + decimal_int(i) + " has dim "@ + decimal_int(m.inv_vars.cols)
                    + " but the model header says "@ + decimal_int(dim),
            )
        } else {
            Parsed::Done(m, next)
        },
        Parsed::Failed(e, next) => Parsed::Failed(e, next),
    }
}

/// The mixtures of the first `n` pdfs.
pub open spec fn pdfs_at<F: Fn(FloatOp) -> u64>(
    buf: Seq<u8>,
    pos: int,
    n: int,
    dim: int,
    f: F,
) -> Parsed<Seq<GmmView>>
    decreases n,
{
    if n <= 0 {
        Parsed::Done(Seq::empty(), pos)
    } else {
        match pdfs_at(buf, pos, n - 1, dim, f) {
            Parsed::Done(list, p) => match pdf_at(buf, p, n - 1, dim, f) {
                Parsed::Done(m, next) => Parsed::Done(list.push(m), next),
                Parsed::Failed(e, next) => Parsed::Failed(e, next),
            },
            Parsed::Failed(e, p) => Parsed::Failed(e, p),
        }
    }
}

proof fn pdf_failure_stays<F: Fn(FloatOp) -> u64>(
    buf: Seq<u8>,
    pos: int,
    k: int,
    n: int,
    dim: int,
    f: F,
)
    requires
        k <= n,
        pdfs_at(buf, pos, k, dim, f) is Failed,
    ensures
        pdfs_at(buf, pos, n, dim, f) == pdfs_at(buf, pos, k, dim, f),
    decreases n - k,
{
    if k < n {
        assert(k > 0);
        assert(pdfs_at(buf, pos, k + 1, dim, f) == pdfs_at(buf, pos, k, dim, f));
        pdf_failure_stays(buf, pos, k + 1, n, dim, f);
    }
}

/// An acoustic model.
pub open spec fn am_diag_gmm_at<F: Fn(FloatOp) -> u64>(buf: Seq<u8>, pos: int, f: F) -> Parsed<
    Seq<GmmView>,
> {
    match expected_at(buf, pos, "<DIMENSION>"@) {
        Parsed::Done(u, p1) => match i32_at(buf, p1) {
            Parsed::Done(dim, p2) => match expected_at(buf, p2, "<NUMPDFS>"@) {
                Parsed::Done(v, p3) => match i32_at(buf, p3) {
                    Parsed::Done(num_pdfs, p4) => if num_pdfs <= 0 {
                        malformed_at(p4, "bad pdf count "@ + decimal_int(num_pdfs as int))
                    } else {
                        pdfs_at(buf, p4, num_pdfs as int, dim as int, f)
                    },
                    Parsed::Failed(e, p4) => Parsed::Failed(e, p4),
                },
                Parsed::Failed(e, p3) => Parsed::Failed(e, p3),
            },
            Parsed::Failed(e, p2) => Parsed::Failed(e, p2),
        },
        Parsed::Failed(e, p1) => Parsed::Failed(e, p1),
    }
}

/// An acoustic model: the dimension, the number of pdfs, and a mixture for each.
pub fn read_am_diag_gmm<F: Fn(FloatOp) -> u64>(r: &mut KaldiReader, f: &F) -> (res: Result<
    AmDiagGmm,
    KaldiReadError,
>)
    requires
        is_evaluator(*f),
        old(r).inside(),
    ensures
        final(r).inside(),
        final(r).bytes() == old(r).bytes(),
        match am_diag_gmm_at(old(r).bytes(), old(r).at(), *f) {
            Parsed::Done(v, next) => res matches Ok(x) && x@ == v && final(r).at() == next,
            Parsed::Failed(e, next) => res matches Err(x) && x@ == e && final(r).at() == next,
        },
        res matches Ok(x) ==> forall|i: int| 0 <= i < x@.len() ==> (#[trigger] x@[i]).wf(),
{
    match r.expect("<DIMENSION>") {
        Ok(u) => {},
        Err(e) => {
            return Err(e);
        },
    }
    let dim: i32 = match r.i32() {
        Ok(v) => v,
        Err(e) => {
            return Err(e);
        },
    };
    match r.expect("<NUMPDFS>") {
        Ok(u) => {},
        Err(e) => {
            return Err(e);
        },
    }
    let num_pdfs: i32 = match r.i32() {
        Ok(v) => v,
        Err(e) => {
            return Err(e);
        },
    };
    if num_pdfs <= 0 {
        return Err(r.malformed(with_int("bad pdf count ", num_pdfs as i64)));
    }
    let ghost buf = r.bytes();
    let ghost start = r.at();
    let mut am = AmDiagGmm::new();
    let mut i: i32 = 0;
    while i < num_pdfs
        invariant
            is_evaluator(*f),
            r.inside(),
            r.bytes() == buf,
            buf == old(r).bytes(),
            0 <= i <= num_pdfs,
            am_diag_gmm_at(buf, old(r).at(), *f) == pdfs_at(
                buf,
                start,
                num_pdfs as int,
                dim as int,
                *f,
            ),
            pdfs_at(buf, start, i as int, dim as int, *f) == Parsed::Done(am@, r.at()),
            forall|k: int| 0 <= k < am@.len() ==> (#[trigger] am@[k]).wf() && am@[k].inv_vars.cols
                == dim,
        decreases num_pdfs - i,
    {
        let ghost pos = r.at();
        let gmm = match read_diag_gmm(r, f) {
            Ok(v) => v,
            Err(e) => {
                proof {
                    pdf_failure_stays(buf, start, i + 1, num_pdfs as int, dim as int, *f);
                }
                return Err(e);
            },
        };
        if dim < 0 || gmm.dim() != dim as usize {
            let mut msg = with_int("pdf ", i as i64);
            msg.append(" has dim ");
            append_decimal(&mut msg, gmm.dim() as u64);
            msg.append(" but the model header says ");
            append_int(&mut msg, dim as i64);
            proof {
                pdf_failure_stays(buf, start, i + 1, num_pdfs as int, dim as int, *f);
            }
            return Err(r.malformed(msg));
        }
        am.add_pdf(gmm);
        i += 1;
    }
    Ok(am)
}

/// A file that holds a matrix and nothing else.
pub fn read_matrix_file<F: Fn(FloatOp) -> u64>(bytes: &[u8], f: &F) -> (res: Result<
    Matrix,
    KaldiReadError,
>)
    requires
        is_evaluator(*f),
    ensures
        match header_fault(bytes@) {
            Some(e) => res matches Err(x) && x@ == e,
            None => match matrix_at(bytes@, 2, *f) {
                Parsed::Done(m, next) => res matches Ok(x) && x@ == unflattened(m.0, m.1, m.2)
                    && x@.wf(),
                Parsed::Failed(e, next) => res matches Err(x) && x@ == e,
            },
        },
{
    let mut r = match KaldiReader::new(bytes) {
        Ok(r) => r,
        Err(e) => {
            return Err(e);
        },
    };
    proof {
        matrix_has_its_shape(bytes@, 2, *f);
    }
    match r.matrix(f) {
        Ok(m) => Ok(Matrix::from_data(m.0, m.1, &m.2)),
        Err(e) => Err(e),
    }
}

} // verus!
