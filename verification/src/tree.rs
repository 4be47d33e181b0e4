//! Event maps: the decision trees that tie HMM states.
//!
//! An event is a list of `(key, value)` pairs. The keys are the positions of the context window
//! plus one for the pdf-class; a map asks for the value of a key and either indexes a table by it
//! or tests whether it belongs to a set.

use vstd::prelude::*;

use crate::types::PdfId;

verus! {

/// A decision tree from events to pdfs.
#[derive(Debug)]
pub enum EventMap {
    /// A leaf.
    Constant(PdfId),
    /// Look `key` up and take the entry of `table` that its value indexes.
    Table { key: i32, table: Vec<Option<Box<EventMap>>> },
    /// Look `key` up and go on with `yes` if its value is in `yes_set`, with `no` otherwise.
    Split { key: i32, yes_set: Vec<i32>, yes: Box<EventMap>, no: Box<EventMap> },
}

/// What an [`EventMap`] is, with its tables as sequences.
pub enum Tree {
    /// A table entry that holds nothing.
    Missing,
    Constant(PdfId),
    Table { key: i32, table: Seq<Tree> },
    Split { key: i32, yes_set: Seq<i32>, yes: Box<Tree>, no: Box<Tree> },
}

/// The value of the first pair of `event` with this key.
pub open spec fn lookup(event: Seq<(i32, i32)>, key: i32) -> Option<i32>
    decreases event.len(),
{
    if event.len() == 0 {
        None
    } else if event[0].0 == key {
        Some(event[0].1)
    } else {
        lookup(event.drop_first(), key)
    }
}

/// The leaf that `event` leads to: none if a key that the tree asks for is absent, or its value
/// finds no table entry.
pub open spec fn answer(t: Tree, event: Seq<(i32, i32)>) -> Option<PdfId>
    decreases t,
{
    match t {
        Tree::Missing => None,
        Tree::Constant(leaf) => Some(leaf),
        Tree::Table { key, table } => match lookup(event, key) {
            Some(v) => if 0 <= v < table.len() {
                answer(table[v as int], event)
            } else {
                None
            },
            None => None,
        },
        Tree::Split { key, yes_set, yes, no } => match lookup(event, key) {
            Some(v) => if yes_set.contains(v) {
                answer(*yes, event)
            } else {
                answer(*no, event)
            },
            None => None,
        },
    }
}

/// The leaves that some completion of `event` can lead to: wherever a key is absent, every branch
/// is followed, in order.
pub open spec fn answers(t: Tree, event: Seq<(i32, i32)>) -> Seq<PdfId>
    decreases t, 0nat,
{
    match t {
        Tree::Missing => Seq::empty(),
        Tree::Constant(leaf) => seq![leaf],
        Tree::Table { key, table } => match lookup(event, key) {
            Some(v) => if 0 <= v < table.len() {
                answers(table[v as int], event)
            } else {
                Seq::empty()
            },
            None => answers_of_first(table, table.len(), event),
        },
        Tree::Split { key, yes_set, yes, no } => match lookup(event, key) {
            Some(v) => if yes_set.contains(v) {
                answers(*yes, event)
            } else {
                answers(*no, event)
            },
            None => answers(*yes, event) + answers(*no, event),
        },
    }
}

/// The answers of the first `n` entries of a table, one after the other.
pub open spec fn answers_of_first(table: Seq<Tree>, n: nat, event: Seq<(i32, i32)>) -> Seq<PdfId>
    decreases table, n,
{
    if n == 0 || n > table.len() {
        Seq::empty()
    } else {
        answers_of_first(table, (n - 1) as nat, event) + answers(table[n - 1], event)
    }
}

/// The largest leaf, or -1 if there is none.
pub open spec fn max_leaf(t: Tree) -> int
    decreases t, 0nat,
{
    match t {
        Tree::Missing => -1,
        Tree::Constant(leaf) => leaf as int,
        Tree::Table { key, table } => max_leaf_of_first(table, table.len()),
        Tree::Split { key, yes_set, yes, no } => larger(max_leaf(*yes), max_leaf(*no)),
    }
}

/// The largest leaf of the first `n` entries of a table.
pub open spec fn max_leaf_of_first(table: Seq<Tree>, n: nat) -> int
    decreases table, n,
{
    if n == 0 || n > table.len() {
        -1
    } else {
        larger(max_leaf_of_first(table, (n - 1) as nat), max_leaf(table[n - 1]))
    }
}

pub open spec fn larger(a: int, b: int) -> int {
    if a >= b {
        a
    } else {
        b
    }
}

impl EventMap {
    /// The tree that this map is.
    pub open spec fn tree(self) -> Tree
        decreases self,
    {
        match self {
            EventMap::Constant(leaf) => Tree::Constant(leaf),
            EventMap::Table { key, table } => Tree::Table {
                key,
                table: Seq::new(
                    table@.len(),
                    |i: int|
                        if 0 <= i < table@.len() {
                            match table@[i] {
                                Some(m) => m.tree(),
                                None => Tree::Missing,
                            }
                        } else {
                            Tree::Missing
                        },
                ),
            },
            EventMap::Split { key, yes_set, yes, no } => Tree::Split {
                key,
                yes_set: yes_set@,
                yes: Box::new(yes.tree()),
                no: Box::new(no.tree()),
            },
        }
    }

    /// The entry of the tree's table that stands for entry `i` of the map's table.
    proof fn entry_of_tree(self, i: int)
        requires
            self is Table,
            0 <= i < self->table@.len(),
        ensures
            self.tree() is Table,
            self.tree()->Table_key == self->Table_key,
            self.tree()->table.len() == self->table@.len(),
            self.tree()->table[i] == (match self->table@[i] {
                Some(m) => m.tree(),
                None => Tree::Missing,
            }),
    {
    }

    /// The leaf that `event` leads to.
    pub fn map(&self, event: &[(i32, i32)]) -> (r: Option<PdfId>)
        ensures
            r == answer(self.tree(), event@),
        decreases self,
    {
        match self {
            EventMap::Constant(leaf) => Some(*leaf),
            EventMap::Table { key, table } => {
                match find(event, *key) {
                    Some(v) => {
                        if 0 <= v && (v as usize) < table.len() {
                            proof {
                                self.entry_of_tree(v as int);
                                assert(answer(Tree::Missing, event@) is None);
                            }
                            match &table[v as usize] {
                                Some(m) => m.map(event),
                                None => None,
                            }
                        } else {
                            None
                        }
                    },
                    None => None,
                }
            },
            EventMap::Split { key, yes_set, yes, no } => {
                match find(event, *key) {
                    Some(v) => {
                        if contains(yes_set, v) {
                            yes.map(event)
                        } else {
                            no.map(event)
                        }
                    },
                    None => None,
                }
            },
        }
    }

    /// Append every leaf that some completion of `event` can lead to.
    pub fn multi_map(&self, event: &[(i32, i32)], out: &mut Vec<PdfId>)
        ensures
            final(out)@ == old(out)@ + answers(self.tree(), event@),
        decreases self,
    {
        match self {
            EventMap::Constant(leaf) => {
                out.push(*leaf);
            },
            EventMap::Table { key, table } => {
                match find(event, *key) {
                    Some(v) => {
                        if 0 <= v && (v as usize) < table.len() {
                            proof {
                                self.entry_of_tree(v as int);
                                assert(answers(Tree::Missing, event@) == Seq::<PdfId>::empty());
                            }
                            match &table[v as usize] {
                                Some(m) => {
                                    m.multi_map(event, out);
                                },
                                None => {},
                            }
                        }
                    },
                    None => {
                        let ghost trees = self.tree()->table;
                        let mut i: usize = 0;
                        while i < table.len()
                            invariant
                                i <= table@.len(),
                                *self == (EventMap::Table { key: *key, table: *table }),
                                trees == self.tree()->table,
                                self.tree() is Table,
                                trees.len() == table@.len(),
                                out@ == old(out)@ + answers_of_first(trees, i as nat, event@),
                            decreases table.len() - i,
                        {
                            proof {
                                self.entry_of_tree(i as int);
                                assert(answers(Tree::Missing, event@) == Seq::<PdfId>::empty());
                            }
                            match &table[i] {
                                Some(m) => {
                                    m.multi_map(event, out);
                                },
                                None => {},
                            }
                            i += 1;
                        }
                    },
                }
            },
            EventMap::Split { key, yes_set, yes, no } => {
                match find(event, *key) {
                    Some(v) => {
                        if contains(yes_set, v) {
                            yes.multi_map(event, out);
                        } else {
                            no.multi_map(event, out);
                        }
                    },
                    None => {
                        yes.multi_map(event, out);
                        no.multi_map(event, out);
                    },
                }
            },
        }
    }

    /// The largest leaf, or -1 if there is none.
    pub fn max_result(&self) -> (r: i64)
        ensures
            r == max_leaf(self.tree()),
            -1 <= r <= u32::MAX,
        decreases self,
    {
        match self {
            EventMap::Constant(leaf) => *leaf as i64,
            EventMap::Table { key, table } => {
                let ghost trees = self.tree()->table;
                let mut best: i64 = -1;
                let mut i: usize = 0;
                while i < table.len()
                    invariant
                        i <= table@.len(),
                        *self == (EventMap::Table { key: *key, table: *table }),
                        trees == self.tree()->table,
                        self.tree() is Table,
                        trees.len() == table@.len(),
                        best == max_leaf_of_first(trees, i as nat),
                        -1 <= best <= u32::MAX,
                    decreases table.len() - i,
                {
                    proof {
                        self.entry_of_tree(i as int);
                        assert(max_leaf(Tree::Missing) == -1);
                    }
                    match &table[i] {
                        Some(m) => {
                            let sub: i64 = m.max_result();
                            if sub > best {
                                best = sub;
                            }
                        },
                        None => {},
                    }
                    i += 1;
                }
                best
            },
            EventMap::Split { key, yes_set, yes, no } => {
                let a: i64 = yes.max_result();
                let b: i64 = no.max_result();
                if a >= b {
                    a
                } else {
                    b
                }
            },
        }
    }
}

/// The value of the first pair of `event` with this key.
fn find(event: &[(i32, i32)], key: i32) -> (r: Option<i32>)
    ensures
        r == lookup(event@, key),
{
    let mut i: usize = 0;
    proof {
        assert(event@.skip(0) == event@);
    }
    while i < event.len()
        invariant
            i <= event@.len(),
            lookup(event@, key) == lookup(event@.skip(i as int), key),
        decreases event.len() - i,
    {
        let ghost rest = event@.skip(i as int);
        if event[i].0 == key {
            return Some(event[i].1);
        }
        proof {
            assert(rest.drop_first() == event@.skip(i + 1));
        }
        i += 1;
    }
    None
}

fn contains(set: &Vec<i32>, v: i32) -> (r: bool)
    ensures
        r == set@.contains(v),
{
    let mut i: usize = 0;
    while i < set.len()
        invariant
            i <= set@.len(),
            forall|j: int| 0 <= j < i ==> set@[j] != v,
        decreases set.len() - i,
    {
        if set[i] == v {
            return true;
        }
        i += 1;
    }
    false
}

/// A map answers an event with one of the leaves it offers for it.
pub proof fn answer_is_among_answers(t: Tree, event: Seq<(i32, i32)>)
    ensures
        answer(t, event) matches Some(leaf) ==> answers(t, event) == seq![leaf],
        answer(t, event) is Some ==> max_leaf(t) >= answer(t, event)->0,
    decreases t,
{
    match t {
        Tree::Missing => {},
        Tree::Constant(leaf) => {},
        Tree::Table { key, table } => {
            if let Some(v) = lookup(event, key) {
                if 0 <= v < table.len() {
                    answer_is_among_answers(table[v as int], event);
                    max_leaf_bounds_entries(table, table.len(), v as int);
                }
            }
        },
        Tree::Split { key, yes_set, yes, no } => {
            if let Some(v) = lookup(event, key) {
                answer_is_among_answers(*yes, event);
                answer_is_among_answers(*no, event);
            }
        },
    }
}

proof fn max_leaf_bounds_entries(table: Seq<Tree>, n: nat, i: int)
    requires
        n <= table.len(),
        0 <= i < n,
    ensures
        max_leaf(table[i]) <= max_leaf_of_first(table, n),
    decreases n,
{
    if i < n - 1 {
        max_leaf_bounds_entries(table, (n - 1) as nat, i);
    }
}

/// Every key that the tree asks for, on any path, is in the event.
pub open spec fn settled(t: Tree, event: Seq<(i32, i32)>) -> bool
    decreases t,
{
    match t {
        Tree::Missing => true,
        Tree::Constant(leaf) => true,
        Tree::Table { key, table } => lookup(event, key) is Some && forall|i: int|
            0 <= i < table.len() ==> settled(#[trigger] table[i], event),
        Tree::Split { key, yes_set, yes, no } => lookup(event, key) is Some && settled(*yes, event)
            && settled(*no, event),
    }
}

/// An event that leaves no key open has one answer at most, and it is the only one offered.
pub proof fn settled_answers_are_the_answer(t: Tree, event: Seq<(i32, i32)>)
    requires
        settled(t, event),
    ensures
        answers(t, event) == (match answer(t, event) {
            Some(leaf) => seq![leaf],
            None => Seq::empty(),
        }),
    decreases t,
{
    match t {
        Tree::Missing => {},
        Tree::Constant(leaf) => {},
        Tree::Table { key, table } => {
            let v = lookup(event, key)->0;
            if 0 <= v < table.len() {
                assert(settled(table[v as int], event));
                settled_answers_are_the_answer(table[v as int], event);
            }
        },
        Tree::Split { key, yes_set, yes, no } => {
            settled_answers_are_the_answer(*yes, event);
            settled_answers_are_the_answer(*no, event);
        },
    }
}

/// No answer exceeds the largest leaf.
pub proof fn answers_are_bounded(t: Tree, event: Seq<(i32, i32)>, leaf: PdfId)
    requires
        answers(t, event).contains(leaf),
    ensures
        leaf <= max_leaf(t),
    decreases t, 0nat,
{
    match t {
        Tree::Missing => {},
        Tree::Constant(c) => {},
        Tree::Table { key, table } => match lookup(event, key) {
            Some(v) => if 0 <= v < table.len() {
                answers_are_bounded(table[v as int], event, leaf);
                max_leaf_bounds_entries(table, table.len(), v as int);
            },
            None => {
                answers_of_first_are_bounded(table, table.len(), event, leaf);
            },
        },
        Tree::Split { key, yes_set, yes, no } => match lookup(event, key) {
            Some(v) => if yes_set.contains(v) {
                answers_are_bounded(*yes, event, leaf);
            } else {
                answers_are_bounded(*no, event, leaf);
            },
            None => {
                let a = answers(*yes, event);
                let b = answers(*no, event);
                let k = choose|k: int| 0 <= k < (a + b).len() && (a + b)[k] == leaf;
                if k < a.len() {
                    assert(a[k] == leaf);
                    answers_are_bounded(*yes, event, leaf);
                } else {
                    assert(b[k - a.len()] == leaf);
                    answers_are_bounded(*no, event, leaf);
                }
            },
        },
    }
}

proof fn answers_of_first_are_bounded(
    table: Seq<Tree>,
    n: nat,
    event: Seq<(i32, i32)>,
    leaf: PdfId,
)
    requires
        n <= table.len(),
        answers_of_first(table, n, event).contains(leaf),
    ensures
        leaf <= max_leaf_of_first(table, n),
    decreases table, n,
{
    if n > 0 {
        let a = answers_of_first(table, (n - 1) as nat, event);
        let b = answers(table[n - 1], event);
        let k = choose|k: int| 0 <= k < (a + b).len() && (a + b)[k] == leaf;
        if k < a.len() {
            assert(a[k] == leaf);
            answers_of_first_are_bounded(table, (n - 1) as nat, event, leaf);
        } else {
            assert(b[k - a.len()] == leaf);
            answers_are_bounded(table[n - 1], event, leaf);
        }
    }
}

} // verus!
