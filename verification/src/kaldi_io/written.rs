//! Trees as Kaldi writes them, and that they are read as they were written.

use vstd::prelude::*;

use crate::kaldi_io::objects::{
    children_at, context_dependency_at, event_map_at, malformed_at, skipped_at, split_header_at,
    table_header_at,
};
use crate::kaldi_io::read::{
    after_text, expected_at, i32_at, int_vec_at, le32, packed32, peek_at, signed, token_at, u32_at,
    Parsed,
};
use crate::text::{ascii_text, is_ascii_bytes, is_ascii_space};
use crate::tree::Tree;

verus! {

/// The four bytes of a number, the lowest first.
pub open spec fn le32_bytes(x: u32) -> Seq<u8> {
    seq![
        (x % 0x100) as u8,
        (x / 0x100 % 0x100) as u8,
        (x / 0x1_0000 % 0x100) as u8,
        (x / 0x100_0000 % 0x100) as u8,
    ]
}

/// The bit pattern of a signed number.
pub open spec fn unsigned(x: i32) -> u32 {
    if x < 0 {
        (x + 0x1_0000_0000) as u32
    } else {
        x as u32
    }
}

/// A signed number with its size.
pub open spec fn written_i32(x: i32) -> Seq<u8> {
    seq![4u8] + le32_bytes(unsigned(x))
}

/// An unsigned number with its size.
pub open spec fn written_u32(x: u32) -> Seq<u8> {
    seq![0xfcu8] + le32_bytes(x)
}

/// The bytes of the first `n` numbers.
pub open spec fn written_items(v: Seq<i32>, n: int) -> Seq<u8>
    decreases n,
{
    if n <= 0 {
        seq![]
    } else {
        written_items(v, n - 1) + le32_bytes(unsigned(v[n - 1]))
    }
}

/// A vector of signed numbers.
pub open spec fn written_vec(v: Seq<i32>) -> Seq<u8> {
    written_i32(v.len() as i32) + written_items(v, v.len() as int)
}

/// A tree.
pub open spec fn written(t: Tree) -> Seq<u8>
    decreases t, 0int,
{
    match t {
        Tree::Missing => null_token(),
        Tree::Constant(leaf) => seq![0x43u8, 0x45, 0x20] + written_i32(leaf as i32),
        Tree::Table { key, table } => seq![0x54u8, 0x45, 0x20] + written_i32(key) + written_u32(
            table.len() as u32,
        ) + seq![0x28u8, 0x20] + written_all(table, 0) + seq![0x29u8, 0x20],
        Tree::Split { key, yes_set, yes, no } => seq![0x53u8, 0x45, 0x20] + written_i32(key)
            + written_vec(yes_set) + seq![0x7bu8, 0x20] + written(*yes) + written(*no) + seq![
            0x7du8,
            0x20,
        ],
    }
}

/// The trees of a table from number `i` on.
pub open spec fn written_all(table: Seq<Tree>, i: int) -> Seq<u8>
    decreases table, table.len() - i,
{
    if i < 0 || i >= table.len() {
        seq![]
    } else {
        written(table[i]) + written_all(table, i + 1)
    }
}

/// The token for a table entry that holds nothing.
pub open spec fn null_token() -> Seq<u8> {
    seq![0x4eu8, 0x55, 0x4c, 0x4c, 0x20]
}

/// A tree that can be written: its leaves and sizes fit, and no branch of a split is missing.
pub open spec fn is_storable(t: Tree) -> bool
    decreases t,
{
    match t {
        Tree::Missing => true,
        Tree::Constant(leaf) => leaf <= i32::MAX,
        Tree::Table { key, table } => table.len() <= u32::MAX && forall|i: int|
            0 <= i < table.len() ==> is_storable(#[trigger] table[i]),
        Tree::Split { key, yes_set, yes, no } => {
            &&& yes_set.len() <= i32::MAX
            &&& is_storable(*yes)
            &&& is_storable(*no)
            &&& !(*yes is Missing)
            &&& !(*no is Missing)
        },
    }
}

/// `bytes` stand at `pos`.
pub open spec fn stands_at(buf: Seq<u8>, pos: int, bytes: Seq<u8>) -> bool {
    0 <= pos && pos + bytes.len() <= buf.len() && buf.subrange(pos, pos + bytes.len()) == bytes
}

proof fn parts_stand(buf: Seq<u8>, pos: int, a: Seq<u8>, b: Seq<u8>)
    requires
        stands_at(buf, pos, a + b),
    ensures
        stands_at(buf, pos, a),
        stands_at(buf, pos + a.len(), b),
{
    let s = buf.subrange(pos, pos + (a + b).len());
    assert(s.subrange(0, a.len() as int) =~= a);
    assert(s.subrange(a.len() as int, (a + b).len() as int) =~= b);
    assert(buf.subrange(pos, pos + a.len()) =~= s.subrange(0, a.len() as int));
    assert(buf.subrange(pos + a.len(), pos + a.len() + b.len()) =~= s.subrange(
        a.len() as int,
        (a + b).len() as int,
    ));
}

proof fn byte_stands(buf: Seq<u8>, pos: int, bytes: Seq<u8>, i: int)
    requires
        stands_at(buf, pos, bytes),
        0 <= i < bytes.len(),
    ensures
        buf[pos + i] == bytes[i],
{
    assert(buf.subrange(pos, pos + bytes.len())[i] == buf[pos + i]);
}

proof fn le32_is_undone(x: u32)
    ensures
        le32(le32_bytes(x)) == x,
        le32_bytes(x).len() == 4,
{
    let a = x % 0x100;
    let b = x / 0x100 % 0x100;
    let c = x / 0x1_0000 % 0x100;
    let d = x / 0x100_0000 % 0x100;
    assert(a + b * 0x100 + c * 0x1_0000 + d * 0x100_0000 == x);
}

proof fn i32_is_read(buf: Seq<u8>, pos: int, x: i32)
    requires
        stands_at(buf, pos, written_i32(x)),
    ensures
        i32_at(buf, pos) == Parsed::Done(x, pos + 5),
{
    le32_is_undone(unsigned(x));
    parts_stand(buf, pos, seq![4u8], le32_bytes(unsigned(x)));
    byte_stands(buf, pos, seq![4u8], 0);
    assert(buf.subrange(pos, pos + 1)[0] == 4);
}

proof fn u32_is_read(buf: Seq<u8>, pos: int, x: u32)
    requires
        stands_at(buf, pos, written_u32(x)),
    ensures
        u32_at(buf, pos) == Parsed::Done(x, pos + 5),
{
    le32_is_undone(x);
    parts_stand(buf, pos, seq![0xfcu8], le32_bytes(x));
    byte_stands(buf, pos, seq![0xfcu8], 0);
    assert(buf.subrange(pos, pos + 1)[0] == 0xfc);
}

proof fn items_are_placed(v: Seq<i32>, n: int)
    requires
        0 <= n <= v.len(),
    ensures
        written_items(v, n).len() == 4 * n,
        forall|i: int|
            #![trigger v[i]]
            0 <= i < n ==> written_items(v, n).subrange(4 * i, 4 * i + 4) == le32_bytes(
                unsigned(v[i]),
            ),
    decreases n,
{
    if n > 0 {
        items_are_placed(v, n - 1);
        le32_is_undone(unsigned(v[n - 1]));
        let all = written_items(v, n);
        let before = written_items(v, n - 1);
        assert forall|i: int| #![trigger v[i]] 0 <= i < n implies all.subrange(4 * i, 4 * i + 4)
            == le32_bytes(unsigned(v[i])) by {
            if i < n - 1 {
                assert(all.subrange(4 * i, 4 * i + 4) =~= before.subrange(4 * i, 4 * i + 4));
            } else {
                assert(all.subrange(4 * i, 4 * i + 4) =~= le32_bytes(unsigned(v[i])));
            }
        }
    }
}

proof fn vec_is_read(buf: Seq<u8>, pos: int, v: Seq<i32>)
    requires
        v.len() <= i32::MAX,
        stands_at(buf, pos, written_vec(v)),
    ensures
        int_vec_at(buf, pos) == Parsed::Done(v, pos + written_vec(v).len()),
{
    let n = v.len() as int;
    let head = written_i32(n as i32);
    let items = written_items(v, n);
    items_are_placed(v, n);
    parts_stand(buf, pos, head, items);
    le32_is_undone(unsigned(n as i32));
    i32_is_read(buf, pos, n as i32);
    assert(head.len() == 5);
    parts_stand(buf, pos, seq![4u8], le32_bytes(unsigned(n as i32)));
    byte_stands(buf, pos, seq![4u8], 0);
    assert(buf.subrange(pos, pos + 1)[0] == 4);
    let b = buf.subrange(pos + 5, pos + 5 + 4 * n);
    assert(b == items);
    let got = packed32(b).map_values(|x: u32| signed(x));
    assert(packed32(b).len() == n);
    assert forall|i: int| 0 <= i < n implies got[i] == v[i] by {
        le32_is_undone(unsigned(v[i]));
        assert(packed32(b)[i] == le32(b.subrange(4 * i, 4 * i + 4)));
    }
    assert(got =~= v);
}

/// The bytes of a token.
pub open spec fn is_token(tok: Seq<u8>) -> bool {
    tok.len() > 0 && forall|i: int|
        0 <= i < tok.len() ==> #[trigger] tok[i] < 0x80 && !is_ascii_space(tok[i])
}

proof fn text_ends(buf: Seq<u8>, i: int, end: int)
    requires
        0 <= i <= end < buf.len(),
        forall|k: int| i <= k < end ==> !is_ascii_space(#[trigger] buf[k]),
        is_ascii_space(buf[end]),
    ensures
        after_text(buf, i) == end,
    decreases end - i,
{
    if i < end {
        assert(!is_ascii_space(buf[i]));
        text_ends(buf, i + 1, end);
    }
}

proof fn token_is_read(buf: Seq<u8>, pos: int, tok: Seq<u8>)
    requires
        is_token(tok),
        stands_at(buf, pos, tok + seq![0x20u8]),
    ensures
        token_at(buf, pos) == Parsed::Done(ascii_text(tok), pos + tok.len() + 1),
        peek_at(buf, pos) == Some(tok[0]),
{
    let n = tok.len() as int;
    let whole = tok + seq![0x20u8];
    byte_stands(buf, pos, whole, 0);
    byte_stands(buf, pos, whole, n);
    assert(whole[n] == 0x20);
    assert forall|k: int| pos <= k < pos + n implies !is_ascii_space(#[trigger] buf[k]) by {
        byte_stands(buf, pos, whole, k - pos);
        assert(whole[k - pos] == tok[k - pos]);
    }
    text_ends(buf, pos, pos + n);
    parts_stand(buf, pos, tok, seq![0x20u8]);
    assert(is_ascii_bytes(tok));
    assert(buf[pos] == tok[0]);
}

/// The token with these letters is read, with the blank after it.
proof fn expected_is_read(buf: Seq<u8>, pos: int, tok: Seq<u8>, text: Seq<char>)
    requires
        is_token(tok),
        ascii_text(tok) == text,
        stands_at(buf, pos, tok + seq![0x20u8]),
    ensures
        expected_at(buf, pos, text) == Parsed::Done((), pos + tok.len() + 1),
        peek_at(buf, pos) == Some(tok[0]),
{
    token_is_read(buf, pos, tok);
}

proof fn tree_tokens()
    ensures
        ascii_text(seq![0x4eu8, 0x55, 0x4c, 0x4c]) == "NULL"@,
        ascii_text(seq![0x43u8, 0x45]) == "CE"@,
        ascii_text(seq![0x54u8, 0x45]) == "TE"@,
        ascii_text(seq![0x53u8, 0x45]) == "SE"@,
        ascii_text(seq![0x28u8]) == "("@,
        ascii_text(seq![0x29u8]) == ")"@,
        ascii_text(seq![0x7bu8]) == "{"@,
        ascii_text(seq![0x7du8]) == "}"@,
{
    reveal_strlit("NULL");
    reveal_strlit("CE");
    reveal_strlit("TE");
    reveal_strlit("SE");
    reveal_strlit("(");
    reveal_strlit(")");
    reveal_strlit("{");
    reveal_strlit("}");
    assert(ascii_text(seq![0x4eu8, 0x55, 0x4c, 0x4c]) =~= "NULL"@);
    assert(ascii_text(seq![0x43u8, 0x45]) =~= "CE"@);
    assert(ascii_text(seq![0x54u8, 0x45]) =~= "TE"@);
    assert(ascii_text(seq![0x53u8, 0x45]) =~= "SE"@);
    assert(ascii_text(seq![0x28u8]) =~= "("@);
    assert(ascii_text(seq![0x29u8]) =~= ")"@);
    assert(ascii_text(seq![0x7bu8]) =~= "{"@);
    assert(ascii_text(seq![0x7du8]) =~= "}"@);
}

proof fn null_is_read(buf: Seq<u8>, pos: int)
    requires
        stands_at(buf, pos, null_token()),
    ensures
        event_map_at(buf, pos) == Parsed::Done(Tree::Missing, pos + 5),
{
    tree_tokens();
    let tok = seq![0x4eu8, 0x55, 0x4c, 0x4c];
    assert(null_token() =~= tok + seq![0x20u8]);
    expected_is_read(buf, pos, tok, "NULL"@);
}

proof fn leaf_is_read(buf: Seq<u8>, pos: int, leaf: u32)
    requires
        leaf <= i32::MAX,
        stands_at(buf, pos, written(Tree::Constant(leaf))),
    ensures
        event_map_at(buf, pos) == Parsed::Done(
            Tree::Constant(leaf),
            pos + written(Tree::Constant(leaf)).len(),
        ),
{
    tree_tokens();
    let tok = seq![0x43u8, 0x45];
    let head = seq![0x43u8, 0x45, 0x20];
    parts_stand(buf, pos, head, written_i32(leaf as i32));
    assert(head =~= tok + seq![0x20u8]);
    expected_is_read(buf, pos, tok, "CE"@);
    i32_is_read(buf, pos + 3, leaf as i32);
    assert((leaf as i32) as u32 == leaf);
}

proof fn table_head_is_read(buf: Seq<u8>, pos: int, key: i32, size: u32)
    requires
        stands_at(
            buf,
            pos,
            seq![0x54u8, 0x45, 0x20] + written_i32(key) + written_u32(size) + seq![0x28u8, 0x20],
        ),
    ensures
        table_header_at(buf, pos) == Parsed::Done((key, size), pos + 15),
        peek_at(buf, pos) == Some(0x54u8),
{
    tree_tokens();
    let a = seq![0x54u8, 0x45, 0x20];
    let b = written_i32(key);
    let c = written_u32(size);
    let d = seq![0x28u8, 0x20];
    parts_stand(buf, pos, a + b + c, d);
    parts_stand(buf, pos, a + b, c);
    parts_stand(buf, pos, a, b);
    assert(a =~= seq![0x54u8, 0x45] + seq![0x20u8]);
    expected_is_read(buf, pos, seq![0x54u8, 0x45], "TE"@);
    i32_is_read(buf, pos + 3, key);
    u32_is_read(buf, pos + 8, size);
    assert(d =~= seq![0x28u8] + seq![0x20u8]);
    expected_is_read(buf, pos + 13, seq![0x28u8], "("@);
}

proof fn split_head_is_read(buf: Seq<u8>, pos: int, key: i32, yes_set: Seq<i32>)
    requires
        yes_set.len() <= i32::MAX,
        stands_at(
            buf,
            pos,
            seq![0x53u8, 0x45, 0x20] + written_i32(key) + written_vec(yes_set) + seq![0x7bu8, 0x20],
        ),
    ensures
        split_header_at(buf, pos) == Parsed::Done(
            (key, yes_set),
            pos + 10 + written_vec(yes_set).len(),
        ),
        peek_at(buf, pos) == Some(0x53u8),
{
    tree_tokens();
    let a = seq![0x53u8, 0x45, 0x20];
    let b = written_i32(key);
    let c = written_vec(yes_set);
    let d = seq![0x7bu8, 0x20];
    parts_stand(buf, pos, a + b + c, d);
    parts_stand(buf, pos, a + b, c);
    parts_stand(buf, pos, a, b);
    assert(a =~= seq![0x53u8, 0x45] + seq![0x20u8]);
    expected_is_read(buf, pos, seq![0x53u8, 0x45], "SE"@);
    i32_is_read(buf, pos + 3, key);
    vec_is_read(buf, pos + 8, yes_set);
    assert(d =~= seq![0x7bu8] + seq![0x20u8]);
    expected_is_read(buf, pos + 8 + c.len(), seq![0x7bu8], "{"@);
}

proof fn one_child(buf: Seq<u8>, pos: int, t: Tree, next: int)
    requires
        event_map_at(buf, pos) == Parsed::Done(t, next),
        pos < next <= buf.len(),
    ensures
        children_at(buf, pos, 1) == Parsed::Done(seq![t], next),
{
    reveal_with_fuel(children_at, 2);
    assert(children_at(buf, next, 0) == Parsed::Done(Seq::<Tree>::empty(), next));
    assert(seq![t] + Seq::<Tree>::empty() =~= seq![t]);
}

proof fn writing_has_length(t: Tree)
    ensures
        written(t).len() > 0,
{
}

proof fn table_step(buf: Seq<u8>, pos: int, key: i32, table: Seq<Tree>, p1: int, p2: int, p3: int)
    requires
        table.len() <= u32::MAX,
        peek_at(buf, pos) == Some(0x54u8),
        table_header_at(buf, pos) == Parsed::Done((key, table.len() as u32), p1),
        pos < p1 <= buf.len(),
        children_at(buf, p1, table.len() as int) == Parsed::Done(table, p2),
        expected_at(buf, p2, ")"@) == Parsed::Done((), p3),
    ensures
        event_map_at(buf, pos) == Parsed::Done(Tree::Table { key, table }, p3),
{
}

proof fn split_step(
    buf: Seq<u8>,
    pos: int,
    key: i32,
    yes_set: Seq<i32>,
    yes: Tree,
    no: Tree,
    p1: int,
    p2: int,
    p3: int,
    p4: int,
)
    requires
        peek_at(buf, pos) == Some(0x53u8),
        split_header_at(buf, pos) == Parsed::Done((key, yes_set), p1),
        pos < p1 < p2 <= buf.len(),
        children_at(buf, p1, 1) == Parsed::Done(seq![yes], p2),
        !(yes is Missing),
        children_at(buf, p2, 1) == Parsed::Done(seq![no], p3),
        !(no is Missing),
        expected_at(buf, p3, "}"@) == Parsed::Done((), p4),
    ensures
        event_map_at(buf, pos) == Parsed::Done(
            Tree::Split { key, yes_set, yes: Box::new(yes), no: Box::new(no) },
            p4,
        ),
{
}

/// Where the parts of a written table stand.
proof fn table_parts(buf: Seq<u8>, pos: int, key: i32, table: Seq<Tree>)
    requires
        table.len() <= u32::MAX,
        stands_at(buf, pos, written(Tree::Table { key, table })),
    ensures
        table_header_at(buf, pos) == Parsed::Done((key, table.len() as u32), pos + 15),
        peek_at(buf, pos) == Some(0x54u8),
        stands_at(buf, pos + 15, written_all(table, 0)),
        expected_at(buf, pos + 15 + written_all(table, 0).len(), ")"@) == Parsed::Done(
            (),
            pos + written(Tree::Table { key, table }).len(),
        ),
{
    let size = table.len() as u32;
    let head = seq![0x54u8, 0x45, 0x20] + written_i32(key) + written_u32(size) + seq![0x28u8, 0x20];
    let body = written_all(table, 0);
    let end = seq![0x29u8, 0x20];
    assert(written(Tree::Table { key, table }) == head + body + end);
    parts_stand(buf, pos, head + body, end);
    parts_stand(buf, pos, head, body);
    le32_is_undone(unsigned(key));
    le32_is_undone(size);
    assert(head.len() == 15);
    table_head_is_read(buf, pos, key, size);
    tree_tokens();
    assert(end =~= seq![0x29u8] + seq![0x20u8]);
    expected_is_read(buf, pos + 15 + body.len(), seq![0x29u8], ")"@);
}

/// Where the parts of a written split stand.
proof fn split_parts(buf: Seq<u8>, pos: int, key: i32, yes_set: Seq<i32>, yes: Tree, no: Tree)
    requires
        yes_set.len() <= i32::MAX,
        stands_at(
            buf,
            pos,
            written(Tree::Split { key, yes_set, yes: Box::new(yes), no: Box::new(no) }),
        ),
    ensures
        ({
            let t = Tree::Split { key, yes_set, yes: Box::new(yes), no: Box::new(no) };
            let p1 = pos + 10 + written_vec(yes_set).len();
            let p2 = p1 + written(yes).len();
            let p3 = p2 + written(no).len();
            &&& split_header_at(buf, pos) == Parsed::Done((key, yes_set), p1)
            &&& peek_at(buf, pos) == Some(0x53u8)
            &&& stands_at(buf, p1, written(yes))
            &&& stands_at(buf, p2, written(no))
            &&& expected_at(buf, p3, "}"@) == Parsed::Done((), pos + written(t).len())
        }),
{
    let head = seq![0x53u8, 0x45, 0x20] + written_i32(key) + written_vec(yes_set) + seq![
        0x7bu8,
        0x20,
    ];
    let a = written(yes);
    let b = written(no);
    let end = seq![0x7du8, 0x20];
    let t = Tree::Split { key, yes_set, yes: Box::new(yes), no: Box::new(no) };
    assert(written(t) == head + a + b + end);
    parts_stand(buf, pos, head + a + b, end);
    parts_stand(buf, pos, head + a, b);
    parts_stand(buf, pos, head, a);
    le32_is_undone(unsigned(key));
    assert(head.len() == 10 + written_vec(yes_set).len());
    split_head_is_read(buf, pos, key, yes_set);
    tree_tokens();
    assert(end =~= seq![0x7du8] + seq![0x20u8]);
    expected_is_read(buf, pos + head.len() + a.len() + b.len(), seq![0x7du8], "}"@);
}

/// A tree is read as Kaldi writes it, and nothing behind it is taken.
pub proof fn event_map_is_read_as_written(buf: Seq<u8>, pos: int, t: Tree)
    requires
        is_storable(t),
        stands_at(buf, pos, written(t)),
    ensures
        event_map_at(buf, pos) == Parsed::Done(t, pos + written(t).len()),
    decreases t, 0int,
{
    match t {
        Tree::Missing => {
            null_is_read(buf, pos);
        },
        Tree::Constant(leaf) => {
            leaf_is_read(buf, pos, leaf);
        },
        Tree::Table { key, table } => {
            table_parts(buf, pos, key, table);
            children_are_read_as_written(buf, pos + 15, table, 0);
            assert(table.skip(0) =~= table);
            let p2 = pos + 15 + written_all(table, 0).len();
            table_step(buf, pos, key, table, pos + 15, p2, pos + written(t).len());
        },
        Tree::Split { key, yes_set, yes, no } => {
            split_parts(buf, pos, key, yes_set, *yes, *no);
            let p1 = pos + 10 + written_vec(yes_set).len();
            let p2 = p1 + written(*yes).len();
            let p3 = p2 + written(*no).len();
            event_map_is_read_as_written(buf, p1, *yes);
            writing_has_length(*yes);
            one_child(buf, p1, *yes, p2);
            event_map_is_read_as_written(buf, p2, *no);
            writing_has_length(*no);
            one_child(buf, p2, *no, p3);
            split_step(
                buf,
                pos,
                key,
                yes_set,
                *yes,
                *no,
                p1,
                p2,
                p3,
                pos + written(t).len(),
            );
        },
    }
}

proof fn children_are_read_as_written(buf: Seq<u8>, pos: int, table: Seq<Tree>, i: int)
    requires
        0 <= i <= table.len(),
        forall|k: int| 0 <= k < table.len() ==> is_storable(#[trigger] table[k]),
        stands_at(buf, pos, written_all(table, i)),
    ensures
        children_at(buf, pos, table.len() - i) == Parsed::Done(
            table.skip(i),
            pos + written_all(table, i).len(),
        ),
    decreases table, table.len() - i,
{
    if i < table.len() {
        let one = written(table[i]);
        let rest = written_all(table, i + 1);
        parts_stand(buf, pos, one, rest);
        event_map_is_read_as_written(buf, pos, table[i]);
        writing_has_length(table[i]);
        children_are_read_as_written(buf, pos + one.len(), table, i + 1);
        assert(seq![table[i]] + table.skip(i + 1) =~= table.skip(i));
    } else {
        assert(table.skip(i) =~= Seq::empty());
    }
}

/// The token `ContextDependency`.
pub open spec fn context_token() -> Seq<u8> {
    seq![
        0x43u8, 0x6f, 0x6e, 0x74, 0x65, 0x78, 0x74, 0x44, 0x65, 0x70, 0x65, 0x6e, 0x64, 0x65, 0x6e,
        0x63, 0x79,
    ]
}

/// The token `ToLength`.
pub open spec fn length_token() -> Seq<u8> {
    seq![0x54u8, 0x6f, 0x4c, 0x65, 0x6e, 0x67, 0x74, 0x68]
}

/// The token `ToPdf`.
pub open spec fn pdf_token() -> Seq<u8> {
    seq![0x54u8, 0x6f, 0x50, 0x64, 0x66]
}

/// The token `EndContextDependency`.
pub open spec fn end_token() -> Seq<u8> {
    seq![0x45u8, 0x6e, 0x64] + context_token()
}

/// A tree with its context window; some files have the lengths of phones in front of it.
pub open spec fn written_context(n: i32, p: i32, lengths: Option<Tree>, t: Tree) -> Seq<u8> {
    context_token() + seq![0x20u8] + written_i32(n) + written_i32(p) + written_lengths(lengths)
        + pdf_token() + seq![0x20u8] + written(t) + end_token() + seq![0x20u8]
}

/// The lengths of phones, where they are written.
pub open spec fn written_lengths(lengths: Option<Tree>) -> Seq<u8> {
    match lengths {
        Some(l) => length_token() + seq![0x20u8] + written(l),
        None => seq![],
    }
}

proof fn context_tokens()
    ensures
        ascii_text(context_token()) == "ContextDependency"@,
        ascii_text(length_token()) == "ToLength"@,
        ascii_text(pdf_token()) == "ToPdf"@,
        ascii_text(end_token()) == "EndContextDependency"@,
        "ToPdf"@ != "ToLength"@,
{
    reveal_strlit("ContextDependency");
    reveal_strlit("ToLength");
    reveal_strlit("ToPdf");
    reveal_strlit("EndContextDependency");
    assert(ascii_text(context_token()) =~= "ContextDependency"@);
    assert(ascii_text(length_token()) =~= "ToLength"@);
    assert(ascii_text(pdf_token()) =~= "ToPdf"@);
    assert(ascii_text(end_token()) =~= "EndContextDependency"@);
    assert("ToPdf"@.len() != "ToLength"@.len());
}

/// What stands in front of the tree is read, with the token after it.
proof fn lengths_are_read(buf: Seq<u8>, pos: int, lengths: Option<Tree>)
    requires
        lengths matches Some(l) ==> is_storable(l),
        stands_at(buf, pos, written_lengths(lengths)),
        stands_at(buf, pos + written_lengths(lengths).len(), pdf_token() + seq![0x20u8]),
    ensures
        skipped_at(buf, pos, "ToLength"@, "ToPdf"@, |q: int| event_map_at(buf, q)) == Parsed::Done(
            (),
            pos + written_lengths(lengths).len() + 6,
        ),
{
    context_tokens();
    let d = written_lengths(lengths);
    token_is_read(buf, pos + d.len(), pdf_token());
    match lengths {
        Some(l) => {
            parts_stand(buf, pos, length_token() + seq![0x20u8], written(l));
            token_is_read(buf, pos, length_token());
            event_map_is_read_as_written(buf, pos + 9, l);
        },
        None => {},
    }
}

proof fn context_step(
    buf: Seq<u8>,
    pos: int,
    n: i32,
    p: i32,
    t: Tree,
    p1: int,
    p4: int,
    p5: int,
    p6: int,
)
    requires
        0 <= p < n,
        expected_at(buf, pos, "ContextDependency"@) == Parsed::Done((), p1),
        i32_at(buf, p1) == Parsed::Done(n, p1 + 5),
        i32_at(buf, p1 + 5) == Parsed::Done(p, p1 + 10),
        skipped_at(buf, p1 + 10, "ToLength"@, "ToPdf"@, |q: int| event_map_at(buf, q))
            == Parsed::Done((), p4),
        event_map_at(buf, p4) == Parsed::Done(t, p5),
        expected_at(buf, p5, "EndContextDependency"@) == Parsed::Done((), p6),
    ensures
        !(t is Missing) ==> context_dependency_at(buf, pos) == Parsed::Done(
            (n as int, p as int, t),
            p6,
        ),
        t is Missing ==> context_dependency_at(buf, pos) == malformed_at::<(int, int, Tree)>(
            p5,
            "tree has a NULL root"@,
        ),
{
}

/// A tree with its context window is read as Kaldi writes it, whether or not the lengths of phones
/// stand in front of it; one whose root is missing is malformed.
pub proof fn context_is_read_as_written(
    buf: Seq<u8>,
    pos: int,
    n: i32,
    p: i32,
    lengths: Option<Tree>,
    t: Tree,
)
    requires
        0 <= p < n,
        is_storable(t),
        lengths matches Some(l) ==> is_storable(l),
        stands_at(buf, pos, written_context(n, p, lengths, t)),
    ensures
        !(t is Missing) ==> context_dependency_at(buf, pos) == Parsed::Done(
            (n as int, p as int, t),
            pos + written_context(n, p, lengths, t).len(),
        ),
        t is Missing ==> context_dependency_at(buf, pos) == malformed_at::<(int, int, Tree)>(
            pos + written_context(n, p, lengths, t).len() - 21,
            "tree has a NULL root"@,
        ),
{
    let d = written_lengths(lengths).len();
    let g = written(t).len();
    context_stands(buf, pos, n, p, lengths, t);
    context_start_is_read(buf, pos, n, p);
    lengths_are_read(buf, pos + 28, lengths);
    event_map_is_read_as_written(buf, pos + 34 + d, t);
    context_end_is_read(buf, pos + 34 + d + g);
    context_step(buf, pos, n, p, t, pos + 18, pos + 34 + d, pos + 34 + d + g, pos + 55 + d + g);
}

/// The parts of a written context window stand one after the other.
proof fn context_stands(buf: Seq<u8>, pos: int, n: i32, p: i32, lengths: Option<Tree>, t: Tree)
    requires
        stands_at(buf, pos, written_context(n, p, lengths, t)),
    ensures
        ({
            let d = written_lengths(lengths).len();
            let g = written(t).len();
            &&& stands_at(buf, pos, context_token() + seq![0x20u8])
            &&& stands_at(buf, pos + 18, written_i32(n))
            &&& stands_at(buf, pos + 23, written_i32(p))
            &&& stands_at(buf, pos + 28, written_lengths(lengths))
            &&& stands_at(buf, pos + 28 + d, pdf_token() + seq![0x20u8])
            &&& stands_at(buf, pos + 34 + d, written(t))
            &&& stands_at(buf, pos + 34 + d + g, end_token() + seq![0x20u8])
            &&& written_context(n, p, lengths, t).len() == 55 + d + g
        }),
{
    let a = context_token() + seq![0x20u8];
    let b = written_i32(n);
    let c = written_i32(p);
    let d = written_lengths(lengths);
    let e = pdf_token() + seq![0x20u8];
    let g = written(t);
    let h = end_token() + seq![0x20u8];
    assert(written_context(n, p, lengths, t) =~= a + b + c + d + e + g + h);
    assert(a.len() == 18 && b.len() == 5 && c.len() == 5 && e.len() == 6 && h.len() == 21);
    context_parts(buf, pos, a, b, c, d, e, g, h);
}

proof fn context_start_is_read(buf: Seq<u8>, pos: int, n: i32, p: i32)
    requires
        stands_at(buf, pos, context_token() + seq![0x20u8]),
        stands_at(buf, pos + 18, written_i32(n)),
        stands_at(buf, pos + 23, written_i32(p)),
    ensures
        expected_at(buf, pos, "ContextDependency"@) == Parsed::Done((), pos + 18),
        i32_at(buf, pos + 18) == Parsed::Done(n, pos + 23),
        i32_at(buf, pos + 23) == Parsed::Done(p, pos + 28),
{
    context_tokens();
    expected_is_read(buf, pos, context_token(), "ContextDependency"@);
    i32_is_read(buf, pos + 18, n);
    i32_is_read(buf, pos + 23, p);
}

proof fn context_end_is_read(buf: Seq<u8>, pos: int)
    requires
        stands_at(buf, pos, end_token() + seq![0x20u8]),
    ensures
        expected_at(buf, pos, "EndContextDependency"@) == Parsed::Done((), pos + 21),
{
    context_tokens();
    end_is_token();
    expected_is_read(buf, pos, end_token(), "EndContextDependency"@);
}

proof fn end_is_token()
    ensures
        is_token(end_token()),
        end_token().len() == 20,
{
}

/// Seven parts that stand together stand one after the other.
proof fn context_parts(
    buf: Seq<u8>,
    pos: int,
    a: Seq<u8>,
    b: Seq<u8>,
    c: Seq<u8>,
    d: Seq<u8>,
    e: Seq<u8>,
    g: Seq<u8>,
    h: Seq<u8>,
)
    requires
        stands_at(buf, pos, a + b + c + d + e + g + h),
    ensures
        stands_at(buf, pos, a),
        stands_at(buf, pos + a.len(), b),
        stands_at(buf, pos + a.len() + b.len(), c),
        stands_at(buf, pos + a.len() + b.len() + c.len(), d),
        stands_at(buf, pos + a.len() + b.len() + c.len() + d.len(), e),
        stands_at(buf, pos + a.len() + b.len() + c.len() + d.len() + e.len(), g),
        stands_at(buf, pos + a.len() + b.len() + c.len() + d.len() + e.len() + g.len(), h),
{
    parts_stand(buf, pos, a + b + c + d + e + g, h);
    parts_stand(buf, pos, a + b + c + d + e, g);
    parts_stand(buf, pos, a + b + c + d, e);
    parts_stand(buf, pos, a + b + c, d);
    parts_stand(buf, pos, a + b, c);
    parts_stand(buf, pos, a, b);
}

} // verus!
