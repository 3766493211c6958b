//! The steps of an insert: what holds while the walk for a new key goes
//! down the trie, and what each step keeps of it.

use crate::cell::{Instance, Type, SIZE};
use crate::codec::{patched, same_outside, zero_inside};
use crate::header::{
    advance, block_size, cell_offset, decrement_remaining, fanout, fresh_table, lemma_fanout,
    slot_index, table_at, Root, TableHeader, ROOT_SIZE,
};
use crate::trie::{
    agree, cell_of, cell_ok, deepened, lemma_agree_ends, lemma_agree_step, lemma_cell_range,
    lemma_descend, lemma_place, lemma_residual_step, lemma_split, lemma_split_path,
    lemma_split_ready, lemma_table_at, member_ok, moved_down, offsets_kept, on_path, place_pre,
    placed, residual, shaped, slot_at, table_ok, tables_kept, Shape,
};
use vstd::prelude::*;

verus! {

/// The buffer `b` with the bytes of `c` in cell `s` of the table at `t`.
pub open spec fn with_cell(b: Seq<u8>, t: int, s: int, c: Instance) -> Seq<u8> {
    patched(b, cell_offset(t, s), c.bytes())
}

/// The buffer `b` after the string of cell `s` of the table at `cur` was
/// moved one level down: a new table at the end, a pointer to it in the
/// cell, and the string pointer in cell `slot` of the new table.
pub open spec fn split_image(b: Seq<u8>, bits: u8, cur: int, s: int, slot: int) -> Seq<u8> {
    let held = cell_of(b, cur, s);
    with_cell(
        with_cell(
            b + fresh_table(bits),
            cur,
            s,
            Instance { c_type: 2, index: b.len() as usize, string_key: 0 },
        ),
        b.len() as int,
        slot,
        Instance { c_type: 1, index: held.index, string_key: held.string_key },
    )
}

/// The index that an insert of `key` leaves, whose walk stands in the table
/// at `table` with `running` left of the key and `remaining` bits not yet
/// consumed. `at` is where the string of the key stands in the pool.
pub open spec fn insert_image(
    b: Seq<u8>,
    bits: u8,
    key: u64,
    at: usize,
    table: int,
    running: u64,
    remaining: int,
) -> Seq<u8>
    decreases remaining,
{
    if remaining <= 0 || bits < 1 {
        b
    } else {
        let s = slot_index(running, bits) as int;
        let c = cell_of(b, table, s);
        let next = advance(running, bits);
        let left = decrement_remaining(remaining, bits);
        match c.spec_type() {
            Type::Empty => with_cell(
                b,
                table,
                s,
                Instance { c_type: 1, index: at, string_key: key },
            ),
            Type::StringPtr => if c.string_key == key {
                b
            } else {
                insert_image(
                    split_image(
                        b,
                        bits,
                        table,
                        s,
                        slot_index(
                            advance(residual(c.string_key, 64 - remaining), bits),
                            bits,
                        ) as int,
                    ),
                    bits,
                    key,
                    at,
                    b.len() as int,
                    next,
                    left,
                )
            },
            Type::TablePtr => insert_image(b, bits, key, at, c.index as int, next, left),
            Type::Unknown => b,
        }
    }
}

/// The index `b` with its first table, which an insert appends where there is none.
pub open spec fn with_first_table(b: Seq<u8>, bits: u8) -> Seq<u8> {
    if Root::at(b).root_table_offset == 0 {
        (Root { root_table_offset: b.len() as usize, ..Root::at(b) }).stored(b + fresh_table(bits))
    } else {
        b
    }
}

/// The index that an insert of `key` makes of the index `b` of a builder
/// with `bits` bits, where `at` is the place of the string in the pool: the
/// walk goes down from the first table by the low bits of the key; an empty
/// cell takes the string pointer; a cell that holds the key ends the walk
/// with nothing changed; the string of another key is moved one table down,
/// and the walk follows it.
pub open spec fn inserted_index(b: Seq<u8>, bits: u8, key: u64, at: usize) -> Seq<u8> {
    let first = with_first_table(b, bits);
    insert_image(first, bits, key, at, Root::at(first).root_table_offset as int, key, 64)
}

/// An insert never shrinks the index.
pub proof fn lemma_image_len(
    b: Seq<u8>,
    bits: u8,
    key: u64,
    at: usize,
    table: int,
    running: u64,
    remaining: int,
)
    ensures
        b.len() <= insert_image(b, bits, key, at, table, running, remaining).len(),
    decreases remaining,
{
    if remaining > 0 && bits >= 1 {
        let s = slot_index(running, bits) as int;
        let c = cell_of(b, table, s);
        let next = advance(running, bits);
        let left = decrement_remaining(remaining, bits);
        if c.spec_type() == Type::TablePtr {
            lemma_image_len(b, bits, key, at, c.index as int, next, left);
        } else if c.spec_type() == Type::StringPtr && c.string_key != key {
            let slot = slot_index(
                advance(residual(c.string_key, 64 - remaining), bits),
                bits,
            ) as int;
            lemma_image_len(
                split_image(b, bits, table, s, slot),
                bits,
                key,
                at,
                b.len() as int,
                next,
                left,
            );
        }
    }
}

/// Where the walk of an insert stands.
pub ghost struct Walk {
    /// The tables that the walk has entered.
    pub path: Set<int>,
    /// The table in which it stands.
    pub cur: int,
    /// What is left of the key.
    pub running: u64,
    /// The number of key bits that are left.
    pub remaining: int,
    /// The number of strings that this insert has moved down.
    pub splits: int,
    /// The last step moved a string down, and the walk has not followed it yet.
    pub fresh: bool,
}

/// The walk of an insert of `key` stands in a table of the buffer `b`, which
/// grew out of `start` and has a sound shape; `target` is the index that the
/// insert will leave.
#[verifier::opaque]
pub open spec fn walking(
    b: Seq<u8>,
    bits: u8,
    offsets: Map<Seq<char>, usize>,
    sh: Shape,
    start: Seq<u8>,
    key: u64,
    w: Walk,
    at: usize,
    target: Seq<u8>,
) -> bool {
    let consumed = sh.nodes[w.cur].consumed;
    &&& 2 <= bits <= 16
    &&& target == insert_image(b, bits, key, at, w.cur, w.running, w.remaining)
    &&& shaped(b, b.len() as int, bits, offsets, sh)
    &&& Root::at(b) == (Root { htype: 1, root_table_offset: ROOT_SIZE, string_offset: 0 })
    &&& zero_inside(b, 4, 8)
    &&& on_path(b, bits, sh, w.path, key, w.cur)
    &&& w.running == residual(key, consumed)
    &&& w.remaining == 64 - consumed
    &&& (sh.entries.contains_key(key) <==> sh.nodes[w.cur].members.contains(key))
    &&& forall|k: u64| #[trigger] sh.nodes[w.cur].members.contains(k) ==> agree(key, k, consumed)
    &&& 0 <= w.splits
    &&& !w.fresh ==> 2 * w.splits <= consumed
    &&& w.fresh ==> {
        &&& 2 * w.splits <= consumed + 2
        &&& consumed + bits < 64
        &&& cell_of(b, w.cur, slot_at(key, consumed, bits)).spec_type() == Type::TablePtr
    }
    &&& b.len() + (31 - w.splits) * block_size(bits) <= start.len() + 32 * block_size(bits)
    &&& start.len() <= b.len()
    &&& sh.entries.contains_key(key) ==> b == start
}

/// The cell at which the walk stands.
pub open spec fn here(b: Seq<u8>, bits: u8, w: Walk) -> Instance {
    cell_of(b, w.cur, slot_index(w.running, bits) as int)
}

/// The walk starts in the first table.
pub proof fn lemma_walk_start(
    b: Seq<u8>,
    bits: u8,
    offsets: Map<Seq<char>, usize>,
    sh: Shape,
    start: Seq<u8>,
    key: u64,
    at: usize,
)
    requires
        2 <= bits <= 16,
        shaped(b, b.len() as int, bits, offsets, sh),
        b.len() > ROOT_SIZE,
        Root::at(b) == (Root { htype: 1, root_table_offset: ROOT_SIZE, string_offset: 0 }),
        zero_inside(b, 4, 8),
        start.len() <= b.len() <= start.len() + block_size(bits),
        sh.entries.contains_key(key) ==> b == start,
    ensures
        walking(
            b,
            bits,
            offsets,
            sh,
            start,
            key,
            Walk {
                path: Set::<int>::empty().insert(ROOT_SIZE as int),
                cur: ROOT_SIZE as int,
                running: key,
                remaining: 64,
                splits: 0,
                fresh: false,
            },
            at,
            insert_image(b, bits, key, at, ROOT_SIZE as int, key, 64),
        ),
{
    reveal(walking);
    lemma_fanout(bits);
    lemma_table_at(b, b.len() as int, bits, offsets, sh, ROOT_SIZE as int);
    assert(table_ok(b, b.len() as int, bits, sh, ROOT_SIZE as int));
    lemma_residual_step(key, 0, bits);
    assert forall|k: u64| #[trigger]
        sh.nodes[ROOT_SIZE as int].members.contains(k) implies agree(key, k, 0) by {
        lemma_agree_ends(key, k);
    }
}

/// What the walk finds where it stands: a table, and in it a cell that is
/// empty, or holds a string, or points to a table below.
pub proof fn lemma_walk_here(
    b: Seq<u8>,
    bits: u8,
    offsets: Map<Seq<char>, usize>,
    sh: Shape,
    start: Seq<u8>,
    key: u64,
    w: Walk,
    at: usize,
    target: Seq<u8>,
)
    requires
        walking(b, bits, offsets, sh, start, key, w, at, target),
    ensures
        2 <= bits <= 16,
        ROOT_SIZE <= w.cur,
        table_at(b, w.cur),
        TableHeader::at(b, w.cur) == (TableHeader { htype: 2, bits: bits }),
        0 < w.remaining <= 64,
        w.remaining == 64 - sh.nodes[w.cur].consumed,
        start.len() <= b.len() <= target.len(),
        b.len() <= start.len() + 32 * block_size(bits),
        sh.entries.contains_key(key) ==> b == start,
        shaped(b, b.len() as int, bits, offsets, sh),
        Root::at(b) == (Root { htype: 1, root_table_offset: ROOT_SIZE, string_offset: 0 }),
        zero_inside(b, 4, 8),
        match here(b, bits, w).spec_type() {
            Type::Unknown => false,
            Type::Empty => !sh.entries.contains_key(key),
            Type::StringPtr => if here(b, bits, w).string_key == key {
                sh.entries.contains_key(key) && target == b
            } else {
                &&& !sh.entries.contains_key(key)
                &&& !w.fresh
                &&& b.len() + block_size(bits) <= start.len() + 32 * block_size(bits)
                &&& b.len() + block_size(bits) <= target.len()
                &&& (64 - w.remaining) + bits < 64
                &&& 0 <= moved_slot(b, bits, w) < fanout(bits)
            },
            Type::TablePtr => {
                &&& table_at(b, here(b, bits, w).index as int)
                &&& TableHeader::at(b, here(b, bits, w).index as int) == (TableHeader {
                    htype: 2,
                    bits: bits,
                })
                &&& w.remaining > bits
            },
        },
{
    reveal(walking);
    lemma_fanout(bits);
    let consumed = sh.nodes[w.cur].consumed;
    let s = slot_at(key, consumed, bits);
    let c = cell_of(b, w.cur, s);
    let block = block_size(bits);
    lemma_table_at(b, b.len() as int, bits, offsets, sh, w.cur);
    assert(cell_ok(b, bits, offsets, sh, w.cur, s));
    if sh.nodes[w.cur].members.contains(key) {
        assert(member_ok(b, bits, sh, w.cur, key));
    }
    assert(w.splits <= 31);
    assert((31 - w.splits) * block >= 0) by (nonlinear_arith)
        requires
            w.splits <= 31,
            block >= 0,
    ;
    lemma_image_len(b, bits, key, at, w.cur, w.running, w.remaining);
    if c.spec_type() == Type::StringPtr && c.string_key != key {
        let slot = slot_index(advance(residual(c.string_key, 64 - w.remaining), bits), bits) as int;
        lemma_image_len(
            split_image(b, bits, w.cur, s, slot),
            bits,
            key,
            at,
            b.len() as int,
            advance(w.running, bits),
            decrement_remaining(w.remaining, bits),
        );
        lemma_agree_step(key, c.string_key, consumed, bits);
        lemma_agree_ends(key, c.string_key);
        assert(consumed + bits < 64);
        assert(w.splits <= 30);
        assert((31 - w.splits) * block >= block) by (nonlinear_arith)
            requires
                w.splits <= 30,
                block >= 0,
        ;
    }
    if c.spec_type() == Type::TablePtr {
        lemma_table_at(b, b.len() as int, bits, offsets, sh, c.index as int);
    }
}

/// Following the table pointer at which the walk stands takes it one table down.
pub proof fn lemma_walk_descend(
    b: Seq<u8>,
    bits: u8,
    offsets: Map<Seq<char>, usize>,
    sh: Shape,
    start: Seq<u8>,
    key: u64,
    w: Walk,
    at: usize,
    target: Seq<u8>,
)
    requires
        walking(b, bits, offsets, sh, start, key, w, at, target),
        here(b, bits, w).spec_type() == Type::TablePtr,
    ensures
        walking(
            b,
            bits,
            offsets,
            sh,
            start,
            key,
            Walk {
                path: w.path.insert(here(b, bits, w).index as int),
                cur: here(b, bits, w).index as int,
                running: advance(w.running, bits),
                remaining: decrement_remaining(w.remaining, bits),
                splits: w.splits,
                fresh: false,
            },
            at,
            target,
        ),
        0 < decrement_remaining(w.remaining, bits) <= w.remaining - 2,
{
    reveal(walking);
    lemma_fanout(bits);
    lemma_descend(b, b.len() as int, bits, offsets, sh, w.path, key, w.cur);
}

/// The cell of the table below into which a split moves the string at
/// which the walk stands.
pub open spec fn moved_slot(a: Seq<u8>, bits: u8, w: Walk) -> int {
    slot_index(advance(residual(here(a, bits, w).string_key, 64 - w.remaining), bits), bits) as int
}

/// Moving the string at which the walk stands one table down leaves the
/// walk where it is, before a table pointer.
#[verifier::rlimit(40)]
pub proof fn lemma_walk_split(
    a: Seq<u8>,
    b: Seq<u8>,
    bits: u8,
    offsets: Map<Seq<char>, usize>,
    sh: Shape,
    start: Seq<u8>,
    key: u64,
    w: Walk,
    at: usize,
    target: Seq<u8>,
)
    requires
        walking(a, bits, offsets, sh, start, key, w, at, target),
        here(a, bits, w).spec_type() == Type::StringPtr,
        here(a, bits, w).string_key != key,
        a.len() <= usize::MAX,
        moved_down(a, b, bits, w.cur, slot_index(w.running, bits) as int, moved_slot(a, bits, w)),
        b == split_image(
            a,
            bits,
            w.cur,
            slot_index(w.running, bits) as int,
            moved_slot(a, bits, w),
        ),
    ensures
        walking(
            b,
            bits,
            offsets,
            deepened(
                sh,
                bits,
                w.cur,
                slot_index(w.running, bits) as int,
                a.len() as int,
                here(a, bits, w).string_key,
            ),
            start,
            key,
            Walk { splits: w.splits + 1, fresh: true, ..w },
            at,
            target,
        ),
{
    reveal(walking);
    lemma_fanout(bits);
    let consumed = sh.nodes[w.cur].consumed;
    let s = slot_at(key, consumed, bits);
    let held = cell_of(a, w.cur, s);
    let block = block_size(bits);
    let limit = a.len() as int;
    lemma_table_at(a, limit, bits, offsets, sh, w.cur);
    assert(cell_ok(a, bits, offsets, sh, w.cur, s));
    if sh.nodes[w.cur].members.contains(key) {
        assert(member_ok(a, bits, sh, w.cur, key));
    }
    lemma_agree_step(key, held.string_key, consumed, bits);
    lemma_agree_ends(key, held.string_key);
    assert(consumed + bits < 64);
    lemma_residual_step(held.string_key, consumed, bits);
    lemma_split_ready(a, b, bits, offsets, sh, w.cur, s);
    lemma_split(a, b, limit, bits, offsets, sh, w.cur, s);
    lemma_split_path(a, b, limit, bits, offsets, sh, w.cur, s, w.path, key);
    let n = deepened(sh, bits, w.cur, s, limit, held.string_key);
    assert(n.nodes[w.cur] == sh.nodes[w.cur]);
    assert((31 - w.splits) * block == (31 - (w.splits + 1)) * block + block)
        by (nonlinear_arith);
    lemma_cell_range(bits, w.cur, s);
    assert(Root::at(b) == Root::at(a)) by {
        assert forall|i: int| 0 <= i < ROOT_SIZE implies b[i] == a[i] by {}
    }
    assert(zero_inside(b, 4, 8)) by {
        assert forall|i: int| 4 <= i < 8 implies b[i] == 0 by {
            assert(b[i] == a[i]);
        }
    }
}

/// Writing the string pointer for the key into the empty cell at which the
/// walk stands gives a buffer of sound shape that holds the key.
pub proof fn lemma_walk_place(
    a: Seq<u8>,
    b: Seq<u8>,
    bits: u8,
    offsets: Map<Seq<char>, usize>,
    larger: Map<Seq<char>, usize>,
    sh: Shape,
    start: Seq<u8>,
    key: u64,
    value: Seq<char>,
    w: Walk,
    at: usize,
    target: Seq<u8>,
)
    requires
        walking(a, bits, offsets, sh, start, key, w, at, target),
        here(a, bits, w).spec_type() == Type::Empty,
        same_outside(
            a,
            b,
            cell_offset(w.cur, slot_index(w.running, bits) as int),
            cell_offset(w.cur, slot_index(w.running, bits) as int) + SIZE,
        ),
        b == with_cell(
            a,
            w.cur,
            slot_index(w.running, bits) as int,
            Instance { c_type: 1, index: at, string_key: key },
        ),
        here(b, bits, w).spec_type() == Type::StringPtr,
        here(b, bits, w).string_key == key,
        offsets_kept(offsets, larger),
        larger.contains_key(value),
        larger[value] == here(b, bits, w).index,
    ensures
        b == target,
        shaped(b, b.len() as int, bits, larger, placed(sh, w.path, key, value)),
        Root::at(b) == (Root { htype: 1, root_table_offset: ROOT_SIZE, string_offset: 0 }),
        zero_inside(b, 4, 8),
        b.len() == a.len(),
        ROOT_SIZE < b.len(),
        b.len() <= start.len() + 32 * block_size(bits),
        !sh.entries.contains_key(key),
{
    reveal(walking);
    lemma_fanout(bits);
    let consumed = sh.nodes[w.cur].consumed;
    let s = slot_at(key, consumed, bits);
    let block = block_size(bits);
    lemma_table_at(a, a.len() as int, bits, offsets, sh, w.cur);
    assert(cell_ok(a, bits, offsets, sh, w.cur, s));
    if sh.nodes[w.cur].members.contains(key) {
        assert(member_ok(a, bits, sh, w.cur, key));
    }
    lemma_cell_range(bits, w.cur, s);
    assert(tables_kept(a, b, a.len() as int, cell_offset(w.cur, s)));
    assert(place_pre(
        a,
        b,
        a.len() as int,
        bits,
        offsets,
        larger,
        sh,
        w.path,
        key,
        value,
        w.cur,
        s,
    ));
    lemma_place(a, b, a.len() as int, bits, offsets, larger, sh, w.path, key, value, w.cur, s);
    assert(w.splits <= 31);
    assert((31 - w.splits) * block >= 0) by (nonlinear_arith)
        requires
            w.splits <= 31,
            block >= 0,
    ;
    assert(Root::at(b) == Root::at(a));
}


/// The split that the image of an insert makes is a split as the shape knows it.
pub proof fn lemma_split_image(a: Seq<u8>, bits: u8, cur: int, s: int, slot: int)
    requires
        1 <= bits <= 16,
        0 <= cur,
        cur + block_size(bits) <= a.len() <= usize::MAX,
        0 <= s < fanout(bits),
        0 <= slot < fanout(bits),
    ensures
        moved_down(a, split_image(a, bits, cur, s, slot), bits, cur, s, slot),
{
    lemma_fanout(bits);
    let held = cell_of(a, cur, s);
    let pointer = Instance { c_type: 2, index: a.len() as usize, string_key: 0 };
    let moved = Instance { c_type: 1, index: held.index, string_key: held.string_key };
    let limit = a.len() as int;
    let a1 = a + fresh_table(bits);
    let a2 = with_cell(a1, cur, s, pointer);
    let a3 = with_cell(a2, limit, slot, moved);
    lemma_cell_range(bits, cur, s);
    lemma_cell_range(bits, limit, slot);
    Instance::lemma_bytes(pointer);
    Instance::lemma_bytes(moved);
    crate::codec::lemma_u32_round_trip(2);
    assert(TableHeader::at(a1, limit) == (TableHeader { htype: 2, bits: bits })) by {
        let f = fresh_table(bits);
        let w = crate::codec::le_bytes_u32(2);
        assert(a1[limit] == w[0] && a1[limit + 1] == w[1] && a1[limit + 2] == w[2] && a1[limit
            + 3] == w[3]);
        assert(a1[limit + 8] == bits);
    }
    assert(a2.subrange(cell_offset(cur, s), cell_offset(cur, s) + SIZE) =~= pointer.bytes());
    assert(pointer.bytes().subrange(0, SIZE as int) =~= pointer.bytes());
    Instance::lemma_same_bytes(pointer.bytes(), 0, a2, cell_offset(cur, s));
    assert(a3.subrange(cell_offset(limit, slot), cell_offset(limit, slot) + SIZE)
        =~= moved.bytes());
    assert(moved.bytes().subrange(0, SIZE as int) =~= moved.bytes());
    Instance::lemma_same_bytes(moved.bytes(), 0, a3, cell_offset(limit, slot));
    crate::trie::lemma_moved_down(a, a1, a2, a3, bits, cur, s, slot);
}

/// One insert adds no more than 32 tables: the image of an insert whose
/// walk stands in a buffer of sound shape is no longer than the index
/// with which the insert began and 32 table blocks.
pub proof fn lemma_target_bound(
    b: Seq<u8>,
    bits: u8,
    offsets: Map<Seq<char>, usize>,
    sh: Shape,
    start: Seq<u8>,
    key: u64,
    w: Walk,
    at: usize,
    target: Seq<u8>,
)
    requires
        walking(b, bits, offsets, sh, start, key, w, at, target),
        start.len() + 32 * block_size(bits) <= usize::MAX,
    ensures
        target.len() <= start.len() + 32 * block_size(bits),
    decreases
            2 * w.remaining + (if w.fresh {
                0int
            } else {
                1int
            }),
{
    lemma_walk_here(b, bits, offsets, sh, start, key, w, at, target);
    lemma_fanout(bits);
    assert(target == insert_image(b, bits, key, at, w.cur, w.running, w.remaining)) by {
        reveal(walking);
    }
    let s = slot_index(w.running, bits) as int;
    let c = here(b, bits, w);
    match c.spec_type() {
        Type::Empty => {},
        Type::Unknown => {},
        Type::StringPtr => {
            if c.string_key != key {
                let slot = moved_slot(b, bits, w);
                let next = split_image(b, bits, w.cur, s, slot);
                lemma_split_image(b, bits, w.cur, s, slot);
                lemma_walk_split(b, next, bits, offsets, sh, start, key, w, at, target);
                lemma_target_bound(
                    next,
                    bits,
                    offsets,
                    deepened(sh, bits, w.cur, s, b.len() as int, c.string_key),
                    start,
                    key,
                    Walk { splits: w.splits + 1, fresh: true, ..w },
                    at,
                    target,
                );
            }
        },
        Type::TablePtr => {
            lemma_walk_descend(b, bits, offsets, sh, start, key, w, at, target);
            lemma_target_bound(
                b,
                bits,
                offsets,
                sh,
                start,
                key,
                Walk {
                    path: w.path.insert(c.index as int),
                    cur: c.index as int,
                    running: advance(w.running, bits),
                    remaining: decrement_remaining(w.remaining, bits),
                    splits: w.splits,
                    fresh: false,
                },
                at,
                target,
            );
        },
    }
}

} // verus!
