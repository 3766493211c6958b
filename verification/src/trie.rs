//! What a buffer means: the walk that a lookup makes through it, and the
//! shape that a buffer under construction keeps.

use crate::cell::{Instance, Type, SIZE};
use crate::codec::{same_inside, same_outside, zero_inside};
use crate::header::{
    advance, block_size, cell_offset, decrement_remaining, fanout, lemma_fanout, slot_index,
    table_at, Root, TableHeader, KEY_BITS, MAX_BITS, ROOT_SIZE, TABLE_HEADER_SIZE,
};
use crate::string_slice::{c_str, entry, has_nul, holds_at, lemma_held_c_str, nul_pos};
use vstd::prelude::*;

verus! {

/// What a lookup comes to.
pub enum Found {
    /// The buffer is not one that a builder made: the walk met a record that
    /// is out of range or has an unknown tag.
    Corrupt,
    /// The key is not in the buffer.
    Miss,
    /// The key is in the buffer, with these bytes as its string.
    Hit(Seq<u8>),
}

/// The walk of a lookup for `key` from the table at `table` on, with
/// `running` left of the key and `remaining` bits of it not yet consumed.
/// `strings` is where the strings start.
pub open spec fn walk(
    b: Seq<u8>,
    key: u64,
    table: int,
    running: u64,
    remaining: int,
    strings: int,
) -> Found
    decreases remaining,
{
    if remaining <= 0 {
        Found::Miss
    } else if !table_at(b, table) {
        Found::Corrupt
    } else {
        let bits = b[table + 8];
        let c = Instance::at(b, cell_offset(table, slot_index(running, bits) as int));
        match c.spec_type() {
            Type::Empty => Found::Miss,
            Type::Unknown => Found::Corrupt,
            Type::StringPtr => if c.string_key != key {
                Found::Miss
            } else if has_nul(b, strings + c.index) {
                Found::Hit(c_str(b, strings + c.index))
            } else {
                Found::Corrupt
            },
            Type::TablePtr => walk(
                b,
                key,
                c.index as int,
                advance(running, bits),
                decrement_remaining(remaining, bits),
                strings,
            ),
        }
    }
}

/// What a lookup for `key` comes to in the buffer `b`.
pub open spec fn lookup(b: Seq<u8>, key: u64) -> Found {
    if b.len() < ROOT_SIZE || Root::at(b).htype != 1 {
        Found::Corrupt
    } else if Root::at(b).root_table_offset == 0 {
        Found::Miss
    } else {
        walk(
            b,
            key,
            Root::at(b).root_table_offset as int,
            key,
            KEY_BITS as int,
            Root::at(b).string_offset as int,
        )
    }
}

/// The string that a lookup finds holds no zero byte.
pub proof fn lemma_hit_plain(b: Seq<u8>, key: u64)
    ensures
        lookup(b, key) matches Found::Hit(s) ==> forall|i: int| 0 <= i < s.len() ==> s[i] != 0,
{
    if b.len() >= ROOT_SIZE && Root::at(b).htype == 1 && Root::at(b).root_table_offset != 0 {
        lemma_walk_plain(
            b,
            key,
            Root::at(b).root_table_offset as int,
            key,
            KEY_BITS as int,
            Root::at(b).string_offset as int,
        );
    }
}

/// The string that a walk finds holds no zero byte.
pub proof fn lemma_walk_plain(
    b: Seq<u8>,
    key: u64,
    table: int,
    running: u64,
    remaining: int,
    strings: int,
)
    ensures
        walk(b, key, table, running, remaining, strings) matches Found::Hit(s) ==> forall|i: int|
            0 <= i < s.len() ==> s[i] != 0,
    decreases remaining,
{
    if remaining > 0 && table_at(b, table) {
        let bits = b[table + 8];
        let c = Instance::at(b, cell_offset(table, slot_index(running, bits) as int));
        if c.spec_type() == Type::TablePtr {
            lemma_walk_plain(
                b,
                key,
                c.index as int,
                advance(running, bits),
                decrement_remaining(remaining, bits),
                strings,
            );
        } else if c.spec_type() == Type::StringPtr && c.string_key == key && has_nul(
            b,
            strings + c.index,
        ) {
            let start = strings + c.index;
            let end = nul_pos(b, start);
            assert(crate::string_slice::nul_at(b, start, end));
            let s = c_str(b, start);
            assert forall|i: int| 0 <= i < s.len() implies s[i] != 0 by {
                assert(s[i] == b[start + i]);
            }
        }
    }
}

/// What a lookup for `key` must come to in a buffer that stands for `entries`.
pub open spec fn expected(entries: Map<u64, Seq<char>>, key: u64) -> Found {
    if entries.contains_key(key) {
        Found::Hit(c_str(entry(entries[key]), 0))
    } else {
        Found::Miss
    }
}

/// The buffer `b` stands for `entries`: every lookup comes to what they say.
pub open spec fn represents(b: Seq<u8>, entries: Map<u64, Seq<char>>) -> bool {
    forall|key: u64| #[trigger] lookup(b, key) == expected(entries, key)
}

/// What is left of `key` once its low `consumed` bits are gone.
pub open spec fn residual(key: u64, consumed: int) -> u64 {
    key >> (consumed as u64)
}

/// The number of the cell that `key` selects in a table that stands below
/// `consumed` bits of it.
pub open spec fn slot_at(key: u64, consumed: int, bits: u8) -> int {
    slot_index(residual(key, consumed), bits) as int
}

/// The bit mask of the low `n` bits.
pub open spec fn low_mask(n: u64) -> u64 {
    if n >= 64 {
        0xffff_ffff_ffff_ffffu64
    } else {
        !(0xffff_ffff_ffff_ffffu64 << n)
    }
}

/// `a` and `b` have the same low `n` bits.
pub open spec fn agree(a: u64, b: u64, n: int) -> bool {
    a & low_mask(n as u64) == b & low_mask(n as u64)
}

/// Any two keys have the same low zero bits; keys with the same low 64 bits are one.
pub proof fn lemma_agree_ends(a: u64, b: u64)
    ensures
        agree(a, b, 0),
        forall|n: int| 64 <= n <= 128 && #[trigger] agree(a, b, n) ==> a == b,
{
    assert(a & !(0xffff_ffff_ffff_ffffu64 << 0u64) == b & !(0xffff_ffff_ffff_ffffu64 << 0u64))
        by (bit_vector);
    assert(a & 0xffff_ffff_ffff_ffffu64 == b & 0xffff_ffff_ffff_ffffu64 ==> a == b)
        by (bit_vector);
}

/// Keys with the same low `n` bits that select the same cell below them
/// have the same low `n + bits` bits.
pub proof fn lemma_agree_step(a: u64, b: u64, n: int, bits: u8)
    requires
        0 <= n < 64,
        1 <= bits <= MAX_BITS,
        agree(a, b, n),
        slot_at(a, n, bits) == slot_at(b, n, bits),
    ensures
        agree(a, b, n + bits),
{
    let m = n as u64;
    let w = bits as u64;
    assert(slot_index(residual(a, n), bits) == slot_index(residual(b, n), bits));
    assert((a & low_mask(m) == b & low_mask(m) && ((a >> m) & (((1u64 << w) - 1) as u64)) == ((b
        >> m) & (((1u64 << w) - 1) as u64))) ==> (a & low_mask((m + w) as u64) == b & low_mask(
        (m + w) as u64,
    ))) by (bit_vector)
        requires
            m < 64,
            1 <= w <= 16,
    ;
}

/// Consuming `n` bits and then `bits` more leaves what consuming them at once leaves.
pub proof fn lemma_residual_step(key: u64, n: int, bits: u8)
    requires
        0 <= n,
        1 <= bits <= MAX_BITS,
        n + bits < 64,
    ensures
        advance(residual(key, n), bits) == residual(key, n + bits),
        residual(key, 0) == key,
{
    let m = n as u64;
    let w = bits as u64;
    let part = key >> m;
    vstd::bits::lemma_u64_shr_is_div(key, m);
    vstd::bits::lemma_u64_shr_is_div(part, w);
    vstd::bits::lemma_u64_shr_is_div(key, (m + w) as u64);
    vstd::arithmetic::power2::lemma_pow2_pos(m as nat);
    vstd::arithmetic::power2::lemma_pow2_pos(w as nat);
    vstd::arithmetic::power2::lemma_pow2_adds(m as nat, w as nat);
    vstd::arithmetic::div_mod::lemma_div_denominator(
        key as int,
        vstd::arithmetic::power2::pow2(m as nat) as int,
        vstd::arithmetic::power2::pow2(w as nat) as int,
    );
    assert(key >> 0u64 == key) by (bit_vector);
}


/// What is known of one table of a buffer under construction.
pub ghost struct Node {
    /// The number of key bits that the walk has consumed when it enters the table.
    pub consumed: int,
    /// The keys whose strings stand in this table or below it.
    pub members: Set<u64>,
    /// The table whose cell points to this one.
    pub parent: int,
    /// The number of that cell.
    pub slot: int,
}

/// What a buffer under construction stands for, and how its tables hang together.
pub ghost struct Shape {
    /// The strings that were inserted, by their keys.
    pub entries: Map<u64, Seq<char>>,
    /// The tables, by the offsets at which they start.
    pub nodes: Map<int, Node>,
}

/// Cell number `s` of the table block at `t`.
pub open spec fn cell_of(b: Seq<u8>, t: int, s: int) -> Instance {
    Instance::at(b, cell_offset(t, s))
}

/// The table at `t` lies within the index, has a sound header with zero
/// padding, and follows another table or the root header.
pub open spec fn table_ok(b: Seq<u8>, limit: int, bits: u8, sh: Shape, t: int) -> bool {
    &&& ROOT_SIZE <= t
    &&& t + block_size(bits) <= limit
    &&& TableHeader::at(b, t) == (TableHeader { htype: 2, bits: bits })
    &&& zero_inside(b, t + 4, t + 8)
    &&& zero_inside(b, t + 9, t + TABLE_HEADER_SIZE)
    &&& 0 <= sh.nodes[t].consumed < 64
    &&& (t == ROOT_SIZE || sh.nodes.contains_key(t - block_size(bits)))
    &&& (t == ROOT_SIZE ==> sh.nodes[t].consumed == 0 && sh.nodes[t].members
        == sh.entries.dom())
}

/// The table blocks at `t1` and `t2` are one, or do not overlap.
pub open spec fn apart(bits: u8, t1: int, t2: int) -> bool {
    t1 == t2 || t1 + block_size(bits) <= t2 || t2 + block_size(bits) <= t1
}

/// The cell is empty and zero throughout, or points to the string of a
/// member that belongs in it, or points to a later table that hangs on it.
pub open spec fn cell_ok(
    b: Seq<u8>,
    bits: u8,
    offsets: Map<Seq<char>, usize>,
    sh: Shape,
    t: int,
    s: int,
) -> bool {
    let c = cell_of(b, t, s);
    match c.spec_type() {
        Type::Empty => zero_inside(b, cell_offset(t, s), cell_offset(t, s) + SIZE),
        Type::Unknown => false,
        Type::StringPtr => {
            &&& sh.entries.contains_key(c.string_key)
            &&& sh.nodes[t].members.contains(c.string_key)
            &&& slot_at(c.string_key, sh.nodes[t].consumed, bits) == s
            &&& offsets.contains_key(sh.entries[c.string_key])
            &&& offsets[sh.entries[c.string_key]] == c.index
        },
        Type::TablePtr => {
            &&& zero_inside(b, cell_offset(t, s) + 9, cell_offset(t, s) + SIZE)
            &&& sh.nodes.contains_key(c.index as int)
            &&& c.index > t
            &&& sh.nodes[c.index as int].consumed == sh.nodes[t].consumed + bits
            &&& sh.nodes[c.index as int].parent == t
            &&& sh.nodes[c.index as int].slot == s
        },
    }
}

/// The member `k` of the table at `t` is found in the cell that it selects,
/// or below the table to which that cell points.
pub open spec fn member_ok(b: Seq<u8>, bits: u8, sh: Shape, t: int, k: u64) -> bool {
    let c = cell_of(b, t, slot_at(k, sh.nodes[t].consumed, bits));
    &&& sh.entries.contains_key(k)
    &&& match c.spec_type() {
        Type::StringPtr => c.string_key == k,
        Type::TablePtr => sh.nodes.contains_key(c.index as int) && sh.nodes[c.index
            as int].members.contains(k),
        _ => false,
    }
}

/// The table at `c` hangs on a cell of its parent, and each of its members
/// is a member of the parent that selects that cell.
pub open spec fn child_ok(b: Seq<u8>, bits: u8, sh: Shape, c: int) -> bool {
    let p = sh.nodes[c].parent;
    let s = sh.nodes[c].slot;
    &&& sh.nodes.contains_key(p)
    &&& 0 <= s < fanout(bits)
    &&& cell_of(b, p, s).spec_type() == Type::TablePtr
    &&& cell_of(b, p, s).index == c
    &&& forall|k: u64| #[trigger]
        sh.nodes[c].members.contains(k) ==> sh.nodes[p].members.contains(k) && slot_at(
            k,
            sh.nodes[p].consumed,
            bits,
        ) == s
}

/// The tables of `b`, which end at `limit`, have the shape `sh`.
pub open spec fn shaped(
    b: Seq<u8>,
    limit: int,
    bits: u8,
    offsets: Map<Seq<char>, usize>,
    sh: Shape,
) -> bool {
    &&& 1 <= bits <= MAX_BITS
    &&& ROOT_SIZE <= limit <= b.len()
    &&& (limit == ROOT_SIZE || sh.nodes.contains_key(limit - block_size(bits)))
    &&& (limit == ROOT_SIZE ==> sh.entries == Map::<u64, Seq<char>>::empty())
    &&& (limit > ROOT_SIZE ==> sh.nodes.contains_key(ROOT_SIZE as int))
    &&& forall|t: int| sh.nodes.contains_key(t) ==> #[trigger] table_ok(b, limit, bits, sh, t)
    &&& forall|t1: int, t2: int|
        sh.nodes.contains_key(t1) && sh.nodes.contains_key(t2) ==> #[trigger] apart(bits, t1, t2)
    &&& forall|t: int, s: int|
        sh.nodes.contains_key(t) && 0 <= s < fanout(bits) ==> #[trigger] cell_ok(
            b,
            bits,
            offsets,
            sh,
            t,
            s,
        )
    &&& forall|t: int, k: u64|
        sh.nodes.contains_key(t) && sh.nodes[t].members.contains(k) ==> #[trigger] member_ok(
            b,
            bits,
            sh,
            t,
            k,
        )
    &&& forall|c: int|
        sh.nodes.contains_key(c) && c != ROOT_SIZE ==> #[trigger] child_ok(b, bits, sh, c)
}

/// Every interned string stands in `b` where its offset says, counted from `strings`.
pub open spec fn strings_held(b: Seq<u8>, strings: int, offsets: Map<Seq<char>, usize>) -> bool {
    forall|v: Seq<char>| #[trigger]
        offsets.contains_key(v) ==> holds_at(b, strings + offsets[v], v)
}

/// In a buffer of sound shape, the walk from a table that the key has
/// reached comes to what the entries say.
pub proof fn lemma_walk(
    b: Seq<u8>,
    limit: int,
    bits: u8,
    offsets: Map<Seq<char>, usize>,
    sh: Shape,
    strings: int,
    key: u64,
    t: int,
)
    requires
        shaped(b, limit, bits, offsets, sh),
        strings_held(b, strings, offsets),
        sh.nodes.contains_key(t),
        sh.entries.contains_key(key) <==> sh.nodes[t].members.contains(key),
    ensures
        walk(
            b,
            key,
            t,
            residual(key, sh.nodes[t].consumed),
            KEY_BITS - sh.nodes[t].consumed,
            strings,
        ) == expected(sh.entries, key),
    decreases KEY_BITS - sh.nodes[t].consumed,
{
    let node = sh.nodes[t];
    let running = residual(key, node.consumed);
    let remaining = KEY_BITS - node.consumed;
    lemma_fanout(bits);
    assert(table_ok(b, limit, bits, sh, t));
    assert(table_at(b, t));
    let s = slot_at(key, node.consumed, bits);
    assert(s == slot_index(running, bits) as int);
    let c = cell_of(b, t, s);
    assert(cell_ok(b, bits, offsets, sh, t, s));
    if sh.nodes[t].members.contains(key) {
        assert(member_ok(b, bits, sh, t, key));
    }
    match c.spec_type() {
        Type::Empty => {},
        Type::Unknown => {},
        Type::StringPtr => {
            if c.string_key == key {
                let v = sh.entries[key];
                assert(holds_at(b, strings + offsets[v], v));
                lemma_held_c_str(b, strings + offsets[v], v);
            }
        },
        Type::TablePtr => {
            let next = c.index as int;
            assert(table_ok(b, limit, bits, sh, next));
            assert(child_ok(b, bits, sh, next));
            lemma_residual_step(key, node.consumed, bits);
            lemma_walk(b, limit, bits, offsets, sh, strings, key, next);
        },
    }
}

/// A buffer of sound shape whose root header points to the first table and
/// to the strings stands for the entries of that shape.
pub proof fn lemma_represents(
    b: Seq<u8>,
    limit: int,
    bits: u8,
    offsets: Map<Seq<char>, usize>,
    sh: Shape,
)
    requires
        shaped(b, limit, bits, offsets, sh),
        Root::at(b).htype == 1,
        limit == ROOT_SIZE ==> Root::at(b).root_table_offset == 0,
        limit > ROOT_SIZE ==> Root::at(b).root_table_offset == ROOT_SIZE && strings_held(
            b,
            Root::at(b).string_offset as int,
            offsets,
        ),
    ensures
        represents(b, sh.entries),
{
    assert forall|key: u64| #[trigger] lookup(b, key) == expected(sh.entries, key) by {
        if limit > ROOT_SIZE {
            assert(table_ok(b, limit, bits, sh, ROOT_SIZE as int));
            lemma_residual_step(key, 0, bits);
            lemma_walk(
                b,
                limit,
                bits,
                offsets,
                sh,
                Root::at(b).string_offset as int,
                key,
                ROOT_SIZE as int,
            );
        }
    }
}


/// Every offset of `small` is an offset of `large`.
pub open spec fn offsets_kept(small: Map<Seq<char>, usize>, large: Map<Seq<char>, usize>) -> bool {
    forall|v: Seq<char>| #[trigger]
        small.contains_key(v) ==> large.contains_key(v) && large[v] == small[v]
}

/// Two buffers that hold the same bytes where a cell stands hold the same cell.
pub proof fn lemma_cell_same(a: Seq<u8>, b: Seq<u8>, t: int, s: int)
    requires
        0 <= cell_offset(t, s),
        cell_offset(t, s) + SIZE <= a.len(),
        cell_offset(t, s) + SIZE <= b.len(),
        same_inside(a, b, cell_offset(t, s), cell_offset(t, s) + SIZE),
    ensures
        cell_of(a, t, s) == cell_of(b, t, s),
{
    let off = cell_offset(t, s);
    assert(a.subrange(off, off + SIZE) =~= b.subrange(off, off + SIZE));
    Instance::lemma_same_bytes(a, off, b, off);
}

/// The cells of a table lie inside its block.
pub proof fn lemma_cell_range(bits: u8, t: int, s: int)
    requires
        bits <= MAX_BITS,
        0 <= s < fanout(bits),
    ensures
        t + TABLE_HEADER_SIZE <= cell_offset(t, s),
        cell_offset(t, s) + SIZE <= t + block_size(bits),
{
    lemma_fanout(bits);
    assert(SIZE * s + SIZE <= SIZE * fanout(bits)) by (nonlinear_arith)
        requires
            0 <= s < fanout(bits),
    ;
}

/// Two cells that differ in their table or in their number do not overlap.
pub proof fn lemma_cells_apart(bits: u8, t1: int, s1: int, t2: int, s2: int)
    requires
        bits <= MAX_BITS,
        0 <= s1 < fanout(bits),
        0 <= s2 < fanout(bits),
        t1 == t2 || t1 + block_size(bits) <= t2 || t2 + block_size(bits) <= t1,
        t1 != t2 || s1 != s2,
    ensures
        cell_offset(t1, s1) + SIZE <= cell_offset(t2, s2) || cell_offset(t2, s2) + SIZE
            <= cell_offset(t1, s1),
{
    lemma_cell_range(bits, t1, s1);
    lemma_cell_range(bits, t2, s2);
}

/// The shape of the tables depends on nothing but the bytes of the tables,
/// and stays when the pool gains strings.
pub proof fn lemma_shape_frame(
    a: Seq<u8>,
    b: Seq<u8>,
    limit: int,
    bits: u8,
    offsets: Map<Seq<char>, usize>,
    larger: Map<Seq<char>, usize>,
    sh: Shape,
)
    requires
        shaped(a, limit, bits, offsets, sh),
        limit <= b.len(),
        same_inside(a, b, ROOT_SIZE as int, limit),
        offsets_kept(offsets, larger),
    ensures
        shaped(b, limit, bits, larger, sh),
{
    lemma_fanout(bits);
    assert forall|t: int, s: int| sh.nodes.contains_key(t) && 0 <= s < fanout(bits) implies cell_of(
        a,
        t,
        s,
    ) == #[trigger] cell_of(b, t, s) by {
        assert(table_ok(a, limit, bits, sh, t));
        lemma_cell_range(bits, t, s);
        lemma_cell_same(a, b, t, s);
    }
    assert forall|t: int| sh.nodes.contains_key(t) implies #[trigger] table_ok(
        b,
        limit,
        bits,
        sh,
        t,
    ) by {
        assert(table_ok(a, limit, bits, sh, t));
    }
    assert forall|t: int, s: int|
        sh.nodes.contains_key(t) && 0 <= s < fanout(bits) implies #[trigger] cell_ok(
        b,
        bits,
        larger,
        sh,
        t,
        s,
    ) by {
        assert(table_ok(a, limit, bits, sh, t));
        assert(cell_ok(a, bits, offsets, sh, t, s));
        lemma_cell_range(bits, t, s);
        assert(cell_of(a, t, s) == cell_of(b, t, s));
    }
    assert forall|t: int, k: u64|
        sh.nodes.contains_key(t) && sh.nodes[t].members.contains(k) implies #[trigger] member_ok(
        b,
        bits,
        sh,
        t,
        k,
    ) by {
        assert(table_ok(a, limit, bits, sh, t));
        assert(member_ok(a, bits, sh, t, k));
        let s = slot_at(k, sh.nodes[t].consumed, bits);
        assert(cell_of(a, t, s) == cell_of(b, t, s));
    }
    assert forall|c: int| sh.nodes.contains_key(c) && c != ROOT_SIZE implies #[trigger] child_ok(
        b,
        bits,
        sh,
        c,
    ) by {
        assert(child_ok(a, bits, sh, c));
        let p = sh.nodes[c].parent;
        let s = sh.nodes[c].slot;
        assert(cell_of(a, p, s) == cell_of(b, p, s));
    }
}


/// The table at `p`, which the walk for `key` has entered, hangs on the
/// cell that the key selects in its parent, which the walk has entered too.
pub open spec fn path_link(bits: u8, sh: Shape, path: Set<int>, key: u64, p: int) -> bool {
    &&& path.contains(sh.nodes[p].parent)
    &&& sh.nodes[p].slot == slot_at(key, sh.nodes[sh.nodes[p].parent].consumed, bits)
}

/// The walk for `key` has left the table at `p` through a cell that points
/// to a table which it has entered.
pub open spec fn path_next(
    b: Seq<u8>,
    bits: u8,
    sh: Shape,
    path: Set<int>,
    key: u64,
    p: int,
) -> bool {
    let c = cell_of(b, p, slot_at(key, sh.nodes[p].consumed, bits));
    c.spec_type() == Type::TablePtr && path.contains(c.index as int)
}

/// `path` holds the tables through which the walk for `key` has come from
/// the first table to the one at `cur`.
pub open spec fn on_path(
    b: Seq<u8>,
    bits: u8,
    sh: Shape,
    path: Set<int>,
    key: u64,
    cur: int,
) -> bool {
    &&& path.contains(ROOT_SIZE as int)
    &&& path.contains(cur)
    &&& forall|p: int| #[trigger] path.contains(p) ==> sh.nodes.contains_key(p) && p <= cur
    &&& forall|p: int|
        path.contains(p) && p != ROOT_SIZE ==> #[trigger] path_link(bits, sh, path, key, p)
    &&& forall|p: int|
        path.contains(p) && p != cur ==> #[trigger] path_next(b, bits, sh, path, key, p)
}

/// The shape after `key` went, with `value`, into a cell of the last table of `path`.
pub open spec fn placed(sh: Shape, path: Set<int>, key: u64, value: Seq<char>) -> Shape {
    Shape {
        entries: sh.entries.insert(key, value),
        nodes: Map::new(
            |t: int| sh.nodes.contains_key(t),
            |t: int|
                if path.contains(t) {
                    Node { members: sh.nodes[t].members.insert(key), ..sh.nodes[t] }
                } else {
                    sh.nodes[t]
                },
        ),
    }
}

/// The shape after the string of `moved` left cell `s` of the table at `cur`
/// for a new table at `at`.
pub open spec fn deepened(sh: Shape, bits: u8, cur: int, s: int, at: int, moved: u64) -> Shape {
    Shape {
        entries: sh.entries,
        nodes: sh.nodes.insert(
            at,
            Node {
                consumed: sh.nodes[cur].consumed + bits,
                members: Set::<u64>::empty().insert(moved),
                parent: cur,
                slot: s,
            },
        ),
    }
}

/// The shape of a buffer with one table and no entry.
pub open spec fn rooted(sh: Shape) -> Shape {
    Shape {
        entries: sh.entries,
        nodes: Map::<int, Node>::empty().insert(
            ROOT_SIZE as int,
            Node { consumed: 0, members: sh.entries.dom(), parent: 0, slot: 0 },
        ),
    }
}

/// A block of zero bytes with a table header is a table of empty cells.
pub proof fn lemma_fresh_table(b: Seq<u8>, bits: u8, t: int, s: int)
    requires
        1 <= bits <= MAX_BITS,
        0 <= t,
        t + block_size(bits) <= b.len(),
        zero_inside(b, t + 9, t + block_size(bits)),
        0 <= s < fanout(bits),
    ensures
        cell_of(b, t, s) == Instance::vacant(),
        zero_inside(b, cell_offset(t, s), cell_offset(t, s) + SIZE),
{
    lemma_cell_range(bits, t, s);
    Instance::lemma_vacant(b, cell_offset(t, s));
}

/// Appending the first table to a buffer that holds the root header alone
/// gives a buffer of sound shape.
pub proof fn lemma_first_table(
    a: Seq<u8>,
    b: Seq<u8>,
    bits: u8,
    offsets: Map<Seq<char>, usize>,
    sh: Shape,
)
    requires
        shaped(a, ROOT_SIZE as int, bits, offsets, sh),
        b.len() >= ROOT_SIZE + block_size(bits),
        TableHeader::at(b, ROOT_SIZE as int) == (TableHeader { htype: 2, bits: bits }),
        zero_inside(b, ROOT_SIZE + 4, ROOT_SIZE + 8),
        zero_inside(b, ROOT_SIZE + 9, ROOT_SIZE + block_size(bits)),
    ensures
        shaped(b, ROOT_SIZE + block_size(bits), bits, offsets, rooted(sh)),
{
    lemma_fanout(bits);
    let r = rooted(sh);
    let limit = ROOT_SIZE + block_size(bits);
    assert(r.nodes.contains_key(ROOT_SIZE as int));
    assert(sh.entries.dom() =~= Set::<u64>::empty());
    assert forall|t: int| r.nodes.contains_key(t) implies #[trigger] table_ok(
        b,
        limit,
        bits,
        r,
        t,
    ) by {}
    assert forall|t: int, s: int|
        r.nodes.contains_key(t) && 0 <= s < fanout(bits) implies #[trigger] cell_ok(
        b,
        bits,
        offsets,
        r,
        t,
        s,
    ) by {
        lemma_fresh_table(b, bits, t, s);
    }
}


/// `a` and `b` hold the same bytes in the tables below `limit`, but for the
/// seventeen bytes from `off` on.
pub open spec fn tables_kept(a: Seq<u8>, b: Seq<u8>, limit: int, off: int) -> bool {
    forall|i: int| ROOT_SIZE <= i < limit && !(off <= i < off + SIZE) ==> a[i] == b[i]
}

/// A cell other than the one that was written holds what it held.
pub proof fn lemma_other_cell(
    a: Seq<u8>,
    b: Seq<u8>,
    limit: int,
    bits: u8,
    sh: Shape,
    cur: int,
    s: int,
    t: int,
    s2: int,
)
    requires
        1 <= bits <= MAX_BITS,
        limit <= a.len(),
        limit <= b.len(),
        sh.nodes.contains_key(cur),
        sh.nodes.contains_key(t),
        table_ok(a, limit, bits, sh, cur),
        table_ok(a, limit, bits, sh, t),
        apart(bits, cur, t),
        0 <= s < fanout(bits),
        0 <= s2 < fanout(bits),
        t != cur || s2 != s,
        tables_kept(a, b, limit, cell_offset(cur, s)),
    ensures
        cell_of(a, t, s2) == cell_of(b, t, s2),
        zero_inside(a, cell_offset(t, s2), cell_offset(t, s2) + SIZE) ==> zero_inside(
            b,
            cell_offset(t, s2),
            cell_offset(t, s2) + SIZE,
        ),
        zero_inside(a, cell_offset(t, s2) + 9, cell_offset(t, s2) + SIZE) ==> zero_inside(
            b,
            cell_offset(t, s2) + 9,
            cell_offset(t, s2) + SIZE,
        ),
{
    lemma_cells_apart(bits, cur, s, t, s2);
    lemma_cell_range(bits, t, s2);
    lemma_cell_range(bits, cur, s);
    lemma_cell_same(a, b, t, s2);
}

/// The header of a table holds what it held when a cell was written.
pub proof fn lemma_header_kept(
    a: Seq<u8>,
    b: Seq<u8>,
    limit: int,
    bits: u8,
    sh: Shape,
    cur: int,
    s: int,
    t: int,
)
    requires
        1 <= bits <= MAX_BITS,
        limit <= a.len(),
        limit <= b.len(),
        table_ok(a, limit, bits, sh, cur),
        table_ok(a, limit, bits, sh, t),
        apart(bits, cur, t),
        0 <= s < fanout(bits),
        tables_kept(a, b, limit, cell_offset(cur, s)),
    ensures
        TableHeader::at(b, t) == TableHeader::at(a, t),
        zero_inside(b, t + 4, t + 8),
        zero_inside(b, t + 9, t + TABLE_HEADER_SIZE),
{
    lemma_cell_range(bits, cur, s);
    lemma_fanout(bits);
    assert(same_inside(a, b, t, t + TABLE_HEADER_SIZE));
}

/// What holds when a string pointer for a new key was written into the
/// empty cell that the walk for the key has reached.
pub open spec fn place_pre(
    a: Seq<u8>,
    b: Seq<u8>,
    limit: int,
    bits: u8,
    offsets: Map<Seq<char>, usize>,
    larger: Map<Seq<char>, usize>,
    sh: Shape,
    path: Set<int>,
    key: u64,
    value: Seq<char>,
    cur: int,
    s: int,
) -> bool {
    &&& shaped(a, limit, bits, offsets, sh)
    &&& on_path(a, bits, sh, path, key, cur)
    &&& !sh.entries.contains_key(key)
    &&& s == slot_at(key, sh.nodes[cur].consumed, bits)
    &&& cell_of(a, cur, s).spec_type() == Type::Empty
    &&& limit <= b.len()
    &&& tables_kept(a, b, limit, cell_offset(cur, s))
    &&& cell_of(b, cur, s).spec_type() == Type::StringPtr
    &&& cell_of(b, cur, s).string_key == key
    &&& offsets_kept(offsets, larger)
    &&& larger.contains_key(value)
    &&& larger[value] == cell_of(b, cur, s).index
}

proof fn lemma_place_tables(
    a: Seq<u8>,
    b: Seq<u8>,
    limit: int,
    bits: u8,
    offsets: Map<Seq<char>, usize>,
    larger: Map<Seq<char>, usize>,
    sh: Shape,
    path: Set<int>,
    key: u64,
    value: Seq<char>,
    cur: int,
    s: int,
    t: int,
)
    requires
        place_pre(a, b, limit, bits, offsets, larger, sh, path, key, value, cur, s),
        sh.nodes.contains_key(t),
    ensures
        table_ok(b, limit, bits, placed(sh, path, key, value), t),
{
    lemma_fanout(bits);
    let n = placed(sh, path, key, value);
    assert(sh.nodes.contains_key(cur));
    assert(table_ok(a, limit, bits, sh, cur));
    assert(table_ok(a, limit, bits, sh, t));
    assert(apart(bits, cur, t));
    lemma_header_kept(a, b, limit, bits, sh, cur, s, t);
    if t == ROOT_SIZE {
        assert(n.nodes[t].members =~= n.entries.dom());
    }
    if t != ROOT_SIZE {
        assert(table_ok(a, limit, bits, sh, t - block_size(bits)));
    }
}

#[verifier::rlimit(40)]
proof fn lemma_place_cells(
    a: Seq<u8>,
    b: Seq<u8>,
    limit: int,
    bits: u8,
    offsets: Map<Seq<char>, usize>,
    larger: Map<Seq<char>, usize>,
    sh: Shape,
    path: Set<int>,
    key: u64,
    value: Seq<char>,
    cur: int,
    s: int,
    t: int,
    s2: int,
)
    requires
        place_pre(a, b, limit, bits, offsets, larger, sh, path, key, value, cur, s),
        sh.nodes.contains_key(t),
        0 <= s2 < fanout(bits),
    ensures
        cell_ok(b, bits, larger, placed(sh, path, key, value), t, s2),
{
    lemma_fanout(bits);
    let n = placed(sh, path, key, value);
    assert(sh.nodes.contains_key(cur));
    assert(table_ok(a, limit, bits, sh, cur));
    assert(table_ok(a, limit, bits, sh, t));
    assert(apart(bits, cur, t));
    assert(cell_ok(a, bits, offsets, sh, t, s2));
    if t != cur || s2 != s {
        lemma_other_cell(a, b, limit, bits, sh, cur, s, t, s2);
        let c = cell_of(a, t, s2);
        if c.spec_type() == Type::StringPtr {
            assert(c.string_key != key);
            assert(offsets.contains_key(sh.entries[c.string_key]));
        }
        if c.spec_type() == Type::TablePtr {
            assert(sh.nodes.contains_key(c.index as int));
        }
    }
}

#[verifier::rlimit(40)]
proof fn lemma_place_members(
    a: Seq<u8>,
    b: Seq<u8>,
    limit: int,
    bits: u8,
    offsets: Map<Seq<char>, usize>,
    larger: Map<Seq<char>, usize>,
    sh: Shape,
    path: Set<int>,
    key: u64,
    value: Seq<char>,
    cur: int,
    s: int,
    t: int,
    k: u64,
)
    requires
        place_pre(a, b, limit, bits, offsets, larger, sh, path, key, value, cur, s),
        sh.nodes.contains_key(t),
        placed(sh, path, key, value).nodes[t].members.contains(k),
    ensures
        member_ok(b, bits, placed(sh, path, key, value), t, k),
{
    lemma_fanout(bits);
    let n = placed(sh, path, key, value);
    assert(sh.nodes.contains_key(cur));
    assert(table_ok(a, limit, bits, sh, cur));
    assert(table_ok(a, limit, bits, sh, t));
    assert(apart(bits, cur, t));
    let s2 = slot_at(k, sh.nodes[t].consumed, bits);
    if sh.nodes[t].members.contains(k) {
        assert(member_ok(a, bits, sh, t, k));
        assert(t != cur || s2 != s);
        lemma_other_cell(a, b, limit, bits, sh, cur, s, t, s2);
        let c = cell_of(a, t, s2);
        if c.spec_type() == Type::TablePtr {
            assert(sh.nodes.contains_key(c.index as int));
        }
    } else {
        assert(k == key && path.contains(t));
        if t != cur {
            lemma_other_cell(a, b, limit, bits, sh, cur, s, t, s2);
            let c = cell_of(a, t, s2);
            assert(path_next(a, bits, sh, path, key, t));
            assert(c.spec_type() == Type::TablePtr && path.contains(c.index as int));
            assert(sh.nodes.contains_key(c.index as int));
        }
    }
}

proof fn lemma_place_children(
    a: Seq<u8>,
    b: Seq<u8>,
    limit: int,
    bits: u8,
    offsets: Map<Seq<char>, usize>,
    larger: Map<Seq<char>, usize>,
    sh: Shape,
    path: Set<int>,
    key: u64,
    value: Seq<char>,
    cur: int,
    s: int,
    c: int,
)
    requires
        place_pre(a, b, limit, bits, offsets, larger, sh, path, key, value, cur, s),
        sh.nodes.contains_key(c),
        c != ROOT_SIZE,
    ensures
        child_ok(b, bits, placed(sh, path, key, value), c),
{
    lemma_fanout(bits);
    let n = placed(sh, path, key, value);
    assert(sh.nodes.contains_key(cur));
    assert(table_ok(a, limit, bits, sh, cur));
    assert(child_ok(a, bits, sh, c));
    let p = sh.nodes[c].parent;
    let sl = sh.nodes[c].slot;
    assert(table_ok(a, limit, bits, sh, p));
    assert(apart(bits, cur, p));
    lemma_other_cell(a, b, limit, bits, sh, cur, s, p, sl);
    assert forall|k: u64| #[trigger] n.nodes[c].members.contains(k)
        implies n.nodes[p].members.contains(k) && slot_at(k, n.nodes[p].consumed, bits)
        == sl by {
        if !sh.nodes[c].members.contains(k) {
            assert(path.contains(c));
            assert(path_link(bits, sh, path, key, c));
        }
    }
}

/// Writing a string pointer for a new key into the empty cell that its walk
/// has reached keeps the shape sound, with the key among the entries.
pub proof fn lemma_place(
    a: Seq<u8>,
    b: Seq<u8>,
    limit: int,
    bits: u8,
    offsets: Map<Seq<char>, usize>,
    larger: Map<Seq<char>, usize>,
    sh: Shape,
    path: Set<int>,
    key: u64,
    value: Seq<char>,
    cur: int,
    s: int,
)
    requires
        place_pre(a, b, limit, bits, offsets, larger, sh, path, key, value, cur, s),
    ensures
        shaped(b, limit, bits, larger, placed(sh, path, key, value)),
{
    let n = placed(sh, path, key, value);
    assert forall|t: int| n.nodes.contains_key(t) implies #[trigger] table_ok(
        b,
        limit,
        bits,
        n,
        t,
    ) by {
        lemma_place_tables(a, b, limit, bits, offsets, larger, sh, path, key, value, cur, s, t);
    }
    assert forall|t1: int, t2: int|
        n.nodes.contains_key(t1) && n.nodes.contains_key(t2) implies #[trigger] apart(
        bits,
        t1,
        t2,
    ) by {
        assert(sh.nodes.contains_key(t1) && sh.nodes.contains_key(t2));
    }
    assert forall|t: int, s2: int|
        n.nodes.contains_key(t) && 0 <= s2 < fanout(bits) implies #[trigger] cell_ok(
        b,
        bits,
        larger,
        n,
        t,
        s2,
    ) by {
        lemma_place_cells(
            a,
            b,
            limit,
            bits,
            offsets,
            larger,
            sh,
            path,
            key,
            value,
            cur,
            s,
            t,
            s2,
        );
    }
    assert forall|t: int, k: u64|
        n.nodes.contains_key(t) && n.nodes[t].members.contains(k) implies #[trigger] member_ok(
        b,
        bits,
        n,
        t,
        k,
    ) by {
        lemma_place_members(a, b, limit, bits, offsets, larger, sh, path, key, value, cur, s, t, k);
    }
    assert forall|c: int| n.nodes.contains_key(c) && c != ROOT_SIZE implies #[trigger] child_ok(
        b,
        bits,
        n,
        c,
    ) by {
        lemma_place_children(a, b, limit, bits, offsets, larger, sh, path, key, value, cur, s, c);
    }
    lemma_fanout(bits);
    assert(sh.nodes.contains_key(cur));
    assert(table_ok(a, limit, bits, sh, cur));
    assert(n.nodes.contains_key(limit - block_size(bits)));
    assert(n.nodes.contains_key(ROOT_SIZE as int));
}


/// Cell number `s` of the table block at `t` is zero throughout.
pub open spec fn vacant_at(b: Seq<u8>, t: int, s: int) -> bool {
    zero_inside(b, cell_offset(t, s), cell_offset(t, s) + SIZE)
}

/// The key whose string stands in cell `s` of the table at `cur`.
pub open spec fn moved_key(a: Seq<u8>, cur: int, s: int) -> u64 {
    cell_of(a, cur, s).string_key
}

/// What holds when the string of cell `s` of the table at `cur` was moved
/// one level down: a new table stands at `limit`, the cell points to it, and
/// the string pointer stands in the cell of the new table that its key selects.
pub open spec fn split_pre(
    a: Seq<u8>,
    b: Seq<u8>,
    limit: int,
    bits: u8,
    offsets: Map<Seq<char>, usize>,
    sh: Shape,
    cur: int,
    s: int,
) -> bool {
    let off = cell_offset(cur, s);
    let old_cell = cell_of(a, cur, s);
    let below = sh.nodes[cur].consumed + bits;
    let slot = slot_at(old_cell.string_key, below, bits);
    &&& shaped(a, limit, bits, offsets, sh)
    &&& sh.nodes.contains_key(cur)
    &&& 0 <= s < fanout(bits)
    &&& old_cell.spec_type() == Type::StringPtr
    &&& below < 64
    &&& limit + block_size(bits) <= b.len()
    &&& tables_kept(a, b, limit, off)
    &&& cell_of(b, cur, s).spec_type() == Type::TablePtr
    &&& cell_of(b, cur, s).index == limit
    &&& zero_inside(b, off + 9, off + SIZE)
    &&& TableHeader::at(b, limit) == (TableHeader { htype: 2, bits: bits })
    &&& zero_inside(b, limit + 4, limit + 8)
    &&& zero_inside(b, limit + 9, limit + TABLE_HEADER_SIZE)
    &&& cell_of(b, limit, slot).spec_type() == Type::StringPtr
    &&& cell_of(b, limit, slot).index == old_cell.index
    &&& cell_of(b, limit, slot).string_key == old_cell.string_key
    &&& forall|s2: int| 0 <= s2 < fanout(bits) && s2 != slot ==> #[trigger] vacant_at(b, limit, s2)
}

proof fn lemma_split_tables(
    a: Seq<u8>,
    b: Seq<u8>,
    limit: int,
    bits: u8,
    offsets: Map<Seq<char>, usize>,
    sh: Shape,
    cur: int,
    s: int,
    t: int,
)
    requires
        split_pre(a, b, limit, bits, offsets, sh, cur, s),
        deepened(sh, bits, cur, s, limit, moved_key(a, cur, s)).nodes.contains_key(t),
    ensures
        table_ok(
            b,
            limit + block_size(bits),
            bits,
            deepened(sh, bits, cur, s, limit, moved_key(a, cur, s)),
            t,
        ),
        apart(bits, t, limit),
{
    lemma_fanout(bits);
    let n = deepened(sh, bits, cur, s, limit, moved_key(a, cur, s));
    assert(table_ok(a, limit, bits, sh, cur));
    if t != limit {
        assert(sh.nodes.contains_key(t));
        assert(table_ok(a, limit, bits, sh, t));
        assert(apart(bits, cur, t));
        lemma_header_kept(a, b, limit, bits, sh, cur, s, t);
        if t != ROOT_SIZE {
            assert(table_ok(a, limit, bits, sh, t - block_size(bits)));
        }
    }
}

#[verifier::rlimit(40)]
proof fn lemma_split_cells(
    a: Seq<u8>,
    b: Seq<u8>,
    limit: int,
    bits: u8,
    offsets: Map<Seq<char>, usize>,
    sh: Shape,
    cur: int,
    s: int,
    t: int,
    s2: int,
)
    requires
        split_pre(a, b, limit, bits, offsets, sh, cur, s),
        deepened(sh, bits, cur, s, limit, moved_key(a, cur, s)).nodes.contains_key(t),
        0 <= s2 < fanout(bits),
    ensures
        cell_ok(b, bits, offsets, deepened(sh, bits, cur, s, limit, moved_key(a, cur, s)), t, s2),
{
    lemma_fanout(bits);
    let n = deepened(sh, bits, cur, s, limit, moved_key(a, cur, s));
    assert(table_ok(a, limit, bits, sh, cur));
    assert(cell_ok(a, bits, offsets, sh, cur, s));
    if t == limit {
        let slot = slot_at(moved_key(a, cur, s), sh.nodes[cur].consumed + bits, bits);
        if s2 != slot {
            assert(vacant_at(b, limit, s2));
            Instance::lemma_vacant(b, cell_offset(t, s2));
        }
    } else if t == cur && s2 == s {
    } else {
        assert(sh.nodes.contains_key(t));
        assert(table_ok(a, limit, bits, sh, t));
        assert(apart(bits, cur, t));
        assert(cell_ok(a, bits, offsets, sh, t, s2));
        lemma_other_cell(a, b, limit, bits, sh, cur, s, t, s2);
        let c = cell_of(a, t, s2);
        if c.spec_type() == Type::TablePtr {
            assert(table_ok(a, limit, bits, sh, c.index as int));
        }
    }
}

#[verifier::rlimit(40)]
proof fn lemma_split_members(
    a: Seq<u8>,
    b: Seq<u8>,
    limit: int,
    bits: u8,
    offsets: Map<Seq<char>, usize>,
    sh: Shape,
    cur: int,
    s: int,
    t: int,
    k: u64,
)
    requires
        split_pre(a, b, limit, bits, offsets, sh, cur, s),
        deepened(sh, bits, cur, s, limit, moved_key(a, cur, s)).nodes.contains_key(t),
        deepened(sh, bits, cur, s, limit, moved_key(a, cur, s)).nodes[t].members.contains(k),
    ensures
        member_ok(b, bits, deepened(sh, bits, cur, s, limit, moved_key(a, cur, s)), t, k),
{
    lemma_fanout(bits);
    let n = deepened(sh, bits, cur, s, limit, moved_key(a, cur, s));
    assert(table_ok(a, limit, bits, sh, cur));
    assert(cell_ok(a, bits, offsets, sh, cur, s));
    if t == limit {
        assert(k == moved_key(a, cur, s));
    } else {
        assert(sh.nodes.contains_key(t));
        assert(table_ok(a, limit, bits, sh, t));
        assert(apart(bits, cur, t));
        assert(member_ok(a, bits, sh, t, k));
        let s2 = slot_at(k, sh.nodes[t].consumed, bits);
        if t == cur && s2 == s {
        } else {
            lemma_other_cell(a, b, limit, bits, sh, cur, s, t, s2);
            assert(cell_ok(a, bits, offsets, sh, t, s2));
            let c = cell_of(a, t, s2);
            if c.spec_type() == Type::TablePtr {
                assert(table_ok(a, limit, bits, sh, c.index as int));
            }
        }
    }
}

#[verifier::rlimit(40)]
proof fn lemma_split_children(
    a: Seq<u8>,
    b: Seq<u8>,
    limit: int,
    bits: u8,
    offsets: Map<Seq<char>, usize>,
    sh: Shape,
    cur: int,
    s: int,
    c: int,
)
    requires
        split_pre(a, b, limit, bits, offsets, sh, cur, s),
        deepened(sh, bits, cur, s, limit, moved_key(a, cur, s)).nodes.contains_key(c),
        c != ROOT_SIZE,
    ensures
        child_ok(b, bits, deepened(sh, bits, cur, s, limit, moved_key(a, cur, s)), c),
{
    lemma_fanout(bits);
    let n = deepened(sh, bits, cur, s, limit, moved_key(a, cur, s));
    assert(table_ok(a, limit, bits, sh, cur));
    assert(cell_ok(a, bits, offsets, sh, cur, s));
    if c != limit {
        assert(sh.nodes.contains_key(c));
        assert(child_ok(a, bits, sh, c));
        let p = sh.nodes[c].parent;
        let sl = sh.nodes[c].slot;
        assert(table_ok(a, limit, bits, sh, p));
        assert(apart(bits, cur, p));
        lemma_other_cell(a, b, limit, bits, sh, cur, s, p, sl);
    }
}

/// Moving a string one level down keeps the shape sound.
pub proof fn lemma_split(
    a: Seq<u8>,
    b: Seq<u8>,
    limit: int,
    bits: u8,
    offsets: Map<Seq<char>, usize>,
    sh: Shape,
    cur: int,
    s: int,
)
    requires
        split_pre(a, b, limit, bits, offsets, sh, cur, s),
    ensures
        shaped(
            b,
            limit + block_size(bits),
            bits,
            offsets,
            deepened(sh, bits, cur, s, limit, moved_key(a, cur, s)),
        ),
{
    lemma_fanout(bits);
    let n = deepened(sh, bits, cur, s, limit, moved_key(a, cur, s));
    assert(table_ok(a, limit, bits, sh, cur));
    assert forall|t: int| n.nodes.contains_key(t) implies #[trigger] table_ok(
        b,
        limit + block_size(bits),
        bits,
        n,
        t,
    ) by {
        lemma_split_tables(a, b, limit, bits, offsets, sh, cur, s, t);
    }
    assert forall|t1: int, t2: int|
        n.nodes.contains_key(t1) && n.nodes.contains_key(t2) implies #[trigger] apart(
        bits,
        t1,
        t2,
    ) by {
        lemma_split_tables(a, b, limit, bits, offsets, sh, cur, s, t1);
        lemma_split_tables(a, b, limit, bits, offsets, sh, cur, s, t2);
        if t1 != limit && t2 != limit {
            assert(apart(bits, t1, t2));
        }
    }
    assert forall|t: int, s2: int|
        n.nodes.contains_key(t) && 0 <= s2 < fanout(bits) implies #[trigger] cell_ok(
        b,
        bits,
        offsets,
        n,
        t,
        s2,
    ) by {
        lemma_split_cells(a, b, limit, bits, offsets, sh, cur, s, t, s2);
    }
    assert forall|t: int, k: u64|
        n.nodes.contains_key(t) && n.nodes[t].members.contains(k) implies #[trigger] member_ok(
        b,
        bits,
        n,
        t,
        k,
    ) by {
        lemma_split_members(a, b, limit, bits, offsets, sh, cur, s, t, k);
    }
    assert forall|c: int| n.nodes.contains_key(c) && c != ROOT_SIZE implies #[trigger] child_ok(
        b,
        bits,
        n,
        c,
    ) by {
        lemma_split_children(a, b, limit, bits, offsets, sh, cur, s, c);
    }
    assert(n.nodes.contains_key(limit));
    assert(n.nodes.contains_key(ROOT_SIZE as int));
}

/// Moving a string one level down leaves the walk where it is.
pub proof fn lemma_split_path(
    a: Seq<u8>,
    b: Seq<u8>,
    limit: int,
    bits: u8,
    offsets: Map<Seq<char>, usize>,
    sh: Shape,
    cur: int,
    s: int,
    path: Set<int>,
    key: u64,
)
    requires
        split_pre(a, b, limit, bits, offsets, sh, cur, s),
        on_path(a, bits, sh, path, key, cur),
    ensures
        on_path(b, bits, deepened(sh, bits, cur, s, limit, moved_key(a, cur, s)), path, key, cur),
{
    lemma_fanout(bits);
    let n = deepened(sh, bits, cur, s, limit, moved_key(a, cur, s));
    assert(table_ok(a, limit, bits, sh, cur));
    assert forall|p: int| path.contains(p) && p != ROOT_SIZE implies #[trigger] path_link(
        bits,
        n,
        path,
        key,
        p,
    ) by {
        assert(path_link(bits, sh, path, key, p));
        assert(table_ok(a, limit, bits, sh, p));
        assert(table_ok(a, limit, bits, sh, sh.nodes[p].parent));
    }
    assert forall|p: int| path.contains(p) && p != cur implies #[trigger] path_next(
        b,
        bits,
        n,
        path,
        key,
        p,
    ) by {
        assert(path_next(a, bits, sh, path, key, p));
        assert(table_ok(a, limit, bits, sh, p));
        assert(apart(bits, cur, p));
        lemma_other_cell(
            a,
            b,
            limit,
            bits,
            sh,
            cur,
            s,
            p,
            slot_at(key, sh.nodes[p].consumed, bits),
        );
    }
    assert forall|p: int| #[trigger] path.contains(p) implies n.nodes.contains_key(p) && p
        <= cur by {}
}

/// Following a table pointer takes the walk into the table below.
pub proof fn lemma_descend(
    b: Seq<u8>,
    limit: int,
    bits: u8,
    offsets: Map<Seq<char>, usize>,
    sh: Shape,
    path: Set<int>,
    key: u64,
    cur: int,
)
    requires
        shaped(b, limit, bits, offsets, sh),
        on_path(b, bits, sh, path, key, cur),
        cell_of(b, cur, slot_at(key, sh.nodes[cur].consumed, bits)).spec_type() == Type::TablePtr,
        sh.entries.contains_key(key) <==> sh.nodes[cur].members.contains(key),
        forall|k: u64| #[trigger]
            sh.nodes[cur].members.contains(k) ==> agree(key, k, sh.nodes[cur].consumed),
    ensures
        ({
            let next = cell_of(b, cur, slot_at(key, sh.nodes[cur].consumed, bits)).index as int;
            &&& sh.nodes.contains_key(next)
            &&& table_ok(b, limit, bits, sh, next)
            &&& sh.nodes[next].consumed == sh.nodes[cur].consumed + bits
            &&& on_path(b, bits, sh, path.insert(next), key, next)
            &&& (sh.entries.contains_key(key) <==> sh.nodes[next].members.contains(key))
            &&& forall|k: u64| #[trigger]
                sh.nodes[next].members.contains(k) ==> agree(key, k, sh.nodes[next].consumed)
            &&& residual(key, sh.nodes[next].consumed) == advance(
                residual(key, sh.nodes[cur].consumed),
                bits,
            )
        }),
{
    lemma_fanout(bits);
    let s = slot_at(key, sh.nodes[cur].consumed, bits);
    let next = cell_of(b, cur, s).index as int;
    let more = path.insert(next);
    assert(sh.nodes.contains_key(cur));
    assert(table_ok(b, limit, bits, sh, cur));
    assert(cell_ok(b, bits, offsets, sh, cur, s));
    assert(table_ok(b, limit, bits, sh, next));
    assert(child_ok(b, bits, sh, next));
    lemma_residual_step(key, sh.nodes[cur].consumed, bits);
    if sh.nodes[cur].members.contains(key) {
        assert(member_ok(b, bits, sh, cur, key));
    }
    assert forall|k: u64| #[trigger] sh.nodes[next].members.contains(k) implies agree(
        key,
        k,
        sh.nodes[next].consumed,
    ) by {
        assert(sh.nodes[cur].members.contains(k));
        lemma_agree_step(key, k, sh.nodes[cur].consumed, bits);
    }
    assert forall|p: int| more.contains(p) && p != ROOT_SIZE implies #[trigger] path_link(
        bits,
        sh,
        more,
        key,
        p,
    ) by {
        if p != next {
            assert(path_link(bits, sh, path, key, p));
        }
    }
    assert forall|p: int| more.contains(p) && p != next implies #[trigger] path_next(
        b,
        bits,
        sh,
        more,
        key,
        p,
    ) by {
        if p != cur {
            assert(path_next(b, bits, sh, path, key, p));
        }
    }
}


/// Every table of a buffer of sound shape is a complete table block.
pub proof fn lemma_table_at(
    b: Seq<u8>,
    limit: int,
    bits: u8,
    offsets: Map<Seq<char>, usize>,
    sh: Shape,
    t: int,
)
    requires
        shaped(b, limit, bits, offsets, sh),
        sh.nodes.contains_key(t),
    ensures
        table_at(b, t),
        TableHeader::at(b, t) == (TableHeader { htype: 2, bits: bits }),
        t + block_size(bits) <= limit,
        0 <= sh.nodes[t].consumed < 64,
{
    assert(table_ok(b, limit, bits, sh, t));
}

/// The buffer `b` is the buffer `a` after the string of cell `s` of the
/// table at `cur` was moved one level down: a new table stands at the end
/// of `a`, the cell points to it, the string pointer stands in cell `slot`
/// of the new table, and the other cells of the new table are empty.
pub open spec fn moved_down(a: Seq<u8>, b: Seq<u8>, bits: u8, cur: int, s: int, slot: int) -> bool {
    let limit = a.len() as int;
    let off = cell_offset(cur, s);
    let held = cell_of(a, cur, s);
    &&& b.len() == limit + block_size(bits)
    &&& forall|i: int| 0 <= i < limit && !(off <= i < off + SIZE) ==> a[i] == b[i]
    &&& cell_of(b, cur, s).spec_type() == Type::TablePtr
    &&& cell_of(b, cur, s).index == limit
    &&& zero_inside(b, off + 9, off + SIZE)
    &&& TableHeader::at(b, limit) == (TableHeader { htype: 2, bits: bits })
    &&& zero_inside(b, limit + 4, limit + 8)
    &&& zero_inside(b, limit + 9, limit + TABLE_HEADER_SIZE)
    &&& cell_of(b, limit, slot).spec_type() == Type::StringPtr
    &&& cell_of(b, limit, slot).index == held.index
    &&& cell_of(b, limit, slot).string_key == held.string_key
    &&& forall|s2: int| 0 <= s2 < fanout(bits) && s2 != slot ==> #[trigger] vacant_at(b, limit, s2)
}

/// A buffer that grew by a block has kept what it held.
pub proof fn lemma_grown(a: Seq<u8>, b: Seq<u8>)
    requires
        a.len() <= b.len(),
        b.subrange(0, a.len() as int) == a,
    ensures
        forall|i: int| 0 <= i < a.len() ==> a[i] == #[trigger] b[i],
{
    assert forall|i: int| 0 <= i < a.len() implies a[i] == #[trigger] b[i] by {
        assert(b.subrange(0, a.len() as int)[i] == b[i]);
    }
}

/// The three writes of a split — a new table at the end, a table pointer in
/// the cell that held the string, the string pointer in the new table —
/// leave the buffer as a split must leave it.
#[verifier::rlimit(40)]
pub proof fn lemma_moved_down(
    a0: Seq<u8>,
    a1: Seq<u8>,
    a2: Seq<u8>,
    a3: Seq<u8>,
    bits: u8,
    cur: int,
    s: int,
    slot: int,
)
    requires
        1 <= bits <= MAX_BITS,
        0 <= cur,
        cur + block_size(bits) <= a0.len() <= usize::MAX,
        0 <= s < fanout(bits),
        0 <= slot < fanout(bits),
        a1.len() == a0.len() + block_size(bits),
        forall|i: int| 0 <= i < a0.len() ==> a0[i] == #[trigger] a1[i],
        TableHeader::at(a1, a0.len() as int) == (TableHeader { htype: 2, bits: bits }),
        zero_inside(a1, a0.len() as int + 4, a0.len() as int + 8),
        zero_inside(a1, a0.len() as int + 9, a0.len() as int + block_size(bits)),
        same_outside(a1, a2, cell_offset(cur, s), cell_offset(cur, s) + SIZE),
        a2.subrange(cell_offset(cur, s), cell_offset(cur, s) + SIZE) == (Instance {
            c_type: 2,
            index: a0.len() as usize,
            string_key: 0,
        }).bytes(),
        cell_of(a2, cur, s) == (Instance { c_type: 2, index: a0.len() as usize, string_key: 0 }),
        same_outside(
            a2,
            a3,
            cell_offset(a0.len() as int, slot),
            cell_offset(a0.len() as int, slot) + SIZE,
        ),
        cell_of(a3, a0.len() as int, slot) == (Instance {
            c_type: 1,
            index: cell_of(a0, cur, s).index,
            string_key: cell_of(a0, cur, s).string_key,
        }),
    ensures
        moved_down(a0, a3, bits, cur, s, slot),
{
    lemma_fanout(bits);
    let limit = a0.len() as int;
    let off = cell_offset(cur, s);
    let off2 = cell_offset(limit, slot);
    lemma_cell_range(bits, cur, s);
    lemma_cell_range(bits, limit, slot);
    assert(a3.len() == limit + block_size(bits));
    assert forall|i: int| 0 <= i < limit && !(off <= i < off + SIZE) implies a0[i] == a3[i] by {
        assert(a0[i] == a1[i]);
        assert(a1[i] == a2[i]);
        assert(a2[i] == a3[i]);
    }
    Instance::lemma_no_key(
        a2,
        off,
        Instance { c_type: 2, index: a0.len() as usize, string_key: 0 },
    );
    assert forall|i: int| off <= i < off + SIZE implies a2[i] == a3[i] by {}
    assert(same_inside(a2, a3, off, off + SIZE));
    lemma_cell_same(a2, a3, cur, s);
    assert(zero_inside(a3, off + 9, off + SIZE));
    assert forall|i: int| limit <= i < limit + TABLE_HEADER_SIZE implies a1[i] == a3[i] by {
        assert(a1[i] == a2[i]);
        assert(a2[i] == a3[i]);
    }
    assert(TableHeader::at(a3, limit) == TableHeader::at(a1, limit));
    assert forall|s2: int| 0 <= s2 < fanout(bits) && s2 != slot implies #[trigger] vacant_at(
        a3,
        limit,
        s2,
    ) by {
        lemma_cell_range(bits, limit, s2);
        lemma_cells_apart(bits, limit, slot, limit, s2);
        let o = cell_offset(limit, s2);
        assert forall|i: int| o <= i < o + SIZE implies a3[i] == 0 by {
            assert(a1[i] == 0);
            assert(a1[i] == a2[i]);
            assert(a2[i] == a3[i]);
        }
    }
}

/// A buffer of sound shape in which a string was moved down is ready for
/// the shape to follow.
pub proof fn lemma_split_ready(
    a: Seq<u8>,
    b: Seq<u8>,
    bits: u8,
    offsets: Map<Seq<char>, usize>,
    sh: Shape,
    cur: int,
    s: int,
)
    requires
        shaped(a, a.len() as int, bits, offsets, sh),
        sh.nodes.contains_key(cur),
        0 <= s < fanout(bits),
        cell_of(a, cur, s).spec_type() == Type::StringPtr,
        sh.nodes[cur].consumed + bits < 64,
        moved_down(
            a,
            b,
            bits,
            cur,
            s,
            slot_at(moved_key(a, cur, s), sh.nodes[cur].consumed + bits, bits),
        ),
    ensures
        split_pre(a, b, a.len() as int, bits, offsets, sh, cur, s),
{
    let limit = a.len() as int;
    let off = cell_offset(cur, s);
    assert(tables_kept(a, b, limit, off));
}

/// The cell holds no byte that was not written for it: an empty cell is
/// zero throughout, and a table pointer has zero where a key would stand.
pub open spec fn cell_clean(b: Seq<u8>, t: int, s: int) -> bool {
    match cell_of(b, t, s).spec_type() {
        Type::Empty => zero_inside(b, cell_offset(t, s), cell_offset(t, s) + SIZE),
        Type::TablePtr => zero_inside(b, cell_offset(t, s) + 9, cell_offset(t, s) + SIZE),
        _ => true,
    }
}

/// The table block at `t` has zero padding in its header, and clean cells.
pub open spec fn block_clean(b: Seq<u8>, bits: u8, t: int) -> bool {
    &&& zero_inside(b, t + 4, t + 8)
    &&& zero_inside(b, t + 9, t + TABLE_HEADER_SIZE)
    &&& forall|s: int| 0 <= s < fanout(bits) ==> #[trigger] cell_clean(b, t, s)
}

/// The bytes of `b` from the root header up to `end` are table blocks of
/// `2^bits` cells each, all of them clean.
pub open spec fn blocks_clean(b: Seq<u8>, bits: u8, end: int) -> bool
    decreases end,
{
    if end <= ROOT_SIZE {
        end == ROOT_SIZE
    } else if block_size(bits) <= 0 || end - block_size(bits) < ROOT_SIZE {
        false
    } else {
        &&& block_clean(b, bits, end - block_size(bits))
        &&& blocks_clean(b, bits, end - block_size(bits))
    }
}

/// Every byte of the index of `b` that is no field of a header and belongs
/// to no written cell is zero: the padding of the root header and of the
/// table headers, the empty cells, and the place of the key in the table
/// pointers.
pub open spec fn zero_init(b: Seq<u8>) -> bool {
    &&& b.len() >= ROOT_SIZE
    &&& zero_inside(b, 4, 8)
    &&& Root::at(b).root_table_offset != 0 ==> {
        &&& b.len() >= ROOT_SIZE + TABLE_HEADER_SIZE
        &&& blocks_clean(b, b[ROOT_SIZE + 8], Root::at(b).string_offset as int)
    }
}

/// The tables of a buffer of sound shape are clean up to any table's end.
pub proof fn lemma_blocks_clean(
    b: Seq<u8>,
    limit: int,
    bits: u8,
    offsets: Map<Seq<char>, usize>,
    sh: Shape,
    end: int,
)
    requires
        shaped(b, limit, bits, offsets, sh),
        end == ROOT_SIZE || sh.nodes.contains_key(end - block_size(bits)),
    ensures
        blocks_clean(b, bits, end),
    decreases end,
{
    lemma_fanout(bits);
    if end != ROOT_SIZE {
        let t = end - block_size(bits);
        assert(table_ok(b, limit, bits, sh, t));
        assert forall|s: int| 0 <= s < fanout(bits) implies #[trigger] cell_clean(b, t, s) by {
            assert(cell_ok(b, bits, offsets, sh, t, s));
        }
        lemma_blocks_clean(b, limit, bits, offsets, sh, t);
    }
}

} // verus!
