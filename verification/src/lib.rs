//! This crate implements a map of unsigned 64-bit keys into strings.
//!
//! The map is optimized for creating it once, and then reading many times. The struct [`Builder`]
//! is used to build the map, and the struct [`SequenceMap`] is used for lookups.
//!
//! The special property of the implementation is that it encodes all the data needed for the
//! lookup in a single sequence of bytes.  The internal structure requires no decoding when it is
//! loaded (say from a file).
//!
//! The map is internally represented as a trie with each level of the trie being indexed by a
//! number of bits of the key, starting from the least-significant bit side.  So for example, when
//! creating the builder with 2 bits, then 2 bits will be chopped off the provided key for each
//! descent into the trie by one level.

pub mod cell;
pub mod codec;
pub mod header;
pub mod laws;
pub mod steps;
pub mod string_slice;
pub mod trie;

use crate::codec::zero_inside;
use crate::header::{
    advance, block_size, cell_offset, fanout, fresh_table, lemma_fanout, lemma_stored_root,
    slot_index, table_at, Root, Table, TableMut, ROOT_SIZE,
};
use crate::string_slice::{
    c_str, entry, has_nul, holds_at, lemma_c_str_suffix, lemma_nul_unique, nul_at, nul_pos,
    offset_of, packed, place_of, Intern,
};
use crate::steps::{
    here, inserted_index, lemma_image_len, lemma_target_bound, lemma_walk_descend,
    lemma_walk_here, lemma_walk_place, lemma_walk_split, lemma_walk_start, split_image,
    walking, with_first_table, Walk,
};
use crate::trie::{
    cell_of, deepened, lemma_blocks_clean, lemma_cell_range, lemma_first_table, lemma_grown,
    lemma_hit_plain, lemma_moved_down, lemma_represents, lemma_shape_frame, lemma_table_at,
    lookup, moved_down, placed, represents, residual, rooted, shaped, walk, zero_init, Found,
    Shape,
};
use vstd::utf8::{decode_utf8, valid_utf8};
use vstd::prelude::*;

verus! {

/// The largest number of tables that one insert can add.
pub const MAX_DEPTH: usize = 32;

/// The index of a finished buffer: `index` with the place where the strings
/// start, which is its end, written into the root header. An index without
/// a table stays as it is.
pub open spec fn finished(index: Seq<u8>) -> Seq<u8> {
    if Root::at(index).root_table_offset == 0 {
        index
    } else {
        (Root { string_offset: index.len() as usize, ..Root::at(index) }).stored(index)
    }
}

/// A map builder.  Creates a sequence map, allowing the user to insert, repeatedly, a number of
/// key-value pairs.  Use `Builder::new` to create.
pub struct Builder {
    bits: u8,
    index: Vec<u8>,
    strings: Intern,
    shape: Ghost<Shape>,
}

impl View for Builder {
    type V = Map<u64, Seq<char>>;

    /// The strings that were inserted, by their keys.
    closed spec fn view(&self) -> Map<u64, Seq<char>> {
        self.shape@.entries
    }
}

impl Builder {
    /// The number of key bits that each level of the trie consumes.
    pub closed spec fn spec_bits(&self) -> u8 {
        self.bits
    }

    /// The bytes of the index: the root header and the tables.
    pub closed spec fn index_bytes(&self) -> Seq<u8> {
        self.index@
    }

    /// The strings of the pool, each once, in the order in which they came first.
    pub closed spec fn interned(&self) -> Seq<Seq<char>> {
        self.strings.values()
    }

    /// The number of bytes of the buffer that `build` would return.
    pub open spec fn size(&self) -> nat {
        self.index_bytes().len() + packed(self.interned()).len()
    }

    /// The buffer that `build` would return.
    pub open spec fn image(&self) -> Seq<u8> {
        finished(self.index_bytes()) + packed(self.interned())
    }

    /// The number of bytes of the buffer that `build` would return after
    /// an insert of `value` under `key`.
    pub open spec fn grown(&self, key: u64, value: Seq<char>) -> nat {
        inserted_index(
            self.index_bytes(),
            self.spec_bits(),
            key,
            place_of(self.interned(), value),
        ).len() + packed(self.interned()).len() + (if self@.contains_key(key)
            || self.interned().contains(value) {
            0nat
        } else {
            entry(value).len()
        })
    }

    /// The machine can address the buffer that an insert of `value` under
    /// `key` leaves.
    pub open spec fn has_room(&self, key: u64, value: Seq<char>) -> bool {
        self.grown(key, value) <= usize::MAX
    }

    /// The machine can address the buffer that any insert of `value` leaves:
    /// one with as many new tables as an insert can add, and the string.
    pub open spec fn has_space(&self, value: Seq<char>) -> bool {
        self.size() + MAX_DEPTH * block_size(self.spec_bits()) + entry(value).len() <= usize::MAX
    }

    /// The index is a root header followed by tables that hang together as
    /// a trie of the inserted keys, and the pool holds their strings.
    pub closed spec fn wf(&self) -> bool {
        self.sound()
    }

    #[verifier::opaque]
    spec fn sound(&self) -> bool {
        &&& 2 <= self.bits <= 16
        &&& self.strings.wf()
        &&& shaped(
            self.index@,
            self.index@.len() as int,
            self.bits,
            self.strings.offsets(),
            self.shape@,
        )
        &&& Root::at(self.index@) == (Root {
            htype: 1,
            root_table_offset: if self.index@.len() == ROOT_SIZE {
                0usize
            } else {
                ROOT_SIZE
            },
            string_offset: 0,
        })
        &&& zero_inside(self.index@, 4, 8)
        &&& self.index@.len() + self.strings.pool().len() <= usize::MAX
        &&& (self.index@.len() == ROOT_SIZE) == (self.shape@.entries == Map::<
            u64,
            Seq<char>,
        >::empty())
    }

    proof fn lemma_sound(&self)
        requires
            self.wf(),
        ensures
            2 <= self.bits <= 16,
            self.strings.wf(),
            shaped(
                self.index@,
                self.index@.len() as int,
                self.bits,
                self.strings.offsets(),
                self.shape@,
            ),
            Root::at(self.index@) == (Root {
                htype: 1,
                root_table_offset: if self.index@.len() == ROOT_SIZE {
                    0usize
                } else {
                    ROOT_SIZE
                },
                string_offset: 0,
            }),
            zero_inside(self.index@, 4, 8),
            self.index@.len() + self.strings.pool().len() <= usize::MAX,
            self.index@.len() >= ROOT_SIZE,
            self.strings.pool() == packed(self.strings.values()),
            (self.index@.len() == ROOT_SIZE) == (self.shape@.entries == Map::<
                u64,
                Seq<char>,
            >::empty()),
    {
        reveal(Builder::sound);
    }

    proof fn lemma_make_sound(&self)
        requires
            2 <= self.bits <= 16,
            self.strings.wf(),
            shaped(
                self.index@,
                self.index@.len() as int,
                self.bits,
                self.strings.offsets(),
                self.shape@,
            ),
            Root::at(self.index@) == (Root {
                htype: 1,
                root_table_offset: if self.index@.len() == ROOT_SIZE {
                    0usize
                } else {
                    ROOT_SIZE
                },
                string_offset: 0,
            }),
            zero_inside(self.index@, 4, 8),
            self.index@.len() + self.strings.pool().len() <= usize::MAX,
            self.index@.len() > ROOT_SIZE ==> exists|key: u64|
                self.shape@.entries.contains_key(key),
        ensures
            self.wf(),
    {
        reveal(Builder::sound);
        if self.index@.len() > ROOT_SIZE {
            let key = choose|key: u64| self.shape@.entries.contains_key(key);
            assert(!Map::<u64, Seq<char>>::empty().contains_key(key));
        }
    }

    /// The pool of a builder holds no string twice.
    pub proof fn lemma_interned_distinct(&self)
        requires
            self.wf(),
        ensures
            self.interned().no_duplicates(),
    {
        self.lemma_sound();
    }

    /// Creates a new map builder.  `bits` determines how many bits are used
    /// for each level of the internal trie, min bits is 2, and max is 16.  The
    /// more bits are used, the faster the lookup, but the larger the resulting
    /// binary format.
    pub fn new(bits: usize) -> (builder: Builder)
        requires
            2 <= bits <= 16,
        ensures
            builder.wf(),
            builder.spec_bits() == bits,
            builder@ == Map::<u64, Seq<char>>::empty(),
            builder.interned() == Seq::<Seq<char>>::empty(),
            builder.index_bytes() == (Root {
                htype: 1,
                root_table_offset: 0,
                string_offset: 0,
            }).stored(Seq::new(ROOT_SIZE as nat, |i: int| 0u8)),
            builder.index_bytes().len() == ROOT_SIZE,
            builder.size() == ROOT_SIZE,
    {
        let mut builder = Builder {
            bits: bits as u8,
            index: Vec::new(),
            strings: Intern::new(),
            shape: Ghost(
                Shape {
                    entries: Map::<u64, Seq<char>>::empty(),
                    nodes: Map::<int, trie::Node>::empty(),
                },
            ),
        };
        builder.reserve_header();
        proof {
            assert(packed(builder.strings.values()) =~= Seq::<u8>::empty());
            builder.lemma_make_sound();
        }
        builder
    }

    fn allocate_string(&mut self, s: &str) -> (index: usize)
        requires
            old(self).strings.wf(),
            !old(self).strings.offsets().contains_key(s@) ==> old(self).strings.pool().len()
                + entry(s@).len() <= usize::MAX,
        ensures
            final(self).bits == old(self).bits,
            final(self).index == old(self).index,
            final(self).shape == old(self).shape,
            final(self).strings.wf(),
            index == offset_of(old(self).strings.values(), s@),
            old(self).strings.offsets().contains_key(s@) ==> {
                &&& index == old(self).strings.offsets()[s@]
                &&& final(self).strings.pool() == old(self).strings.pool()
                &&& final(self).strings.offsets() == old(self).strings.offsets()
                &&& final(self).strings.values() == old(self).strings.values()
            },
            !old(self).strings.offsets().contains_key(s@) ==> {
                &&& index == old(self).strings.pool().len()
                &&& final(self).strings.pool() == old(self).strings.pool() + entry(s@)
                &&& final(self).strings.offsets() == old(self).strings.offsets().insert(s@, index)
                &&& final(self).strings.values() == old(self).strings.values().push(s@)
            },
    {
        self.strings.add(s)
    }

    fn header_unchecked(&self) -> (root: Root)
        requires
            self.index@.len() >= ROOT_SIZE,
        ensures
            root == Root::at(self.index@),
    {
        Root::read(self.index.as_slice())
    }

    fn header(&self) -> (root: Root)
        requires
            self.index@.len() >= ROOT_SIZE,
            Root::at(self.index@).htype == 1,
        ensures
            root == Root::at(self.index@),
    {
        let root = self.header_unchecked();
        root
    }

    fn reserve_header(&mut self)
        requires
            old(self).index@.len() == 0,
            1 <= old(self).bits <= 16,
            old(self).shape@.entries == Map::<u64, Seq<char>>::empty(),
            old(self).shape@.nodes == Map::<int, trie::Node>::empty(),
            old(self).strings.wf(),
            old(self).strings.pool().len() == 0,
        ensures
            final(self).bits == old(self).bits,
            final(self).strings == old(self).strings,
            final(self).shape == old(self).shape,
            final(self).index@.len() == ROOT_SIZE,
            final(self).index@ == (Root {
                htype: 1,
                root_table_offset: 0,
                string_offset: 0,
            }).stored(Seq::new(ROOT_SIZE as nat, |i: int| 0u8)),
            Root::at(final(self).index@) == (Root {
                htype: 1,
                root_table_offset: 0,
                string_offset: 0,
            }),
            zero_inside(final(self).index@, 4, 8),
            shaped(
                final(self).index@,
                ROOT_SIZE as int,
                final(self).bits,
                final(self).strings.offsets(),
                final(self).shape@,
            ),
    {
        self.index.resize(self.index.len() + ROOT_SIZE, 0);
        assert(self.index@ =~= Seq::new(ROOT_SIZE as nat, |i: int| 0u8));
        let mut root = self.header_unchecked();
        root.set_type(header::Type::Root);
        root.set_table_offset(0);
        root.set_string_offset(0);
        root.write(&mut self.index);
    }

    fn append_table(&mut self) -> (index: usize)
        requires
            1 <= old(self).bits <= 16,
            old(self).index@.len() + block_size(old(self).bits) <= usize::MAX,
        ensures
            final(self).bits == old(self).bits,
            final(self).strings == old(self).strings,
            final(self).shape == old(self).shape,
            index == old(self).index@.len(),
            final(self).index@ == old(self).index@ + fresh_table(old(self).bits),
            final(self).index@.len() == index + block_size(old(self).bits),
            final(self).index@.subrange(0, index as int) == old(self).index@,
            header::TableHeader::at(final(self).index@, index as int) == (header::TableHeader {
                htype: 2,
                bits: old(self).bits,
            }),
            zero_inside(final(self).index@, index + 4, index + 8),
            zero_inside(final(self).index@, index + 9, index + block_size(old(self).bits)),
    {
        proof {
            lemma_fanout(self.bits);
        }
        let index = self.index.len();
        let entries: u64 = 1u64 << (self.bits as u64);
        let size: usize = header::TABLE_HEADER_SIZE + (entries as usize) * cell::SIZE;
        self.index.resize(index + size, 0);
        let ghost grown = self.index@;
        {
            TableMut::init(self.bits, &mut self.index, index);
        }
        proof {
            assert(self.index@.subrange(0, index as int) =~= grown.subrange(0, index as int));
            assert(self.index@ =~= old(self).index@ + fresh_table(self.bits));
        }
        index
    }

    /// Moves the string of cell `index` of `table` one level down: appends a
    /// new table, makes the cell point to it, and places the string in the
    /// cell of the new table that its key selects.
    #[verifier::rlimit(40)]
    fn deepen(
        &mut self,
        table: &TableMut,
        index: usize,
        cell: &cell::Instance,
        remaining_bits: usize,
    )
        requires
            1 <= old(self).bits <= 16,
            table.describes(old(self).index@),
            table.header.bits == old(self).bits,
            index < fanout(old(self).bits),
            *cell == cell_of(old(self).index@, table.base as int, index as int),
            cell.spec_type() == cell::Type::StringPtr,
            0 < remaining_bits <= 64,
            (64 - remaining_bits) + old(self).bits < 64,
            old(self).index@.len() + block_size(old(self).bits) <= usize::MAX,
        ensures
            final(self).bits == old(self).bits,
            final(self).strings == old(self).strings,
            final(self).shape == old(self).shape,
            moved_down(
                old(self).index@,
                final(self).index@,
                old(self).bits,
                table.base as int,
                index as int,
                slot_index(
                    advance(
                        residual(cell.string_key, 64 - remaining_bits),
                        old(self).bits,
                    ),
                    old(self).bits,
                ) as int,
            ),
            final(self).index@ == split_image(
                old(self).index@,
                old(self).bits,
                table.base as int,
                index as int,
                slot_index(
                    advance(
                        residual(cell.string_key, 64 - remaining_bits),
                        old(self).bits,
                    ),
                    old(self).bits,
                ) as int,
            ),
    {
        let ghost before = self.index@;
        let (str_index, str_key) = cell.string_index_and_key();

        // Adjust the key of the string which was already there to the same
        // number of remaining bits.
        let new_str_key = str_key >> ((64 - remaining_bits) as u64);

        // Create a new table to place the old string into.  Once created,
        // make a pointer from this cell to the new table.
        let new_table_index = self.append_table();
        let ghost grown = self.index@;
        proof {
            lemma_fanout(self.bits);
            lemma_grown(before, grown);
            assert(table.describes(grown));
        }
        let mut pointer = *cell;
        pointer.become_table_ptr(new_table_index);
        table.cell_mut(&mut self.index, index, &pointer);
        let ghost pointed = self.index@;

        // Place the old string into the new table.
        let new_table = TableMut::overlay_mut(self.index.as_slice(), new_table_index);
        let new_str_key = new_table.next_key(new_str_key);
        let new_cell_index = new_table.index(new_str_key);
        let mut moved = new_table.cell(self.index.as_slice(), new_cell_index);
        moved.become_string_ptr(str_index, str_key);
        new_table.cell_mut(&mut self.index, new_cell_index, &moved);
        proof {
            assert(new_cell_index == slot_index(
                advance(residual(cell.string_key, 64 - remaining_bits), self.bits),
                self.bits,
            ));
            assert(moved == cell::Instance {
                c_type: 1,
                index: cell.index,
                string_key: cell.string_key,
            });
            assert(self.index@ == split_image(
                before,
                self.bits,
                table.base as int,
                index as int,
                new_cell_index as int,
            ));
            lemma_moved_down(
                before,
                grown,
                pointed,
                self.index@,
                self.bits,
                table.base as int,
                index as int,
                new_cell_index as int,
            );
        }
    }

    /// What an insert of `value` under `key` makes of the builder `before`:
    /// a key that is there keeps its string and nothing changes; a new key
    /// gets the string, which joins the pool unless it is there already.
    pub open spec fn follows(&self, before: &Builder, key: u64, value: Seq<char>) -> bool {
        &&& self.wf()
        &&& self.spec_bits() == before.spec_bits()
        &&& self@ == (if before@.contains_key(key) {
            before@
        } else {
            before@.insert(key, value)
        })
        &&& self.interned() == (if before@.contains_key(key) || before.interned().contains(value) {
            before.interned()
        } else {
            before.interned().push(value)
        })
        &&& self.index_bytes() == inserted_index(
            before.index_bytes(),
            before.spec_bits(),
            key,
            place_of(before.interned(), value),
        )
        &&& before@.contains_key(key) ==> self.index_bytes() == before.index_bytes()
        &&& before.index_bytes().len() <= self.index_bytes().len()
        &&& self.index_bytes().len() <= before.index_bytes().len() + MAX_DEPTH * block_size(
            before.spec_bits(),
        )
    }

    /// Inserts `value` under `key`.  A second insert under the same key does
    /// not replace the string that is there.
    #[verifier::rlimit(40)]
    pub fn insert(&mut self, key: u64, value: &str)
        requires
            old(self).wf(),
            old(self).has_room(key, value@),
        ensures
            final(self).follows(old(self), key, value@),
    {
        let ghost start = self.index@;
        let ghost offsets = self.strings.offsets();
        let ghost entries = self.shape@.entries;
        let ghost at = place_of(self.strings.values(), value@);
        let ghost target = inserted_index(start, self.bits, key, at);
        let ghost first = with_first_table(start, self.bits);
        proof {
            self.lemma_sound();
            lemma_fanout(self.bits);
            lemma_image_len(
                first,
                self.bits,
                key,
                at,
                Root::at(first).root_table_offset as int,
                key,
                64,
            );
            assert(first.len() == (if start.len() == ROOT_SIZE {
                start.len() + block_size(self.bits)
            } else {
                start.len() as int
            }));
        }
        let root_table_initialized = {
            let root = self.header();
            root.root_table_offset != 0
        };

        if !root_table_initialized {
            let index = self.append_table();
            proof {
                assert forall|i: int| 0 <= i < ROOT_SIZE implies self.index@[i] == start[i] by {
                    assert(self.index@.subrange(0, ROOT_SIZE as int)[i] == self.index@[i]);
                }
            }
            let mut root = self.header();
            root.set_table_offset(index);
            let ghost grown = self.index@;
            root.write(&mut self.index);
            proof {
                assert forall|i: int| 4 <= i < 8 implies self.index@[i] == 0 by {
                    assert(self.index@[i] == grown[i]);
                    assert(grown[i] == start[i]);
                    assert(start[i] == 0);
                }
                lemma_first_table(start, self.index@, self.bits, offsets, self.shape@);
                self.shape@ = rooted(self.shape@);
                // Now it is initialized.
            }
        }
        let mut remaining_bits: usize = 64;
        let mut running_key = key;
        let mut table_index = {
            let header = self.header();
            header.root_table_offset
        };
        let ghost mut walk = Walk {
            path: Set::<int>::empty().insert(ROOT_SIZE as int),
            cur: ROOT_SIZE as int,
            running: key,
            remaining: 64,
            splits: 0,
            fresh: false,
        };
        proof {
            assert(self.index@ == with_first_table(start, self.bits));
            lemma_walk_start(self.index@, self.bits, offsets, self.shape@, start, key, at);
        }
        while remaining_bits != 0
            invariant
                self.bits == old(self).bits,
                start == old(self).index@,
                offsets == old(self).strings.offsets(),
                entries == old(self).shape@.entries,
                at == place_of(old(self).strings.values(), value@),
                target == inserted_index(start, self.bits, key, at),
                old(self).strings.wf(),
                old(self).strings.pool() == packed(old(self).strings.values()),
                target.len() + old(self).strings.pool().len() + (if entries.contains_key(key)
                    || old(self).strings.values().contains(value@) {
                    0nat
                } else {
                    entry(value@).len()
                }) <= usize::MAX,
                remaining_bits == 0 ==> self.follows(old(self), key, value@),
                remaining_bits != 0 ==> {
                    &&& walking(
                        self.index@,
                        self.bits,
                        offsets,
                        self.shape@,
                        start,
                        key,
                        walk,
                        at,
                        target,
                    )
                    &&& self.strings == old(self).strings
                    &&& self.shape@.entries == entries
                    &&& remaining_bits == walk.remaining
                    &&& running_key == walk.running
                    &&& table_index == walk.cur
                },
            decreases
                    if remaining_bits == 0 {
                        0
                    } else {
                        2 * remaining_bits + (if walk.fresh {
                            0int
                        } else {
                            1int
                        })
                    },
        {
            let ghost before = self.index@;
            let ghost shape = self.shape@;
            proof {
                lemma_walk_here(before, self.bits, offsets, shape, start, key, walk, at, target);
                lemma_fanout(self.bits);
            }
            let table = TableMut::overlay_mut(self.index.as_slice(), table_index);
            let index = table.index(running_key);
            // If it is empty, allocate string and put it here.
            // If it is already allocated, allocate new table and move string around.
            // If it is a table pointer, decrement and descend into table.
            let mut cell = table.cell(self.index.as_slice(), index);
            let cell_type = cell.get_type();
            assert(cell == here(before, self.bits, walk));
            match cell_type {
                cell::Type::Empty => {
                    let str_index = self.allocate_string(value);
                    cell.become_string_ptr(str_index, key);
                    table.cell_mut(&mut self.index, index, &cell);
                    proof {
                        lemma_walk_place(
                            before,
                            self.index@,
                            self.bits,
                            offsets,
                            self.strings.offsets(),
                            shape,
                            start,
                            key,
                            value@,
                            walk,
                            at,
                            target,
                        );
                        self.shape@ = placed(shape, walk.path, key, value@);
                        assert(self.shape@.entries.contains_key(key));
                        self.lemma_make_sound();
                    }
                    remaining_bits = 0;  // exit the loop.
                },
                cell::Type::StringPtr => {
                    // There's already a string here.  We need to replace the reference to that
                    // string in this cell with a reference to a newly-created table, and place
                    // that string in its appropriate place in the newly created table.  Once
                    // that's done, we won't try to insert the new string right away, but instead
                    // fall through and go through another loop iteration.
                    let (str_index, str_key) = cell.string_index_and_key();

                    // If it's a double insert, just return.
                    if str_key == key {
                        proof {
                            assert(self.shape@.entries.contains_key(key));
                            self.lemma_make_sound();
                        }
                        return ;
                    }
                    // Replace the string in this cell with a newly created table that
                    // holds it, then repeat this iteration.
                    self.deepen(&table, index, &cell, remaining_bits);
                    proof {
                        lemma_walk_split(
                            before,
                            self.index@,
                            self.bits,
                            offsets,
                            shape,
                            start,
                            key,
                            walk,
                            at,
                            target,
                        );
                        self.shape@ = deepened(
                            shape,
                            self.bits,
                            walk.cur,
                            index as int,
                            before.len() as int,
                            str_key,
                        );
                        walk = Walk { splits: walk.splits + 1, fresh: true, ..walk };
                    }
                },
                cell::Type::TablePtr => {
                    // The cell is a table pointer.  Follow the table pointer to the next
                    // table.  Trim the key from the LSB side, reduce the number of bits
                    // remaining and fall through into the next iteration.
                    proof {
                        lemma_walk_descend(
                            before,
                            self.bits,
                            offsets,
                            shape,
                            start,
                            key,
                            walk,
                            at,
                            target,
                        );
                    }
                    table_index = cell.table_index();
                    let table = TableMut::overlay_mut(self.index.as_slice(), table_index);
                    running_key = table.next_key(running_key);
                    remaining_bits = table.decrement_bits(remaining_bits);
                    proof {
                        walk = Walk {
                            path: walk.path.insert(table_index as int),
                            cur: table_index as int,
                            running: running_key,
                            remaining: remaining_bits as int,
                            splits: walk.splits,
                            fresh: false,
                        };
                    }
                },
                cell::Type::Unknown => {
                    remaining_bits = 0;
                },
            }
        }
    }

    /// Where there is space for any insert of `value`, there is room for
    /// the insert of `value` under `key`.
    pub proof fn lemma_space_is_room(&self, key: u64, value: Seq<char>)
        requires
            self.wf(),
            self.has_space(value),
        ensures
            self.has_room(key, value),
    {
        self.lemma_sound();
        lemma_fanout(self.bits);
        let start = self.index@;
        let bits = self.bits;
        let offsets = self.strings.offsets();
        let at = place_of(self.strings.values(), value);
        let first = with_first_table(start, bits);
        let target = inserted_index(start, bits, key, at);
        let shape = if start.len() == ROOT_SIZE {
            rooted(self.shape@)
        } else {
            self.shape@
        };
        if start.len() == ROOT_SIZE {
            let grown = start + fresh_table(bits);
            crate::codec::lemma_u32_round_trip(2);
            assert(header::TableHeader::at(first, ROOT_SIZE as int) == (header::TableHeader {
                htype: 2,
                bits: bits,
            })) by {
                let w = crate::codec::le_bytes_u32(2);
                assert(first[ROOT_SIZE as int] == w[0] && first[ROOT_SIZE + 1] == w[1]
                    && first[ROOT_SIZE + 2] == w[2] && first[ROOT_SIZE + 3] == w[3]);
                assert(first[ROOT_SIZE + 8] == bits);
            }
            assert forall|i: int| 4 <= i < 8 implies first[i] == 0 by {
                assert(first[i] == start[i]);
            }
            crate::codec::lemma_u32_round_trip(1);
            crate::codec::lemma_u64_round_trip(ROOT_SIZE as u64);
            crate::codec::lemma_u64_round_trip(0);
            assert(Root::at(first) == (Root {
                htype: 1,
                root_table_offset: ROOT_SIZE,
                string_offset: 0,
            })) by {
                lemma_stored_root(
                    grown,
                    Root { htype: 1, root_table_offset: ROOT_SIZE, string_offset: 0 },
                );
            }
            lemma_first_table(start, first, bits, offsets, self.shape@);
        }
        lemma_walk_start(first, bits, offsets, shape, start, key, at);
        lemma_target_bound(
            first,
            bits,
            offsets,
            shape,
            start,
            key,
            Walk {
                path: Set::<int>::empty().insert(ROOT_SIZE as int),
                cur: ROOT_SIZE as int,
                running: key,
                remaining: 64,
                splits: 0,
                fresh: false,
            },
            at,
            target,
        );
    }

    /// Inserts `value` under `key` if the machine can address what any
    /// insert of `value` may need, and says whether it did.
    pub fn try_insert(&mut self, key: u64, value: &str) -> (done: bool)
        requires
            old(self).wf(),
        ensures
            done == old(self).has_space(value@),
            done ==> final(self).follows(old(self), key, value@),
            !done ==> *final(self) == *old(self),
    {
        proof {
            self.lemma_sound();
            lemma_fanout(self.bits);
            if self.has_space(value@) {
                self.lemma_space_is_room(key, value@);
            }
        }
        let entries: u64 = 1u64 << (self.bits as u64);
        let block: usize = header::TABLE_HEADER_SIZE + (entries as usize) * cell::SIZE;
        let used: usize = self.index.len() + self.strings.len();
        let needed: usize = MAX_DEPTH * block;
        if usize::MAX - used < needed {
            return false;
        }
        let left: usize = usize::MAX - used - needed;
        let length: usize = value.as_bytes().len();
        proof {
            assert(entry(value@).len() == length + 1);
            assert(block == block_size(self.bits));
            assert(used == self.size());
        }
        if left <= length {
            return false;
        }
        self.insert(key, value);
        true
    }

    /// The finished buffer: the index, with the place where the strings
    /// start written into the root header if anything was inserted, and
    /// the pool of strings behind it.
    pub fn build(self) -> (bytes: Vec<u8>)
        requires
            self.wf(),
        ensures
            bytes@ == self.image(),
            represents(bytes@, self@),
            zero_init(bytes@),
            bytes@.len() == self.size(),
            Root::at(bytes@).htype == 1,
            Root::at(bytes@).root_table_offset == (if self.index_bytes().len() == ROOT_SIZE {
                0usize
            } else {
                ROOT_SIZE
            }),
            Root::at(bytes@).string_offset == (if self.index_bytes().len() == ROOT_SIZE {
                0
            } else {
                self.index_bytes().len()
            }),
            (self.index_bytes().len() == ROOT_SIZE) == (self@ == Map::<u64, Seq<char>>::empty()),
    {
        proof {
            self.lemma_sound();
        }
        let mut builder = self;
        let ghost before = self.index@;
        let ghost offsets = self.strings.offsets();
        let ghost pool = self.strings.pool();
        let ghost shape = self.shape@;
        let ghost bits = self.bits;
        {
            let len = builder.index.len();
            let mut root = builder.header();
            if root.root_table_offset != 0 {
                root.set_string_offset(len);
                root.write(&mut builder.index);
            }
        }
        let ghost ready = builder.index@;
        let mut result = builder.index;
        let mut strings: Vec<u8> = builder.strings.into();
        result.append(&mut strings);
        proof {
            let limit = before.len() as int;
            lemma_shape_frame(before, result@, limit, bits, offsets, offsets, shape);
            assert(Root::at(result@) == Root::at(ready));
            if limit > ROOT_SIZE {
                assert forall|v: Seq<char>| #[trigger] offsets.contains_key(v) implies holds_at(
                    result@,
                    limit + offsets[v],
                    v,
                ) by {
                    let off = offsets[v] as int;
                    assert(holds_at(pool, off, v));
                    assert(result@.subrange(limit + off, limit + off + entry(v).len())
                        =~= pool.subrange(off, off + entry(v).len()));
                }
            }
            lemma_represents(result@, limit, bits, offsets, shape);
            assert forall|i: int| 4 <= i < 8 implies result@[i] == 0 by {
                assert(result@[i] == ready[i]);
                assert(ready[i] == before[i]);
            }
            if limit > ROOT_SIZE {
                lemma_fanout(bits);
                lemma_table_at(result@, limit, bits, offsets, shape, ROOT_SIZE as int);
                lemma_blocks_clean(result@, limit, bits, offsets, shape, limit);
            }
        }
        result
    }
}


/// The buffer is not one that a builder made.
#[derive(Debug, PartialEq, Eq, Structural, Clone, Copy)]
pub struct Corruption;

/// A read-only map, backed by a linear buffer.  The contents of that buffer
/// are expected to have been generated with [`Builder`].
pub struct SequenceMap<'a> {
    rep: &'a [u8],
}

impl<'a> SequenceMap<'a> {
    /// The bytes of the buffer.
    pub closed spec fn bytes(&self) -> Seq<u8> {
        self.rep@
    }

    /// Creates a new map, with a representation based on the passed in slice
    /// `rep`, which must be long enough for the root header.
    pub fn new(rep: &'a [u8]) -> (map: SequenceMap<'a>)
        requires
            rep@.len() >= ROOT_SIZE,
        ensures
            map.bytes() == rep@,
    {
        SequenceMap { rep }
    }

    /// Looks up `key`, returning the found value in the form of a C string:
    /// its bytes, and the zero byte that ends it.
    pub fn get_cstr(&self, key: u64) -> (found: Option<&'a [u8]>)
        requires
            lookup(self.bytes(), key) != Found::Corrupt,
        ensures
            match lookup(self.bytes(), key) {
                Found::Hit(s) => found matches Some(c) && c@ == s.push(0u8),
                _ => found is None,
            },
    {
        let (table_index, string_offset) = {
            let header = self.header();
            (header.root_table_offset, header.string_offset)
        };
        if table_index == 0 {
            return None;
        }
        let total: usize = self.rep.len();
        let mut remaining_bits: usize = 64;
        let mut running_key = key;
        let mut running_table_index = table_index;
        while remaining_bits != 0
            invariant
                total == self.rep@.len(),
                remaining_bits <= 64,
                lookup(self.rep@, key) != Found::Corrupt,
                lookup(self.rep@, key) == walk(
                    self.rep@,
                    key,
                    running_table_index as int,
                    running_key,
                    remaining_bits as int,
                    string_offset as int,
                ),
            decreases remaining_bits,
        {
            let ghost b = self.rep@;
            let ghost t = running_table_index as int;
            assert(table_at(b, t));
            let block = vstd::slice::slice_subrange(self.rep, running_table_index, total);
            proof {
                lemma_fanout(b[t + 8]);
                assert(block@[8] == b[t + 8]);
                assert(table_at(block@, 0));
            }
            let table = Table::overlay(block);
            let index = table.index(running_key);
            let cell = table.cell(index);
            proof {
                lemma_cell_range(table.header.bits, t, index as int);
                assert(table.cells@.subrange(cell::SIZE * index, cell::SIZE * index + cell::SIZE)
                    =~= b.subrange(
                    cell_offset(t, index as int),
                    cell_offset(t, index as int) + cell::SIZE,
                ));
                cell::Instance::lemma_same_bytes(
                    table.cells@,
                    cell::SIZE * index,
                    b,
                    cell_offset(t, index as int),
                );
            }
            let cell_type = cell.get_type();
            match cell_type {
                cell::Type::Empty => {
                    return None;
                },
                cell::Type::StringPtr => {
                    let (string_index, string_key) = cell.string_index_and_key();
                    match key == string_key {
                        false => return None,
                        true => {
                            // Find that string.
                            let string_index = string_offset + string_index;
                            let rest = vstd::slice::slice_subrange(self.rep, string_index, total);
                            proof {
                                lemma_c_str_suffix(b, string_index as int);
                            }
                            let s = string_slice::String::over(rest);
                            let cstr = s.content();
                            proof {
                                assert(cstr@ =~= c_str(b, string_index as int).push(0u8));
                            }
                            return Some(cstr);
                        },
                    }
                },
                cell::Type::TablePtr => {
                    remaining_bits = table.decrement_bits(remaining_bits);
                    running_key = table.next_key(running_key);
                    running_table_index = cell.table_index();
                    // Descend one level deeper.
                },
                cell::Type::Unknown => {
                    return None;
                },
            }
        }
        None
    }

    /// Looks up `key` in the map, returning the found string if possible.
    pub fn get(&self, key: u64) -> (found: Option<&'a str>)
        requires
            lookup(self.bytes(), key) != Found::Corrupt,
            lookup(self.bytes(), key) matches Found::Hit(s) ==> valid_utf8(s),
        ensures
            match lookup(self.bytes(), key) {
                Found::Hit(s) => found matches Some(text) && text@ == decode_utf8(s),
                _ => found is None,
            },
    {
        match self.get_cstr(key) {
            Some(cstr) => {
                proof {
                    let s = lookup(self.bytes(), key)->Hit_0;
                    assert(nul_at(cstr@, 0, s.len() as int)) by {
                        lemma_hit_plain(self.bytes(), key);
                    }
                    lemma_nul_unique(cstr@, 0, s.len() as int);
                    assert(cstr@.subrange(0, s.len() as int) =~= s);
                    assert(cstr@.drop_last() =~= s);
                }
                Some(string_slice::String::over(cstr).to_str())
            },
            None => None,
        }
    }

    /// Looks up `key` in a buffer of any origin: finds what `get_cstr` finds
    /// where the buffer is sound along the way of the key, and tells where
    /// it is not.
    #[verifier::rlimit(40)]
    pub fn try_get_cstr(&self, key: u64) -> (found: Result<Option<&'a [u8]>, Corruption>)
        ensures
            match lookup(self.bytes(), key) {
                Found::Hit(s) => found matches Ok(Some(c)) && c@ == s.push(0u8),
                Found::Miss => found == Ok::<Option<&'a [u8]>, Corruption>(None),
                Found::Corrupt => found is Err,
            },
    {
        let total: usize = self.rep.len();
        if total < ROOT_SIZE {
            return Err(Corruption);
        }
        let header = self.header();
        if header.htype != header::Type::Root.code() {
            return Err(Corruption);
        }
        let string_offset = header.string_offset;
        if header.root_table_offset == 0 {
            return Ok(None);
        }
        let mut remaining_bits: usize = 64;
        let mut running_key = key;
        let mut running_table_index = header.root_table_offset;
        while remaining_bits != 0
            invariant
                total == self.rep@.len(),
                remaining_bits <= 64,
                lookup(self.rep@, key) == walk(
                    self.rep@,
                    key,
                    running_table_index as int,
                    running_key,
                    remaining_bits as int,
                    string_offset as int,
                ),
            decreases remaining_bits,
        {
            let ghost b = self.rep@;
            let ghost t = running_table_index as int;
            if running_table_index > total || total - running_table_index
                < header::TABLE_HEADER_SIZE {
                return Err(Corruption);
            }
            let table_header = header::TableHeader::read(self.rep, running_table_index);
            if table_header.htype != header::Type::Table.code() || table_header.bits < 1
                || table_header.bits > header::MAX_BITS {
                return Err(Corruption);
            }
            proof {
                lemma_fanout(table_header.bits);
            }
            let elems: u64 = 1u64 << (table_header.bits as u64);
            let size: usize = header::TABLE_HEADER_SIZE + (elems as usize) * cell::SIZE;
            if total - running_table_index < size {
                return Err(Corruption);
            }
            assert(table_at(b, t));
            let block = vstd::slice::slice_subrange(self.rep, running_table_index, total);
            proof {
                assert(block@[8] == b[t + 8]);
                assert(table_at(block@, 0));
            }
            let table = Table::overlay(block);
            let index = table.index(running_key);
            let cell = table.cell(index);
            proof {
                lemma_cell_range(table.header.bits, t, index as int);
                assert(table.cells@.subrange(cell::SIZE * index, cell::SIZE * index + cell::SIZE)
                    =~= b.subrange(
                    cell_offset(t, index as int),
                    cell_offset(t, index as int) + cell::SIZE,
                ));
                cell::Instance::lemma_same_bytes(
                    table.cells@,
                    cell::SIZE * index,
                    b,
                    cell_offset(t, index as int),
                );
            }
            match cell.get_type() {
                cell::Type::Empty => {
                    return Ok(None);
                },
                cell::Type::StringPtr => {
                    let (string_index, string_key) = cell.string_index_and_key();
                    if key != string_key {
                        return Ok(None);
                    }
                    if string_index > total || string_offset > total - string_index {
                        return Err(Corruption);
                    }
                    let start: usize = string_offset + string_index;
                    let mut end: usize = start;
                    while end < total && self.rep[end] != 0
                        invariant
                            start <= end <= total,
                            total == self.rep@.len(),
                            forall|i: int| start <= i < end ==> self.rep@[i] != 0,
                        decreases total - end,
                    {
                        end = end + 1;
                    }
                    if end == total {
                        proof {
                            if has_nul(b, start as int) {
                                let e = nul_pos(b, start as int);
                                assert(nul_at(b, start as int, e));
                                assert(b[e] != 0);
                            }
                        }
                        return Err(Corruption);
                    }
                    proof {
                        assert(nul_at(b, start as int, end as int));
                        lemma_nul_unique(b, start as int, end as int);
                    }
                    let cstr = vstd::slice::slice_subrange(self.rep, start, end + 1);
                    proof {
                        assert(cstr@ =~= c_str(b, start as int).push(0u8));
                    }
                    return Ok(Some(cstr));
                },
                cell::Type::TablePtr => {
                    remaining_bits = table.decrement_bits(remaining_bits);
                    running_key = table.next_key(running_key);
                    running_table_index = cell.table_index();
                },
                cell::Type::Unknown => {
                    return Err(Corruption);
                },
            }
        }
        Ok(None)
    }

    /// Looks up `key` in a buffer of any origin: finds what `get` finds
    /// where the buffer is sound along the way of the key and the string is
    /// valid UTF-8, and tells where that is not so.
    pub fn try_get(&self, key: u64) -> (found: Result<Option<&'a str>, Corruption>)
        ensures
            match lookup(self.bytes(), key) {
                Found::Hit(s) => if valid_utf8(s) {
                    found matches Ok(Some(text)) && text@ == decode_utf8(s)
                } else {
                    found is Err
                },
                Found::Miss => found == Ok::<Option<&'a str>, Corruption>(None),
                Found::Corrupt => found is Err,
            },
    {
        match self.try_get_cstr(key) {
            Ok(Some(cstr)) => {
                proof {
                    let s = lookup(self.bytes(), key)->Hit_0;
                    assert(nul_at(cstr@, 0, s.len() as int)) by {
                        lemma_hit_plain(self.bytes(), key);
                    }
                    lemma_nul_unique(cstr@, 0, s.len() as int);
                    assert(cstr@.subrange(0, s.len() as int) =~= s);
                    assert(cstr@.drop_last() =~= s);
                }
                match string_slice::String::over(cstr).try_to_str() {
                    Some(text) => Ok(Some(text)),
                    None => Err(Corruption),
                }
            },
            Ok(None) => Ok(None),
            Err(e) => Err(e),
        }
    }

    fn header(&self) -> (root: Root)
        requires
            self.rep@.len() >= ROOT_SIZE,
        ensures
            root == Root::at(self.rep@),
    {
        Root::read(self.rep)
    }
}

} // verus!
