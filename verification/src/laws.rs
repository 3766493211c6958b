//! What holds of every builder and of every buffer that a builder makes.

use crate::string_slice::{c_str, cut, entry, lemma_cut_plain, lemma_entry_cut, packed};
use crate::trie::{expected, lookup, represents, Found};
use crate::Builder;
use vstd::prelude::*;
use vstd::utf8::{decode_utf8, encode_utf8, valid_utf8};

verus! {

/// The entries that a builder holds after these inserts, made in their
/// order on a builder that held nothing: of two pairs with one key, the
/// first stays.
pub open spec fn model_of(pairs: Seq<(u64, Seq<char>)>) -> Map<u64, Seq<char>>
    decreases pairs.len(),
{
    if pairs.len() == 0 {
        Map::<u64, Seq<char>>::empty()
    } else {
        let m = model_of(pairs.drop_last());
        if m.contains_key(pairs.last().0) {
            m
        } else {
            m.insert(pairs.last().0, pairs.last().1)
        }
    }
}

/// `states` are the states of a builder before and after each of the
/// inserts of `pairs`, made in their order.
pub open spec fn inserted(states: Seq<Builder>, pairs: Seq<(u64, Seq<char>)>) -> bool
    decreases pairs.len(),
{
    &&& states.len() == pairs.len() + 1
    &&& pairs.len() > 0 ==> {
        &&& states.last().follows(
            &states[states.len() - 2],
            pairs.last().0,
            pairs.last().1,
        )
        &&& inserted(states.drop_last(), pairs.drop_last())
    }
}

/// No string of `pairs` holds a zero character.
pub open spec fn plain(pairs: Seq<(u64, Seq<char>)>) -> bool {
    forall|i: int, j: int|
        0 <= i < pairs.len() && 0 <= j < pairs[i].1.len() ==> #[trigger] pairs[i].1[j] != '\0'
}

/// No two of `pairs` have one key.
pub open spec fn distinct_keys(pairs: Seq<(u64, Seq<char>)>) -> bool {
    forall|i: int, j: int|
        0 <= i < j < pairs.len() ==> #[trigger] pairs[i].0 != #[trigger] pairs[j].0
}

/// A builder that held nothing holds, after a run of inserts, what the
/// model says of them, whatever its number of bits.
pub proof fn lemma_inserted_view(states: Seq<Builder>, pairs: Seq<(u64, Seq<char>)>)
    requires
        inserted(states, pairs),
        states[0]@ == Map::<u64, Seq<char>>::empty(),
    ensures
        states.last()@ == model_of(pairs),
        states.last().spec_bits() == states[0].spec_bits(),
        pairs.len() > 0 ==> states.last().wf(),
    decreases pairs.len(),
{
    if pairs.len() > 0 {
        let before = states.drop_last();
        assert(before[0] == states[0]);
        assert(before.last() == states[states.len() - 2]);
        lemma_inserted_view(before, pairs.drop_last());
    }
}

/// The model holds a key if and only if some pair has it, and then with
/// the string of the first such pair.
pub proof fn lemma_model_first(pairs: Seq<(u64, Seq<char>)>, key: u64)
    ensures
        model_of(pairs).contains_key(key) <==> exists|i: int|
            0 <= i < pairs.len() && #[trigger] pairs[i].0 == key,
        forall|i: int|
            0 <= i < pairs.len() && #[trigger] pairs[i].0 == key && (forall|j: int|
                0 <= j < i ==> #[trigger] pairs[j].0 != key) ==> model_of(pairs)[key]
                == pairs[i].1,
    decreases pairs.len(),
{
    if pairs.len() > 0 {
        let rest = pairs.drop_last();
        let n = rest.len() as int;
        lemma_model_first(rest, key);
        assert forall|i: int| 0 <= i < n implies rest[i] == pairs[i] by {}
        if model_of(rest).contains_key(key) {
            let i = choose|i: int| 0 <= i < rest.len() && #[trigger] rest[i].0 == key;
            assert(pairs[i].0 == key);
        }
        if pairs.last().0 == key {
            assert(pairs[n].0 == key);
        }
        if exists|i: int| 0 <= i < pairs.len() && #[trigger] pairs[i].0 == key {
            let i = choose|i: int| 0 <= i < pairs.len() && #[trigger] pairs[i].0 == key;
            if i < n {
                assert(rest[i].0 == key);
            }
        }
        assert forall|i: int|
            0 <= i < pairs.len() && #[trigger] pairs[i].0 == key && (forall|j: int|
                0 <= j < i ==> #[trigger] pairs[j].0 != key) implies model_of(pairs)[key]
            == pairs[i].1 by {
            if i < n {
                assert(rest[i].0 == key);
                assert forall|j: int| 0 <= j < i implies #[trigger] rest[j].0 != key by {
                    assert(pairs[j].0 != key);
                }
            } else {
                if model_of(rest).contains_key(key) {
                    let j = choose|j: int| 0 <= j < rest.len() && #[trigger] rest[j].0 == key;
                    assert(pairs[j].0 == key);
                }
            }
        }
    }
}

/// A buffer that stands for some entries is sound along the way of every
/// key, and every string that is found in it is text: a reader may look up
/// any key.
pub proof fn lemma_readable(bytes: Seq<u8>, entries: Map<u64, Seq<char>>, key: u64)
    requires
        represents(bytes, entries),
    ensures
        lookup(bytes, key) != Found::Corrupt,
        lookup(bytes, key) matches Found::Hit(s) ==> valid_utf8(s),
{
    assert(lookup(bytes, key) == expected(entries, key));
    if entries.contains_key(key) {
        lemma_entry_cut(entries[key]);
    }
}

/// What is found under a key that was inserted is the UTF-8 bytes of its
/// string up to the first zero character, which a reader decodes to that
/// part of the string; under a key that was not inserted nothing is found.
pub proof fn lemma_found(bytes: Seq<u8>, entries: Map<u64, Seq<char>>, key: u64)
    requires
        represents(bytes, entries),
    ensures
        entries.contains_key(key) ==> {
            &&& lookup(bytes, key) == Found::Hit(encode_utf8(cut(entries[key])))
            &&& valid_utf8(encode_utf8(cut(entries[key])))
            &&& decode_utf8(encode_utf8(cut(entries[key]))) == cut(entries[key])
        },
        !entries.contains_key(key) ==> lookup(bytes, key) == Found::Miss,
{
    assert(lookup(bytes, key) == expected(entries, key));
    if entries.contains_key(key) {
        lemma_entry_cut(entries[key]);
    }
}

/// In a buffer that stands for pairs with distinct keys and
/// strings without a zero character, the lookup for the key of each pair
/// finds the UTF-8 bytes of its string, which a reader decodes to the
/// string; the lookup for any other key finds nothing.
pub proof fn lemma_round_trip(bytes: Seq<u8>, pairs: Seq<(u64, Seq<char>)>)
    requires
        represents(bytes, model_of(pairs)),
        distinct_keys(pairs),
        plain(pairs),
    ensures
        forall|i: int|
            0 <= i < pairs.len() ==> {
                &&& #[trigger] lookup(bytes, pairs[i].0) == Found::Hit(encode_utf8(pairs[i].1))
                &&& valid_utf8(encode_utf8(pairs[i].1))
                &&& decode_utf8(encode_utf8(pairs[i].1)) == pairs[i].1
            },
        forall|key: u64|
            (forall|i: int| 0 <= i < pairs.len() ==> #[trigger] pairs[i].0 != key)
                ==> #[trigger] lookup(bytes, key) == Found::Miss,
{
    assert forall|i: int| 0 <= i < pairs.len() implies {
        &&& #[trigger] lookup(bytes, pairs[i].0) == Found::Hit(encode_utf8(pairs[i].1))
        &&& valid_utf8(encode_utf8(pairs[i].1))
        &&& decode_utf8(encode_utf8(pairs[i].1)) == pairs[i].1
    } by {
        let key = pairs[i].0;
        lemma_model_first(pairs, key);
        assert(lookup(bytes, key) == expected(model_of(pairs), key));
        assert(forall|j: int| 0 <= j < i ==> #[trigger] pairs[j].0 != key);
        assert(model_of(pairs)[key] == pairs[i].1);
        assert forall|j: int| 0 <= j < pairs[i].1.len() implies pairs[i].1[j] != '\0' by {}
        lemma_cut_plain(pairs[i].1);
        lemma_entry_cut(pairs[i].1);
    }
    assert forall|key: u64|
        (forall|i: int| 0 <= i < pairs.len() ==> #[trigger] pairs[i].0 != key)
        implies #[trigger] lookup(bytes, key) == Found::Miss by {
        lemma_model_first(pairs, key);
        assert(lookup(bytes, key) == expected(model_of(pairs), key));
    }
}

/// A buffer that stands for some inserts answers a key
/// with the string of the first insert under that key, up to the first
/// zero byte of its UTF-8 bytes.
pub proof fn lemma_first_write_wins(bytes: Seq<u8>, pairs: Seq<(u64, Seq<char>)>, i: int)
    requires
        represents(bytes, model_of(pairs)),
        0 <= i < pairs.len(),
        forall|j: int| 0 <= j < i ==> #[trigger] pairs[j].0 != pairs[i].0,
    ensures
        lookup(bytes, pairs[i].0) == Found::Hit(c_str(entry(pairs[i].1), 0)),
{
    let key = pairs[i].0;
    lemma_model_first(pairs, key);
    assert(lookup(bytes, key) == expected(model_of(pairs), key));
}

/// A second insert under a key changes neither the entries nor the index.
pub proof fn lemma_second_insert(
    before: Builder,
    first: Builder,
    second: Builder,
    key: u64,
    v1: Seq<char>,
    v2: Seq<char>,
)
    requires
        first.follows(&before, key, v1),
        second.follows(&first, key, v2),
    ensures
        second@ == first@,
        second@.contains_key(key),
        !before@.contains_key(key) ==> second@[key] == v1,
        second.index_bytes() == first.index_bytes(),
        second.interned() == first.interned(),
        second.image() == first.image(),
{
}

/// What is found does not depend on the number of bits: two buffers that
/// stand for the same entries answer every key alike.
pub proof fn lemma_bits_invariance(x: Seq<u8>, y: Seq<u8>, entries: Map<u64, Seq<char>>)
    requires
        represents(x, entries),
        represents(y, entries),
    ensures
        forall|key: u64| #[trigger] lookup(x, key) == lookup(y, key),
{
    assert forall|key: u64| #[trigger] lookup(x, key) == lookup(y, key) by {
        assert(lookup(x, key) == expected(entries, key));
        assert(lookup(y, key) == expected(entries, key));
    }
}

/// Two builders with different numbers of bits that took the same inserts
/// hold the same entries.
pub proof fn lemma_same_inserts(
    a: Seq<Builder>,
    b: Seq<Builder>,
    pairs: Seq<(u64, Seq<char>)>,
)
    requires
        inserted(a, pairs),
        inserted(b, pairs),
        a[0]@ == Map::<u64, Seq<char>>::empty(),
        b[0]@ == Map::<u64, Seq<char>>::empty(),
    ensures
        a.last()@ == b.last()@,
{
    lemma_inserted_view(a, pairs);
    lemma_inserted_view(b, pairs);
}

/// Inserting is a function of the state: the same insert into two builders
/// with the same bits, the same entries, the same index and the same
/// strings leaves them the same again.
pub proof fn lemma_insert_repeats(
    a: Builder,
    b: Builder,
    after_a: Builder,
    after_b: Builder,
    key: u64,
    value: Seq<char>,
)
    requires
        a.spec_bits() == b.spec_bits(),
        a@ == b@,
        a.index_bytes() == b.index_bytes(),
        a.interned() == b.interned(),
        after_a.follows(&a, key, value),
        after_b.follows(&b, key, value),
    ensures
        after_a.spec_bits() == after_b.spec_bits(),
        after_a@ == after_b@,
        after_a.index_bytes() == after_b.index_bytes(),
        after_a.interned() == after_b.interned(),
        after_a.image() == after_b.image(),
{
}

/// Two builders with the same bits that held nothing and took
/// the same inserts in the same order build the same buffer, byte for byte.
pub proof fn lemma_same_image(a: Seq<Builder>, b: Seq<Builder>, pairs: Seq<(u64, Seq<char>)>)
    requires
        inserted(a, pairs),
        inserted(b, pairs),
        a[0].spec_bits() == b[0].spec_bits(),
        a[0]@ == b[0]@,
        a[0].index_bytes() == b[0].index_bytes(),
        a[0].interned() == b[0].interned(),
    ensures
        a.last()@ == b.last()@,
        a.last().index_bytes() == b.last().index_bytes(),
        a.last().interned() == b.last().interned(),
        a.last().spec_bits() == b.last().spec_bits(),
        a.last().image() == b.last().image(),
    decreases pairs.len(),
{
    if pairs.len() > 0 {
        let a0 = a.drop_last();
        let b0 = b.drop_last();
        assert(a0[0] == a[0] && b0[0] == b[0]);
        assert(a0.last() == a[a.len() - 2] && b0.last() == b[b.len() - 2]);
        lemma_same_image(a0, b0, pairs.drop_last());
        lemma_insert_repeats(
            a0.last(),
            b0.last(),
            a.last(),
            b.last(),
            pairs.last().0,
            pairs.last().1,
        );
    }
}

/// Building is a function of the state: builders with the same index and
/// the same strings build the same buffer.
pub proof fn lemma_build_repeats(a: Builder, b: Builder)
    requires
        a.index_bytes() == b.index_bytes(),
        a.interned() == b.interned(),
    ensures
        a.image() == b.image(),
{
}

/// An insert never shrinks what `build` returns.
pub proof fn lemma_size_grows(before: Builder, after: Builder, key: u64, value: Seq<char>)
    requires
        after.follows(&before, key, value),
    ensures
        before.size() <= after.size(),
        after.size() <= before.size() + crate::MAX_DEPTH * crate::header::block_size(
            before.spec_bits(),
        ) + entry(value).len(),
{
    let values = before.interned();
    if after.interned() != values {
        assert(values.push(value).drop_last() =~= values);
    }
}

/// A buffer that stands for no entry answers no key.
pub proof fn lemma_empty_map(bytes: Seq<u8>, key: u64)
    requires
        represents(bytes, Map::<u64, Seq<char>>::empty()),
    ensures
        lookup(bytes, key) == Found::Miss,
{
    assert(lookup(bytes, key) == expected(Map::<u64, Seq<char>>::empty(), key));
}

/// The pool holds each string once. After an insert of a
/// string that the pool holds, the pool is what it was.
pub proof fn lemma_deduplicated(before: Builder, after: Builder, key: u64, value: Seq<char>)
    requires
        before.wf(),
        after.follows(&before, key, value),
        before.interned().contains(value),
    ensures
        after.interned() == before.interned(),
        after.interned().no_duplicates(),
        packed(after.interned()) == packed(before.interned()),
{
    after.lemma_interned_distinct();
}

} // verus!
