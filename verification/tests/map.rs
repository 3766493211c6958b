use sequence_map::{Builder, Corruption, SequenceMap};
use std::collections::BTreeMap;

#[test]
fn lib_basic() {
    let mut builder = Builder::new(2);
    builder.insert(42, "Hello!");
    builder.insert(84, "World!");
    let expected: Vec<u8> = vec![
        1, 0, 0, 0, 0, 0, 0, 0, 24, 0, 0, 0, 0, 0, 0, 0, 108, 0, 0, 0, 0, 0, 0, 0, 2, 0, 0, 0,
        0, 0, 0, 0, 2, 0, 0, 0, 0, 0, 0, 0, 1, 7, 0, 0, 0, 0, 0, 0, 0, 84, 0, 0, 0, 0, 0, 0, 0,
        0, 0, 0, 0, 0, 0, 0, 0, 0, 0, 0, 0, 0, 0, 0, 0, 0, 1, 0, 0, 0, 0, 0, 0, 0, 0, 42, 0, 0,
        0, 0, 0, 0, 0, 0, 0, 0, 0, 0, 0, 0, 0, 0, 0, 0, 0, 0, 0, 0, 0, 0, 72, 101, 108, 108,
        111, 33, 0, 87, 111, 114, 108, 100, 33, 0,
    ];
    assert_eq!(expected, builder.build());
}

#[test]
fn no_insert() {
    let builder = Builder::new(2);
    builder.build();
}

#[test]
fn get_one_string() {
    let mut builder = Builder::new(2);
    builder.insert(42, "Hello!");
    let bytes = builder.build();
    let lookup = SequenceMap::new(&bytes);
    assert_eq!("Hello!", lookup.get(42).unwrap());
    assert!(lookup.get(100).is_none());
}

#[test]
fn double_insert() {
    let mut builder = Builder::new(2);
    builder.insert(42, "Hello!");
    builder.insert(42, "World!");
    let bytes = builder.build();
    let lookup = SequenceMap::new(&bytes);
    assert_eq!("Hello!", lookup.get(42).unwrap());
}

#[test]
fn get_two_strings() {
    let mut builder = Builder::new(7);
    builder.insert(0x11_11_11, "World!");
    builder.insert(0x22, "Again!!");
    builder.insert(0x11, "Yadda!");
    builder.insert(0x11_11, "Diddy!");
    let bytes = builder.build();
    let lookup = SequenceMap::new(&bytes);
    assert_eq!("Yadda!", lookup.get(0x11).unwrap());
    assert_eq!("Diddy!", lookup.get(0x11_11).unwrap());
    assert_eq!("Again!!", lookup.get(0x22).unwrap());
    assert_eq!("World!", lookup.get(0x11_11_11).unwrap());
}

fn insert_and_lookup_random_strings(bits: usize) {
    let mut reference_map = BTreeMap::new();
    let mut builder = Builder::new(bits);
    for entry in 0..1000 {
        let entry_str = format!("entry_{}", entry);
        reference_map.insert(entry, entry_str.clone());
        builder.insert(entry, &entry_str);
    }

    let buffer = builder.build();
    let lookup = SequenceMap::new(&buffer);
    for (key, value) in &reference_map {
        assert_eq!(
            lookup.get(*key).unwrap(),
            *value,
            "while looking up: key={}, value={}, bits={}",
            key,
            value,
            bits
        );
    }
}

#[test]
fn test_insert_and_lookup_for_bits() {
    for bits in 2..16 {
        insert_and_lookup_random_strings(bits);
    }
}

#[test]
fn empty_map_answers_nothing() {
    for bits in [2usize, 8, 16] {
        let bytes = Builder::new(bits).build();
        assert_eq!(
            bytes,
            vec![1, 0, 0, 0, 0, 0, 0, 0, 0, 0, 0, 0, 0, 0, 0, 0, 0, 0, 0, 0, 0, 0, 0, 0]
        );
        let lookup = SequenceMap::new(&bytes);
        for key in [0u64, 1, 42, u64::MAX] {
            assert!(lookup.get(key).is_none());
            assert_eq!(lookup.try_get(key), Ok(None));
        }
    }
}

#[test]
fn smallest_and_largest_bits() {
    for bits in [2usize, 16] {
        let mut builder = Builder::new(bits);
        builder.insert(7, "seven");
        builder.insert(7 + (1 << 16), "far");
        let bytes = builder.build();
        let lookup = SequenceMap::new(&bytes);
        assert_eq!(lookup.get(7), Some("seven"));
        assert_eq!(lookup.get(7 + (1 << 16)), Some("far"));
        assert_eq!(lookup.get(8), None);
    }
}

#[test]
fn extreme_keys_round_trip() {
    for bits in 2..=16usize {
        let mut builder = Builder::new(bits);
        builder.insert(0, "zero");
        builder.insert(u64::MAX, "max");
        let bytes = builder.build();
        let lookup = SequenceMap::new(&bytes);
        assert_eq!(lookup.get(0), Some("zero"));
        assert_eq!(lookup.get(u64::MAX), Some("max"));
        assert_eq!(lookup.get(1), None);
        assert_eq!(lookup.get(u64::MAX - 1), None);
    }
}

#[test]
fn high_bit_forces_deepest_split() {
    let mut builder = Builder::new(2);
    builder.insert(0, "low");
    let one_table = builder.build().len();
    // header, one table of four cells, the string
    assert_eq!(one_table, 24 + (16 + 4 * 17) + 4);

    let mut builder = Builder::new(2);
    builder.insert(0, "low");
    builder.insert(1 << 63, "high");
    let bytes = builder.build();
    // The keys agree on 62 bits: 31 tables of two bits each are passed
    // before they part in the 32nd.
    assert_eq!(bytes.len(), 24 + 32 * (16 + 4 * 17) + 4 + 5);
    let lookup = SequenceMap::new(&bytes);
    assert_eq!(lookup.get(0), Some("low"));
    assert_eq!(lookup.get(1 << 63), Some("high"));
    assert_eq!(lookup.get(1 << 62), None);
}

#[test]
fn bits_do_not_change_what_is_found() {
    let pairs: Vec<(u64, String)> =
        (0..200u64)
            .map(|i| (i.wrapping_mul(0x9E37_79B9_7F4A_7C15), format!("v{}", i % 17)))
            .collect();
    let mut images: Vec<Vec<u8>> = Vec::new();
    for bits in 2..=16usize {
        let mut builder = Builder::new(bits);
        for (key, value) in &pairs {
            builder.insert(*key, value);
        }
        images.push(builder.build());
    }
    for probe in 0..400u64 {
        let key = if probe < 200 { pairs[probe as usize].0 } else { probe };
        let first = SequenceMap::new(&images[0]).get(key);
        for image in &images {
            assert_eq!(SequenceMap::new(image).get(key), first);
        }
    }
}

#[test]
fn building_twice_gives_the_same_bytes() {
    let make = || {
        let mut builder = Builder::new(5);
        for i in 0..300u64 {
            builder.insert(i * 31, &format!("value {}", i % 40));
        }
        builder.build()
    };
    assert_eq!(make(), make());
}

#[test]
fn equal_strings_are_stored_once() {
    let mut builder = Builder::new(4);
    builder.insert(1, "same");
    builder.insert(2, "same");
    builder.insert(3, "other");
    builder.insert(4, "same");
    let bytes = builder.build();
    let strings = 24 + 16 + 16 * 17;
    assert_eq!(&bytes[strings..], b"same\0other\0");
    let lookup = SequenceMap::new(&bytes);
    assert_eq!(lookup.get(1), Some("same"));
    assert_eq!(lookup.get(2), Some("same"));
    assert_eq!(lookup.get(3), Some("other"));
    assert_eq!(lookup.get(4), Some("same"));
}

#[test]
fn unwritten_bytes_are_zero() {
    let mut builder = Builder::new(2);
    builder.insert(42, "Hello!");
    builder.insert(84, "World!");
    builder.insert(42 + 4, "Again!");
    let bytes = builder.build();
    let block = 16 + 4 * 17;
    let strings = u64::from_le_bytes(bytes[16..24].try_into().unwrap()) as usize;
    assert_eq!((strings - 24) % block, 0);
    assert_eq!(&bytes[4..8], &[0, 0, 0, 0]);
    let mut table = 24;
    while table < strings {
        assert_eq!(&bytes[table + 4..table + 8], &[0, 0, 0, 0]);
        assert_eq!(&bytes[table + 9..table + 16], &[0, 0, 0, 0, 0, 0, 0]);
        for slot in 0..4 {
            let cell = table + 16 + slot * 17;
            match bytes[cell] {
                0 => assert!(bytes[cell..cell + 17].iter().all(|b| *b == 0)),
                2 => assert!(bytes[cell + 9..cell + 17].iter().all(|b| *b == 0)),
                tag => assert_eq!(tag, 1),
            }
        }
        table += block;
    }
}

#[test]
fn many_entries_at_eight_bits() {
    let mut builder = Builder::new(8);
    for i in 0..50_000u64 {
        let key = i.wrapping_mul(0x2545_F491_4F6C_DD1D);
        assert!(builder.try_insert(key, &format!("entry_{}", i)));
        if i % 5000 == 0 {
            // a second insert under the key changes nothing
            assert!(builder.try_insert(key, "other"));
        }
    }
    let bytes = builder.build();
    let lookup = SequenceMap::new(&bytes);
    for i in 0..50_000u64 {
        let key = i.wrapping_mul(0x2545_F491_4F6C_DD1D);
        assert_eq!(lookup.get(key).unwrap(), format!("entry_{}", i));
    }
}

#[test]
fn buffer_grows_with_each_new_key() {
    let mut last = Builder::new(3).build().len();
    for count in 1..40u64 {
        let mut builder = Builder::new(3);
        for i in 0..count {
            builder.insert(i * 8, &format!("entry_{}", i));
        }
        let size = builder.build().len();
        assert!(size > last);
        last = size;
    }
}

#[test]
fn string_with_a_zero_character_is_cut() {
    let mut builder = Builder::new(2);
    builder.insert(5, "ab\0cd");
    let bytes = builder.build();
    let lookup = SequenceMap::new(&bytes);
    assert_eq!(lookup.get(5), Some("ab"));
    assert_eq!(lookup.get_cstr(5), Some(&b"ab\0"[..]));
}

#[test]
fn corrupt_buffers_are_told() {
    let mut builder = Builder::new(2);
    builder.insert(42, "Hello!");
    let good = builder.build();
    assert_eq!(SequenceMap::new(&good).try_get(42), Ok(Some("Hello!")));
    assert_eq!(SequenceMap::new(&good).try_get(43), Ok(None));

    // a root header of another type
    let mut bad = good.clone();
    bad[0] = 7;
    assert_eq!(SequenceMap::new(&bad).try_get(42), Err(Corruption));

    // an unknown cell tag: key 42 selects cell 2 of the first table
    let mut bad = good.clone();
    bad[24 + 16 + 2 * 17] = 9;
    assert_eq!(SequenceMap::new(&bad).try_get(42), Err(Corruption));

    // a table pointer out of range
    let mut bad = good.clone();
    bad[24 + 16 + 2 * 17] = 2;
    bad[24 + 16 + 2 * 17 + 1] = 200;
    assert_eq!(SequenceMap::new(&bad).try_get(42), Err(Corruption));

    // a table with too many bits
    let mut bad = good.clone();
    bad[24 + 8] = 17;
    assert_eq!(SequenceMap::new(&bad).try_get(42), Err(Corruption));

    // a string without its zero byte
    let bad = &good[..good.len() - 1];
    assert_eq!(SequenceMap::new(bad).try_get(42), Err(Corruption));

    // a string that is not UTF-8
    let mut bad = good.clone();
    let last = bad.len() - 2;
    bad[last] = 0xff;
    assert_eq!(SequenceMap::new(&bad).try_get(42), Err(Corruption));
    assert!(SequenceMap::new(&bad).try_get_cstr(42).is_ok());

    // a buffer that ends where the first table should start
    assert_eq!(SequenceMap::new(&good[..24]).try_get(42), Err(Corruption));
}

#[test]
fn reference_buffer_answers() {
    let mut builder = Builder::new(2);
    builder.insert(42, "Hello!");
    builder.insert(84, "World!");
    let bytes = builder.build();
    assert_eq!(bytes.len(), 122);
    let lookup = SequenceMap::new(&bytes);
    assert_eq!(lookup.get(42), Some("Hello!"));
    assert_eq!(lookup.get(84), Some("World!"));
    assert_eq!(lookup.get(100), None);
    assert_eq!(lookup.get_cstr(42), Some(&b"Hello!\0"[..]));
    assert_eq!(lookup.get_cstr(100), None);
    assert_eq!(lookup.try_get_cstr(84), Ok(Some(&b"World!\0"[..])));
}

#[test]
fn thousand_entries_for_every_bits() {
    for bits in 2..=16usize {
        let mut builder = Builder::new(bits);
        for i in 0..1000u64 {
            builder.insert(i, &format!("entry_{}", i));
        }
        let bytes = builder.build();
        let lookup = SequenceMap::new(&bytes);
        for i in 0..1000u64 {
            assert_eq!(lookup.get(i).unwrap(), format!("entry_{}", i));
        }
        assert!(lookup.get(1000).is_none());
    }
}

#[test]
fn first_string_stays() {
    for bits in [2usize, 7, 16] {
        let mut builder = Builder::new(bits);
        builder.insert(9, "first");
        let once = {
            let mut same = Builder::new(bits);
            same.insert(9, "first");
            same.build()
        };
        builder.insert(9, "second");
        builder.insert(9, "third");
        let bytes = builder.build();
        // a second insert under the key leaves no trace, not even its string
        assert_eq!(bytes, once);
        assert_eq!(SequenceMap::new(&bytes).get(9), Some("first"));
    }
}

#[test]
fn split_moves_the_string_one_table_down() {
    // Keys 1 and 5 select cell 1 of the first table of two bits; 5 selects
    // cell 1 of the second table too, 1 selects cell 0 there.
    let mut builder = Builder::new(2);
    builder.insert(1, "a");
    builder.insert(5, "b");
    let bytes = builder.build();
    let block = 16 + 4 * 17;
    assert_eq!(bytes.len(), 24 + 2 * block + 4);
    let first = 24 + 16 + 17;
    // the cell of the first table points to the second table, with no key
    assert_eq!(bytes[first], 2);
    assert_eq!(bytes[first + 1], (24 + block) as u8);
    assert!(bytes[first + 9..first + 17].iter().all(|b| *b == 0));
    // key 1 went down to cell 0 of the second table, with its string at 0
    let moved = 24 + block + 16;
    assert_eq!(&bytes[moved..moved + 17], &[1, 0, 0, 0, 0, 0, 0, 0, 0, 1, 0, 0, 0, 0, 0, 0, 0]);
    // key 5 stands in cell 1 of the second table, with its string at 2
    let placed = moved + 17;
    assert_eq!(&bytes[placed..placed + 17], &[1, 2, 0, 0, 0, 0, 0, 0, 0, 5, 0, 0, 0, 0, 0, 0, 0]);
    assert_eq!(&bytes[24 + 2 * block..], b"a\0b\0");
}
