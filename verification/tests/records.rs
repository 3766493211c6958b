use sequence_map::cell;
use sequence_map::codec::{get_u32, get_u64, put_u32, put_u64};
use sequence_map::header::{self, Root, Table, TableHeader, TableMut};

#[test]
fn words_are_little_endian() {
    let mut buf: Vec<u8> = vec![0xaa; 14];
    put_u64(&mut buf, 1, 0x0102030405060708);
    assert_eq!(buf, vec![0xaa, 8, 7, 6, 5, 4, 3, 2, 1, 0xaa, 0xaa, 0xaa, 0xaa, 0xaa]);
    assert_eq!(get_u64(&buf, 1), 0x0102030405060708);
    put_u32(&mut buf, 9, 0x0a0b0c0d);
    assert_eq!(buf, vec![0xaa, 8, 7, 6, 5, 4, 3, 2, 1, 0x0d, 0x0c, 0x0b, 0x0a, 0xaa]);
    assert_eq!(get_u32(&buf, 9), 0x0a0b0c0d);
    assert_eq!(get_u32(&buf, 1), 0x05060708);
}

#[test]
fn cell_types_by_tag() {
    assert_eq!(cell::Type::from(0u8), cell::Type::Empty);
    assert_eq!(cell::Type::from(1u8), cell::Type::StringPtr);
    assert_eq!(cell::Type::from(2u8), cell::Type::TablePtr);
    assert_eq!(cell::Type::from(3u8), cell::Type::Unknown);
    assert_eq!(cell::Type::from(255u8), cell::Type::Unknown);
    assert_eq!(cell::Type::Unknown.code(), 255);
}

#[test]
fn header_types_by_tag() {
    assert_eq!(header::Type::from(0u32), header::Type::Empty);
    assert_eq!(header::Type::from(1u32), header::Type::Root);
    assert_eq!(header::Type::from(2u32), header::Type::Table);
    assert_eq!(header::Type::from(3u32), header::Type::String);
    assert_eq!(header::Type::from(4u32), header::Type::Unknown);
    assert_eq!(header::Type::Table.code(), 2);
}

#[test]
fn cell_becomes_pointer() {
    let mut c = cell::Instance { c_type: 0, index: 0, string_key: 0 };
    assert_eq!(c.get_type(), cell::Type::Empty);
    c.become_string_ptr(12, 99);
    assert_eq!(c.get_type(), cell::Type::StringPtr);
    assert_eq!(c.string_index_and_key(), (12, 99));
    c.become_table_ptr(108);
    assert_eq!(c.get_type(), cell::Type::TablePtr);
    assert_eq!(c.table_index(), 108);
    assert_eq!(c.string_key, 0);
}

#[test]
fn cell_takes_seventeen_bytes() {
    let c = cell::Instance { c_type: 1, index: 7, string_key: 84 };
    let mut buf: Vec<u8> = vec![0xee; 19];
    c.write(&mut buf, 1);
    assert_eq!(buf, vec![0xee, 1, 7, 0, 0, 0, 0, 0, 0, 0, 84, 0, 0, 0, 0, 0, 0, 0, 0xee]);
    assert_eq!(cell::Instance::read(&buf, 1), c);
}

#[test]
fn root_header_fields() {
    let mut root = Root { htype: 0, root_table_offset: 0, string_offset: 0 };
    root.set_type(header::Type::Root);
    root.set_table_offset(24);
    root.set_string_offset(108);
    let mut buf: Vec<u8> = vec![0; 24];
    root.write(&mut buf);
    assert_eq!(
        buf,
        vec![1, 0, 0, 0, 0, 0, 0, 0, 24, 0, 0, 0, 0, 0, 0, 0, 108, 0, 0, 0, 0, 0, 0, 0]
    );
    assert_eq!(Root::read(&buf), root);
}

#[test]
fn table_arithmetic() {
    let mut buf: Vec<u8> = vec![0xff; 16 + 8 * 17 + 3];
    let table = TableMut::init(3, &mut buf, 2);
    assert_eq!(table.header, TableHeader { htype: 2, bits: 3 });
    assert_eq!(&buf[..2], &[0xff, 0xff]);
    assert_eq!(&buf[2..18], &[2, 0, 0, 0, 0, 0, 0, 0, 3, 0, 0, 0, 0, 0, 0, 0]);
    assert!(buf[18..18 + 8 * 17].iter().all(|b| *b == 0));
    assert_eq!(buf[18 + 8 * 17], 0xff);

    assert_eq!(table.index(0b1101_0110), 0b110);
    assert_eq!(table.next_key(0b1101_0110), 0b1_1010);
    assert_eq!(table.decrement_bits(64), 61);
    assert_eq!(table.decrement_bits(3), 0);
    assert_eq!(table.decrement_bits(2), 0);

    let c = cell::Instance { c_type: 1, index: 5, string_key: 0b110 };
    table.cell_mut(&mut buf, 6, &c);
    let again = TableMut::overlay_mut(&buf, 2);
    assert_eq!(again.cell(&buf, 6), c);
    assert_eq!(again.cell(&buf, 5), cell::Instance { c_type: 0, index: 0, string_key: 0 });

    let view = Table::overlay(&buf[2..]);
    assert_eq!(view.header.bits, 3);
    assert_eq!(view.cell(6), c);
    assert_eq!(view.index(0xffff_ffff_ffff_ffff), 7);
    assert_eq!(view.next_key(0xffff_ffff_ffff_ffff), 0x1fff_ffff_ffff_ffff);
    assert_eq!(view.decrement_bits(1), 0);
    assert_eq!(view.decrement_bits(10), 7);
}

#[test]
fn table_header_sets_bits() {
    let mut h = TableHeader { htype: 0, bits: 0 };
    h.set_bits(16);
    assert_eq!(h, TableHeader { htype: 2, bits: 16 });
    let mut buf: Vec<u8> = vec![0; 16];
    h.write(&mut buf, 0);
    assert_eq!(TableHeader::read(&buf, 0), h);
}
