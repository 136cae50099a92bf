use btfdump::btf::Btf;
use btfdump::c_dumper::CDumper;
use btfdump::error::BtfErrorKind;
use btfdump::parse::parse_header;
use btfdump::parse::parse_types;
use btfdump::types::BtfFwdKind;
use btfdump::types::BtfIntEncoding;
use btfdump::types::BtfType;
use btfdump::types::BtfVarKind;
use btfdump::wire::find_string_end;
use btfdump::wire::read_string;

struct Blob {
    little: bool,
    types: Vec<u8>,
    strs: Vec<u8>,
}

impl Blob {
    fn new(little: bool) -> Blob {
        Blob { little, types: Vec::new(), strs: vec![0] }
    }

    fn name(&mut self, s: &str) -> u32 {
        if s.is_empty() {
            return 0;
        }
        let off = self.strs.len() as u32;
        self.strs.extend_from_slice(s.as_bytes());
        self.strs.push(0);
        off
    }

    fn word(&mut self, v: u32) {
        let bytes = if self.little { v.to_le_bytes() } else { v.to_be_bytes() };
        self.types.extend_from_slice(&bytes);
    }

    fn record(&mut self, name: &str, kind: u32, vlen: u32, flag: bool, type_id: u32) {
        let off = self.name(name);
        self.word(off);
        self.word((kind << 24) | vlen | if flag { 1 << 31 } else { 0 });
        self.word(type_id);
    }

    fn bytes(&self) -> Vec<u8> {
        let mut out = Vec::new();
        let magic: u16 = 0xeb9f;
        let magic_bytes = if self.little { magic.to_le_bytes() } else { magic.to_be_bytes() };
        out.extend_from_slice(&magic_bytes);
        out.push(1);
        out.push(0);
        let put = |out: &mut Vec<u8>, v: u32| {
            let bytes = if self.little { v.to_le_bytes() } else { v.to_be_bytes() };
            out.extend_from_slice(&bytes);
        };
        put(&mut out, 24);
        put(&mut out, 0);
        put(&mut out, self.types.len() as u32);
        put(&mut out, self.types.len() as u32);
        put(&mut out, self.strs.len() as u32);
        out.extend_from_slice(&self.types);
        out.extend_from_slice(&self.strs);
        out
    }
}

fn every_kind(little: bool) -> Vec<u8> {
    let mut b = Blob::new(little);
    // 1: int
    b.record("int", 1, 0, false, 4);
    b.word((1 << 24) | (3 << 16) | 32);
    // 2: ptr to 1
    b.record("", 2, 0, false, 1);
    // 3: array of 7 of type 1, index type 1
    b.record("", 3, 0, false, 0);
    b.word(1);
    b.word(1);
    b.word(7);
    // 4: struct with bitfield flag
    b.record("s", 4, 2, true, 8);
    let a = b.name("a");
    b.word(a);
    b.word(1);
    b.word((3 << 24) | 5);
    let bb = b.name("b");
    b.word(bb);
    b.word(2);
    b.word(64);
    // 5: union without flag
    b.record("u", 5, 1, false, 4);
    let m = b.name("m");
    b.word(m);
    b.word(1);
    b.word(0x0100_0000);
    // 6: enum
    b.record("e", 6, 2, false, 4);
    let x = b.name("X");
    b.word(x);
    b.word(1);
    let y = b.name("Y");
    b.word(y);
    b.word(0xffff_fffe);
    // 7: fwd union
    b.record("f", 7, 0, true, 0);
    // 8: typedef
    b.record("t", 8, 0, false, 4);
    // 9, 10, 11: qualifiers
    b.record("", 9, 0, false, 1);
    b.record("", 10, 0, false, 1);
    b.record("", 11, 0, false, 2);
    // 12: func
    b.record("fun", 12, 0, false, 13);
    // 13: func proto
    b.record("", 13, 2, false, 1);
    let p = b.name("p");
    b.word(p);
    b.word(1);
    b.word(0);
    b.word(0);
    // 14: var
    b.record("v", 14, 0, false, 1);
    b.word(1);
    // 15: datasec
    b.record(".data", 15, 1, false, 16);
    b.word(14);
    b.word(8);
    b.word(4);
    b.bytes()
}

fn check_every_kind(types: &[BtfType]) {
    assert_eq!(types.len(), 16);
    assert!(matches!(types[0], BtfType::Void));
    match &types[1] {
        BtfType::Int(t) => {
            assert_eq!(t.name, "int");
            assert_eq!(t.bits, 32);
            assert_eq!(t.offset, 3);
            assert_eq!(t.encoding, BtfIntEncoding::Signed);
        }
        other => panic!("{:?}", other),
    }
    match &types[2] {
        BtfType::Ptr(t) => assert_eq!(t.type_id, 1),
        other => panic!("{:?}", other),
    }
    match &types[3] {
        BtfType::Array(t) => {
            assert_eq!((t.val_type_id, t.idx_type_id, t.nelems), (1, 1, 7));
        }
        other => panic!("{:?}", other),
    }
    match &types[4] {
        BtfType::Struct(t) => {
            assert_eq!(t.name, "s");
            assert_eq!(t.sz, 8);
            assert_eq!(t.members.len(), 2);
            assert_eq!(t.members[0].name, "a");
            assert_eq!(t.members[0].type_id, 1);
            assert_eq!(t.members[0].bit_size, 3);
            assert_eq!(t.members[0].bit_offset, 5);
            assert_eq!(t.members[1].name, "b");
            assert_eq!(t.members[1].type_id, 2);
            assert_eq!(t.members[1].bit_size, 0);
            assert_eq!(t.members[1].bit_offset, 64);
        }
        other => panic!("{:?}", other),
    }
    match &types[5] {
        BtfType::Union(t) => {
            assert_eq!(t.name, "u");
            assert_eq!(t.members[0].bit_size, 0);
            assert_eq!(t.members[0].bit_offset, 0x0100_0000);
        }
        other => panic!("{:?}", other),
    }
    match &types[6] {
        BtfType::Enum(t) => {
            assert_eq!(t.name, "e");
            assert_eq!(t.sz_bits, 4);
            assert_eq!(t.values[0].name, "X");
            assert_eq!(t.values[0].value, 1);
            assert_eq!(t.values[1].name, "Y");
            assert_eq!(t.values[1].value, -2);
        }
        other => panic!("{:?}", other),
    }
    match &types[7] {
        BtfType::Fwd(t) => {
            assert_eq!(t.name, "f");
            assert_eq!(t.kind, BtfFwdKind::Union);
        }
        other => panic!("{:?}", other),
    }
    match &types[8] {
        BtfType::Typedef(t) => assert_eq!((t.name.as_str(), t.type_id), ("t", 4)),
        other => panic!("{:?}", other),
    }
    assert!(matches!(&types[9], BtfType::Volatile(t) if t.type_id == 1));
    assert!(matches!(&types[10], BtfType::Const(t) if t.type_id == 1));
    assert!(matches!(&types[11], BtfType::Restrict(t) if t.type_id == 2));
    match &types[12] {
        BtfType::Func(t) => assert_eq!((t.name.as_str(), t.proto_type_id), ("fun", 13)),
        other => panic!("{:?}", other),
    }
    match &types[13] {
        BtfType::FuncProto(t) => {
            assert_eq!(t.res_type_id, 1);
            assert_eq!(t.params.len(), 2);
            assert_eq!((t.params[0].name.as_str(), t.params[0].type_id), ("p", 1));
            assert_eq!((t.params[1].name.as_str(), t.params[1].type_id), ("", 0));
        }
        other => panic!("{:?}", other),
    }
    match &types[14] {
        BtfType::Var(t) => {
            assert_eq!(t.name, "v");
            assert_eq!(t.type_id, 1);
            assert_eq!(t.kind, BtfVarKind::GlobalAlloc);
        }
        other => panic!("{:?}", other),
    }
    match &types[15] {
        BtfType::Datasec(t) => {
            assert_eq!(t.name, ".data");
            assert_eq!(t.sz, 16);
            assert_eq!((t.vars[0].type_id, t.vars[0].offset, t.vars[0].sz), (14, 8, 4));
        }
        other => panic!("{:?}", other),
    }
}

#[test]
fn decode_every_kind_little_endian() {
    let types = parse_types(&every_kind(true), true).unwrap();
    check_every_kind(&types);
}

#[test]
fn decode_every_kind_big_endian() {
    let types = parse_types(&every_kind(false), false).unwrap();
    check_every_kind(&types);
}

#[test]
fn wrong_byte_order_is_a_wrong_magic() {
    let err = parse_types(&every_kind(true), false).unwrap_err();
    assert_eq!(err.kind, BtfErrorKind::BadMagic);
    assert_eq!(err.message, "Invalid BTF magic: 40939");
}

#[test]
fn load_and_dump() {
    let mut b = Blob::new(true);
    b.record("int", 1, 0, false, 4);
    b.word((1 << 24) | 32);
    b.record("my_int", 8, 0, false, 1);
    let btf = Btf::load(&b.bytes(), true, 8).unwrap();
    assert_eq!(btf.type_cnt(), 3);
    assert_eq!(btf.ptr_sz(), 8);
    let mut dumper = CDumper::new(&btf, false).unwrap();
    dumper.dump_types(|_id, _t| true).unwrap();
    assert_eq!(dumper.output(), "typedef int my_int;\n\n");
}

#[test]
fn load_refuses_a_graph_that_is_not_well_formed() {
    let mut b = Blob::new(true);
    b.record("", 2, 0, false, 5);
    let err = Btf::load(&b.bytes(), true, 8).unwrap_err();
    assert_eq!(err.kind, BtfErrorKind::MalformedGraph);
    assert_eq!(err.id, 1);
}

#[test]
fn header_of_empty_sections() {
    let b = Blob::new(true);
    let data = b.bytes();
    let lay = parse_header(&data, true).unwrap();
    assert_eq!(lay.types_start, 24);
    assert_eq!(lay.types_end, 24);
    assert_eq!(lay.strs_start, 24);
    assert_eq!(lay.strs_end, 25);
    let types = parse_types(&data, true).unwrap();
    assert_eq!(types.len(), 1);
}

#[test]
fn short_data_is_truncated() {
    let err = parse_types(&[0x9f, 0xeb, 1], true).unwrap_err();
    assert_eq!(err.kind, BtfErrorKind::Truncated);
    assert_eq!(err.message, "BTF data ends early at offset 3");
}

#[test]
fn unsupported_version() {
    let mut data = Blob::new(true).bytes();
    data[2] = 2;
    let err = parse_types(&data, true).unwrap_err();
    assert_eq!(err.kind, BtfErrorKind::BadVersion);
    assert_eq!(err.message, "Unsupported BTF version: 2, expect: 1");
}

#[test]
fn section_beyond_the_data_is_truncated() {
    let mut b = Blob::new(true);
    b.record("", 2, 0, false, 0);
    let mut data = b.bytes();
    data.truncate(30);
    let err = parse_types(&data, true).unwrap_err();
    assert_eq!(err.kind, BtfErrorKind::Truncated);
}

#[test]
fn record_cut_short_is_truncated() {
    let mut b = Blob::new(true);
    b.record("int", 1, 0, false, 4);
    let err = parse_types(&b.bytes(), true).unwrap_err();
    assert_eq!(err.kind, BtfErrorKind::Truncated);
    assert_eq!(err.message, "BTF data ends early at offset 36");
}

#[test]
fn entries_cut_short_are_truncated() {
    let mut b = Blob::new(true);
    b.record("s", 4, 2, false, 8);
    b.word(0);
    b.word(0);
    b.word(0);
    let err = parse_types(&b.bytes(), true).unwrap_err();
    assert_eq!(err.kind, BtfErrorKind::Truncated);
    assert_eq!(err.message, "BTF data ends early at offset 48");
}

#[test]
fn unknown_kind() {
    let mut b = Blob::new(true);
    b.record("", 0, 0, false, 0);
    let err = parse_types(&b.bytes(), true).unwrap_err();
    assert_eq!(err.kind, BtfErrorKind::UnknownKind);
    assert_eq!(err.message, "Unknown BTF kind: 0");
}

#[test]
fn unknown_int_encoding() {
    let mut b = Blob::new(true);
    b.record("int", 1, 0, false, 4);
    b.word((3 << 24) | 32);
    let err = parse_types(&b.bytes(), true).unwrap_err();
    assert_eq!(err.kind, BtfErrorKind::UnknownIntEncoding);
    assert_eq!(err.message, "Unknown BTF int encoding: 3");
}

#[test]
fn unknown_var_kind() {
    let mut b = Blob::new(true);
    b.record("v", 14, 0, false, 0);
    b.word(2);
    let err = parse_types(&b.bytes(), true).unwrap_err();
    assert_eq!(err.kind, BtfErrorKind::UnknownVarKind);
    assert_eq!(err.message, "Unknown BTF var kind: 2");
}

#[test]
fn name_outside_the_string_section() {
    let mut b = Blob::new(true);
    b.word(100);
    b.word(8 << 24);
    b.word(0);
    let err = parse_types(&b.bytes(), true).unwrap_err();
    assert_eq!(err.kind, BtfErrorKind::BadString);
    assert_eq!(err.message, "Invalid BTF string at offset 100");
}

#[test]
fn name_without_an_end() {
    let mut b = Blob::new(true);
    b.record("t", 8, 0, false, 0);
    b.strs.pop();
    let err = parse_types(&b.bytes(), true).unwrap_err();
    assert_eq!(err.kind, BtfErrorKind::BadString);
}

#[test]
fn name_that_is_no_utf8() {
    let mut b = Blob::new(true);
    b.word(1);
    b.word(8 << 24);
    b.word(0);
    b.strs.extend_from_slice(&[0xff, 0xfe, 0]);
    let err = parse_types(&b.bytes(), true).unwrap_err();
    assert_eq!(err.kind, BtfErrorKind::BadString);
}

#[test]
fn name_in_utf8() {
    let mut b = Blob::new(true);
    b.record("größe", 8, 0, false, 0);
    let types = parse_types(&b.bytes(), true).unwrap();
    assert_eq!(types[1].name(), "größe");
}

#[test]
fn strings_in_a_section() {
    let data = b"xx\0abc\0de";
    assert_eq!(find_string_end(data, 3, 9), 6);
    assert_eq!(find_string_end(data, 7, 9), 9);
    assert_eq!(find_string_end(data, 9, 9), 9);
    assert_eq!(read_string(data, 2, 9, 1), Some("abc".to_string()));
    assert_eq!(read_string(data, 2, 9, 0), Some(String::new()));
    assert_eq!(read_string(data, 2, 9, 5), None);
    assert_eq!(read_string(data, 2, 9, 7), None);
    assert_eq!(read_string(data, 2, 9, 700), None);
}

#[test]
fn error_in_the_header_carries_no_type_id() {
    let err = parse_types(&[0u8; 4], true).unwrap_err();
    assert_eq!(err.kind, BtfErrorKind::Truncated);
    assert_eq!(err.id, 0);
}

#[test]
fn error_in_a_record_carries_the_id_of_its_type() {
    let mut b = Blob::new(true);
    b.record("", 0, 0, false, 0);
    let err = parse_types(&b.bytes(), true).unwrap_err();
    assert_eq!(err.id, 1);

    let mut b = Blob::new(true);
    b.record("int", 1, 0, false, 4);
    b.word(32);
    b.record("p", 2, 0, false, 1);
    b.record("int", 1, 0, false, 4);
    b.word((3 << 24) | 32);
    let err = parse_types(&b.bytes(), true).unwrap_err();
    assert_eq!(err.kind, BtfErrorKind::UnknownIntEncoding);
    assert_eq!(err.id, 3);
}
