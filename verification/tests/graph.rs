use btfdump::btf::Btf;
use btfdump::error::BtfErrorKind;
use btfdump::types::BtfArray;
use btfdump::types::BtfDatasec;
use btfdump::types::BtfDatasecVar;
use btfdump::types::BtfEnum;
use btfdump::types::BtfFunc;
use btfdump::types::BtfFuncParam;
use btfdump::types::BtfFuncProto;
use btfdump::types::BtfFwd;
use btfdump::types::BtfFwdKind;
use btfdump::types::BtfInt;
use btfdump::types::BtfIntEncoding;
use btfdump::types::BtfKind;
use btfdump::types::BtfMember;
use btfdump::types::BtfPtr;
use btfdump::types::BtfStruct;
use btfdump::types::BtfType;
use btfdump::types::BtfTypedef;
use btfdump::types::BtfUnion;
use btfdump::types::BtfVar;
use btfdump::types::BtfVarKind;
use btfdump::types::BtfVolatile;

fn integer(name: &str, bits: u32) -> BtfType {
    BtfType::Int(BtfInt {
        name: name.to_string(),
        bits,
        offset: 0,
        encoding: BtfIntEncoding::Plain,
    })
}

fn plain_member(name: &str, type_id: u32, bit_offset: u32) -> BtfMember {
    BtfMember { name: name.to_string(), type_id, bit_offset, bit_size: 0 }
}

fn sample() -> Vec<BtfType> {
    vec![
        BtfType::Void,                                                      // 0
        integer("int", 32),                                                 // 1
        integer("char", 8),                                                 // 2
        integer("odd", 33),                                                 // 3
        BtfType::Ptr(BtfPtr { type_id: 1 }),                                // 4
        BtfType::Array(BtfArray { nelems: 3, idx_type_id: 1, val_type_id: 1 }), // 5
        BtfType::Typedef(BtfTypedef { name: "ints".to_string(), type_id: 5 }), // 6
        BtfType::Volatile(BtfVolatile { type_id: 6 }),                      // 7
        BtfType::Struct(BtfStruct {
            name: "pair".to_string(),
            sz: 8,
            members: vec![plain_member("c", 2, 0), plain_member("i", 1, 32)],
        }),                                                                 // 8
        BtfType::Union(BtfUnion {
            name: "either".to_string(),
            sz: 8,
            members: vec![plain_member("p", 4, 0), plain_member("c", 2, 0)],
        }),                                                                 // 9
        BtfType::Enum(BtfEnum { name: "e".to_string(), sz_bits: 32, values: vec![] }), // 10
        BtfType::Fwd(BtfFwd { name: "f".to_string(), kind: BtfFwdKind::Struct }), // 11
        BtfType::FuncProto(BtfFuncProto {
            res_type_id: 1,
            params: vec![BtfFuncParam { name: "x".to_string(), type_id: 2 }],
        }),                                                                 // 12
        BtfType::Func(BtfFunc { name: "fun".to_string(), proto_type_id: 12 }), // 13
        BtfType::Var(BtfVar { name: "v".to_string(), type_id: 1, kind: BtfVarKind::Static }), // 14
        BtfType::Datasec(BtfDatasec {
            name: ".data".to_string(),
            sz: 24,
            vars: vec![BtfDatasecVar { type_id: 14, offset: 0, sz: 4 }],
        }),                                                                 // 15
        BtfType::Struct(BtfStruct { name: "empty".to_string(), sz: 0, members: vec![] }), // 16
        BtfType::Array(BtfArray { nelems: 2, idx_type_id: 1, val_type_id: 8 }), // 17
        integer("wide", 128),                                               // 18
    ]
}

#[test]
fn accessors() {
    let btf = Btf::new(sample(), 8).unwrap();
    assert_eq!(btf.ptr_sz(), 8);
    assert_eq!(btf.type_cnt(), 19);
    assert_eq!(btf.types().len(), 19);
    assert_eq!(btf.type_by_id(6).name(), "ints");
    assert_eq!(btf.type_by_id(6).kind(), BtfKind::Typedef);
    assert_eq!(btf.type_by_id(0).kind(), BtfKind::Void);
}

#[test]
fn sizes() {
    let btf = Btf::new(sample(), 8).unwrap();
    let expected: Vec<u32> = vec![0, 4, 1, 5, 8, 12, 12, 12, 8, 8, 4, 0, 0, 0, 0, 24, 0, 16, 16];
    for (id, want) in expected.iter().enumerate() {
        assert_eq!(btf.get_size_of(id as u32), *want, "size of type {}", id);
    }
    let narrow = Btf::new(sample(), 4).unwrap();
    assert_eq!(narrow.get_size_of(4), 4);
}

#[test]
fn alignments() {
    let btf = Btf::new(sample(), 8).unwrap();
    let expected: Vec<u32> = vec![0, 4, 1, 5, 8, 4, 4, 4, 4, 8, 4, 0, 0, 0, 0, 0, 1, 4, 8];
    for (id, want) in expected.iter().enumerate() {
        assert_eq!(btf.get_align_of(id as u32), *want, "alignment of type {}", id);
    }
    let narrow = Btf::new(sample(), 4).unwrap();
    assert_eq!(narrow.get_align_of(4), 4);
    assert_eq!(narrow.get_align_of(3), 4);
    assert_eq!(narrow.get_align_of(9), 4);
    assert_eq!(narrow.get_align_of(18), 4);
}

#[test]
fn alignment_of_a_struct_that_embeds_itself_is_bounded() {
    let types = vec![
        BtfType::Void,
        BtfType::Struct(BtfStruct {
            name: "x".to_string(),
            sz: 8,
            members: vec![plain_member("self", 1, 0)],
        }),
    ];
    let btf = Btf::new(types, 8).unwrap();
    assert_eq!(btf.get_align_of(1), 1);
}

#[test]
fn kind_and_name_of_every_node() {
    let kinds = vec![
        BtfKind::Void,
        BtfKind::Int,
        BtfKind::Int,
        BtfKind::Int,
        BtfKind::Ptr,
        BtfKind::Array,
        BtfKind::Typedef,
        BtfKind::Volatile,
        BtfKind::Struct,
        BtfKind::Union,
        BtfKind::Enum,
        BtfKind::Fwd,
        BtfKind::FuncProto,
        BtfKind::Func,
        BtfKind::Var,
        BtfKind::Datasec,
        BtfKind::Struct,
        BtfKind::Array,
        BtfKind::Int,
    ];
    let names = vec![
        "", "int", "char", "odd", "", "", "ints", "", "pair", "either", "e", "f", "", "fun", "v",
        ".data", "empty", "", "wide",
    ];
    for (id, t) in sample().iter().enumerate() {
        assert_eq!(t.kind(), kinds[id], "kind of type {}", id);
        assert_eq!(t.name(), names[id], "name of type {}", id);
    }
}

#[test]
fn empty_graph_is_refused() {
    let err = Btf::new(vec![], 8).unwrap_err();
    assert_eq!(err.kind, BtfErrorKind::MalformedGraph);
}

#[test]
fn graph_must_start_with_void() {
    let err = Btf::new(vec![integer("int", 32)], 8).unwrap_err();
    assert_eq!(err.kind, BtfErrorKind::MalformedGraph);
    assert_eq!(err.id, 0);
}

#[test]
fn pointer_size_must_be_four_or_eight() {
    assert!(Btf::new(vec![BtfType::Void], 4).is_ok());
    assert!(Btf::new(vec![BtfType::Void], 8).is_ok());
    let err = Btf::new(vec![BtfType::Void], 2).unwrap_err();
    assert_eq!(err.kind, BtfErrorKind::MalformedGraph);
}

#[test]
fn reference_out_of_range_is_refused() {
    let types = vec![
        BtfType::Void,
        integer("int", 32),
        BtfType::Struct(BtfStruct {
            name: "s".to_string(),
            sz: 4,
            members: vec![plain_member("ok", 1, 0), plain_member("bad", 3, 32)],
        }),
    ];
    let err = Btf::new(types, 8).unwrap_err();
    assert_eq!(err.kind, BtfErrorKind::MalformedGraph);
    assert_eq!(err.id, 2);
    assert_eq!(
        err.message,
        "Malformed type reference, id: 2, type: <STRUCT> 's' sz:4 n:2\n\t#00 'ok' off:0 --> [1]\n\t#01 'bad' off:32 --> [3]"
    );
}

#[test]
fn references_that_never_end_are_refused() {
    let types = vec![
        BtfType::Void,
        BtfType::Typedef(BtfTypedef { name: "t".to_string(), type_id: 2 }),
        BtfType::Ptr(BtfPtr { type_id: 1 }),
    ];
    let err = Btf::new(types, 8).unwrap_err();
    assert_eq!(err.kind, BtfErrorKind::MalformedGraph);
}

#[test]
fn pointer_cycle_through_a_struct_is_accepted() {
    let types = vec![
        BtfType::Void,
        BtfType::Struct(BtfStruct {
            name: "node".to_string(),
            sz: 8,
            members: vec![plain_member("next", 2, 0)],
        }),
        BtfType::Ptr(BtfPtr { type_id: 1 }),
    ];
    assert!(Btf::new(types, 8).is_ok());
}

#[test]
fn size_beyond_32_bits_is_refused() {
    let types = vec![
        BtfType::Void,
        integer("int", 32),
        BtfType::Array(BtfArray { nelems: 0x10000, idx_type_id: 1, val_type_id: 1 }),
        BtfType::Array(BtfArray { nelems: 0x10000, idx_type_id: 1, val_type_id: 2 }),
    ];
    let err = Btf::new(types, 8).unwrap_err();
    assert_eq!(err.kind, BtfErrorKind::MalformedGraph);
    assert_eq!(err.id, 3);
}

#[test]
fn largest_size_that_fits_is_accepted() {
    let types = vec![
        BtfType::Void,
        integer("char", 8),
        BtfType::Array(BtfArray { nelems: u32::MAX, idx_type_id: 1, val_type_id: 1 }),
    ];
    let btf = Btf::new(types, 8).unwrap();
    assert_eq!(btf.get_size_of(2), u32::MAX);
}
