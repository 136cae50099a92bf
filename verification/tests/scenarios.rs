use btfdump::btf::Btf;
use btfdump::c_dumper::CDumper;
use btfdump::error::BtfErrorKind;
use btfdump::types::BtfArray;
use btfdump::types::BtfFuncParam;
use btfdump::types::BtfFuncProto;
use btfdump::types::BtfInt;
use btfdump::types::BtfIntEncoding;
use btfdump::types::BtfMember;
use btfdump::types::BtfPtr;
use btfdump::types::BtfStruct;
use btfdump::types::BtfType;
use btfdump::types::BtfTypedef;

fn int_type(name: &str, bits: u32) -> BtfType {
    BtfType::Int(BtfInt {
        name: name.to_string(),
        bits,
        offset: 0,
        encoding: BtfIntEncoding::Signed,
    })
}

fn ptr_to(type_id: u32) -> BtfType {
    BtfType::Ptr(BtfPtr { type_id })
}

fn typedef_of(name: &str, type_id: u32) -> BtfType {
    BtfType::Typedef(BtfTypedef { name: name.to_string(), type_id })
}

fn member(name: &str, type_id: u32, bit_offset: u32, bit_size: u8) -> BtfMember {
    BtfMember { name: name.to_string(), type_id, bit_offset, bit_size }
}

fn struct_type(name: &str, sz: u32, members: Vec<BtfMember>) -> BtfType {
    BtfType::Struct(BtfStruct { name: name.to_string(), sz, members })
}

fn dump_all(types: Vec<BtfType>) -> String {
    let btf = Btf::new(types, 8).expect("well-formed graph");
    let mut dumper = CDumper::new(&btf, false).expect("blacklist compiles");
    dumper.dump_types(|_id, _t| true).expect("dump succeeds");
    dumper.output().to_string()
}

#[test]
fn simple_typedef_chain() {
    let types = vec![BtfType::Void, int_type("int", 32), typedef_of("my_int", 1)];
    let btf = Btf::new(types, 8).unwrap();
    let mut dumper = CDumper::new(&btf, false).unwrap();
    dumper.dump_types(|id, _t| id == 2).unwrap();
    assert_eq!(dumper.output(), "typedef int my_int;\n\n");
}

#[test]
fn pointer_cycle_needs_no_forward_declaration() {
    let types = vec![
        BtfType::Void,
        int_type("int", 32),
        struct_type("node", 16, vec![member("next", 3, 0, 0), member("val", 1, 64, 0)]),
        ptr_to(2),
    ];
    let btf = Btf::new(types, 8).unwrap();
    let mut dumper = CDumper::new(&btf, false).unwrap();
    dumper.dump_types(|id, _t| id == 2).unwrap();
    assert_eq!(
        dumper.output(),
        "struct node {\n\tstruct node *next;\n\tint val;\n};\n\n"
    );
}

#[test]
fn mutual_pointers_get_a_forward_declaration() {
    let types = vec![
        BtfType::Void,
        struct_type("a", 8, vec![member("b", 3, 0, 0)]),
        struct_type("b", 8, vec![member("a", 4, 0, 0)]),
        ptr_to(2),
        ptr_to(1),
    ];
    assert_eq!(
        dump_all(types),
        "struct b;\n\nstruct a {\n\tstruct b *b;\n};\n\nstruct b {\n\tstruct a *a;\n};\n\n"
    );
}

#[test]
fn embedded_cycle_fails() {
    let types = vec![BtfType::Void, struct_type("x", 8, vec![member("self", 1, 0, 0)])];
    let btf = Btf::new(types, 8).unwrap();
    let mut dumper = CDumper::new(&btf, false).unwrap();
    let err = dumper.dump_types(|_id, _t| true).unwrap_err();
    assert_eq!(err.kind, BtfErrorKind::UnsatisfiableCycle);
    assert_eq!(err.id, 1);
    assert_eq!(
        err.message,
        "Unsatisfiable type cycle, id: 1, type: <STRUCT> 'x' sz:8 n:1\n\t#00 'self' off:0 --> [1]"
    );
    assert_eq!(dumper.output(), "");
}

#[test]
fn name_collision_gets_a_suffix() {
    let types = vec![
        BtfType::Void,
        int_type("int", 32),
        struct_type("foo", 4, vec![member("x", 1, 0, 0)]),
        struct_type("foo", 4, vec![member("y", 1, 0, 0)]),
    ];
    assert_eq!(
        dump_all(types),
        "struct foo {\n\tint x;\n};\n\nstruct foo__2 {\n\tint y;\n};\n\n"
    );
}

#[test]
fn bitfield_gap_is_padded() {
    let types = vec![
        BtfType::Void,
        int_type("int", 32),
        struct_type("s", 4, vec![member("a", 1, 0, 3), member("b", 1, 16, 5)]),
    ];
    assert_eq!(
        dump_all(types),
        "struct s {\n\tint a: 3;\n\tshort: 13;\n\tint b: 5;\n};\n\n"
    );
}

#[test]
fn function_pointer_array() {
    let types = vec![
        BtfType::Void,
        int_type("int", 32),
        int_type("char", 8),
        ptr_to(2),
        BtfType::FuncProto(BtfFuncProto {
            res_type_id: 1,
            params: vec![
                BtfFuncParam { name: String::new(), type_id: 1 },
                BtfFuncParam { name: String::new(), type_id: 3 },
            ],
        }),
        ptr_to(4),
        BtfType::Array(BtfArray { nelems: 4, idx_type_id: 1, val_type_id: 5 }),
        typedef_of("callback_array", 6),
    ];
    assert_eq!(
        dump_all(types),
        "typedef int (*callback_array[4])(int, char *);\n\n"
    );
}
