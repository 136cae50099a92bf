use btfdump::btf::Btf;
use btfdump::c_dumper::CDumper;
use btfdump::types::BtfArray;
use btfdump::types::BtfConst;
use btfdump::types::BtfEnum;
use btfdump::types::BtfEnumValue;
use btfdump::types::BtfFunc;
use btfdump::types::BtfFuncParam;
use btfdump::types::BtfFuncProto;
use btfdump::types::BtfFwd;
use btfdump::types::BtfFwdKind;
use btfdump::types::BtfInt;
use btfdump::types::BtfIntEncoding;
use btfdump::types::BtfMember;
use btfdump::types::BtfPtr;
use btfdump::types::BtfRestrict;
use btfdump::types::BtfStruct;
use btfdump::types::BtfType;
use btfdump::types::BtfTypedef;
use btfdump::types::BtfUnion;
use btfdump::types::BtfVolatile;

fn int_of(name: &str, bits: u32) -> BtfType {
    BtfType::Int(BtfInt {
        name: name.to_string(),
        bits,
        offset: 0,
        encoding: BtfIntEncoding::Signed,
    })
}

fn pointer(type_id: u32) -> BtfType {
    BtfType::Ptr(BtfPtr { type_id })
}

fn constant(type_id: u32) -> BtfType {
    BtfType::Const(BtfConst { type_id })
}

fn array_of(val_type_id: u32, nelems: u32) -> BtfType {
    BtfType::Array(BtfArray { nelems, idx_type_id: 1, val_type_id })
}

fn alias(name: &str, type_id: u32) -> BtfType {
    BtfType::Typedef(BtfTypedef { name: name.to_string(), type_id })
}

fn field(name: &str, type_id: u32, bit_offset: u32) -> BtfMember {
    BtfMember { name: name.to_string(), type_id, bit_offset, bit_size: 0 }
}

fn bitfield(name: &str, type_id: u32, bit_offset: u32, bit_size: u8) -> BtfMember {
    BtfMember { name: name.to_string(), type_id, bit_offset, bit_size }
}

fn record(name: &str, sz: u32, members: Vec<BtfMember>) -> BtfType {
    BtfType::Struct(BtfStruct { name: name.to_string(), sz, members })
}

fn overlay(name: &str, sz: u32, members: Vec<BtfMember>) -> BtfType {
    BtfType::Union(BtfUnion { name: name.to_string(), sz, members })
}

fn enumeration(name: &str, values: Vec<(&str, i32)>) -> BtfType {
    BtfType::Enum(BtfEnum {
        name: name.to_string(),
        sz_bits: 32,
        values: values
            .into_iter()
            .map(|(n, v)| BtfEnumValue { name: n.to_string(), value: v })
            .collect(),
    })
}

fn prototype(res_type_id: u32, params: Vec<(&str, u32)>) -> BtfType {
    BtfType::FuncProto(BtfFuncProto {
        res_type_id,
        params: params
            .into_iter()
            .map(|(n, t)| BtfFuncParam { name: n.to_string(), type_id: t })
            .collect(),
    })
}

fn dump_with(types: Vec<BtfType>, ptr_sz: u32, verbose: bool) -> String {
    let btf = Btf::new(types, ptr_sz).expect("well-formed graph");
    let mut dumper = CDumper::new(&btf, verbose).expect("blacklist compiles");
    dumper.dump_types(|_id, _t| true).expect("dump succeeds");
    dumper.output().to_string()
}

fn dump(types: Vec<BtfType>) -> String {
    dump_with(types, 8, false)
}

#[test]
fn qualifier_of_the_base_type_comes_first() {
    let types = vec![
        BtfType::Void,
        int_of("int", 32),
        constant(1),
        record("s", 4, vec![field("x", 2, 0)]),
    ];
    assert_eq!(dump(types), "struct s {\n\tconst int x;\n};\n\n");
}

#[test]
fn pointer_to_const() {
    let types = vec![
        BtfType::Void,
        int_of("int", 32),
        constant(1),
        pointer(2),
        record("s", 8, vec![field("p", 3, 0)]),
    ];
    assert_eq!(dump(types), "struct s {\n\tconst int *p;\n};\n\n");
}

#[test]
fn qualifiers_of_a_pointer_follow_it() {
    let types = vec![
        BtfType::Void,
        int_of("int", 32),
        pointer(1),
        constant(2),
        BtfType::Volatile(BtfVolatile { type_id: 3 }),
        BtfType::Restrict(BtfRestrict { type_id: 4 }),
        record("s", 8, vec![field("p", 5, 0)]),
    ];
    assert_eq!(dump(types), "struct s {\n\tint * const volatile restrict p;\n};\n\n");
}

#[test]
fn pointer_to_pointer() {
    let types = vec![
        BtfType::Void,
        int_of("char", 8),
        pointer(1),
        pointer(2),
        record("s", 8, vec![field("argv", 3, 0)]),
    ];
    assert_eq!(dump(types), "struct s {\n\tchar **argv;\n};\n\n");
}

#[test]
fn void_pointer() {
    let types = vec![BtfType::Void, pointer(0), record("s", 8, vec![field("p", 1, 0)])];
    assert_eq!(dump(types), "struct s {\n\tvoid *p;\n};\n\n");
}

#[test]
fn array_member() {
    let types = vec![
        BtfType::Void,
        int_of("int", 32),
        array_of(1, 3),
        record("s", 12, vec![field("a", 2, 0)]),
    ];
    assert_eq!(dump(types), "struct s {\n\tint a[3];\n};\n\n");
}

#[test]
fn qualifiers_of_an_array_are_dropped() {
    let types = vec![
        BtfType::Void,
        int_of("int", 32),
        array_of(1, 3),
        constant(2),
        record("s", 12, vec![field("a", 3, 0)]),
    ];
    assert_eq!(dump(types), "struct s {\n\tint a[3];\n};\n\n");
}

#[test]
fn pointer_to_array() {
    let types = vec![
        BtfType::Void,
        int_of("int", 32),
        array_of(1, 3),
        pointer(2),
        record("s", 8, vec![field("p", 3, 0)]),
    ];
    assert_eq!(dump(types), "struct s {\n\tint (*p)[3];\n};\n\n");
}

#[test]
fn function_pointer_without_parameters() {
    let types = vec![
        BtfType::Void,
        int_of("int", 32),
        prototype(1, vec![("", 0)]),
        pointer(2),
        record("s", 8, vec![field("f", 3, 0)]),
    ];
    assert_eq!(dump(types), "struct s {\n\tint (*f)();\n};\n\n");
}

#[test]
fn function_pointer_with_named_and_variable_parameters() {
    let types = vec![
        BtfType::Void,
        int_of("int", 32),
        prototype(0, vec![("fd", 1), ("", 0)]),
        pointer(2),
        record("s", 8, vec![field("f", 3, 0)]),
    ];
    assert_eq!(dump(types), "struct s {\n\tvoid (*f)(int fd, ...);\n};\n\n");
}

#[test]
fn typedef_of_function_type() {
    let types = vec![
        BtfType::Void,
        int_of("int", 32),
        prototype(1, vec![("a", 1), ("b", 1)]),
        alias("binop", 2),
    ];
    assert_eq!(dump(types), "typedef int binop(int a, int b);\n\n");
}

#[test]
fn anonymous_struct_is_written_where_it_is_used() {
    let types = vec![
        BtfType::Void,
        int_of("int", 32),
        record("", 4, vec![field("a", 1, 0)]),
        record("outer", 8, vec![field("inner", 2, 0), field("b", 1, 32)]),
    ];
    assert_eq!(
        dump(types),
        "struct outer {\n\tstruct {\n\t\tint a;\n\t} inner;\n\tint b;\n};\n\n"
    );
}

#[test]
fn anonymous_union_without_a_member_name() {
    let types = vec![
        BtfType::Void,
        int_of("int", 32),
        int_of("long", 64),
        overlay("", 8, vec![field("i", 1, 0), field("l", 2, 0)]),
        record("holder", 8, vec![field("", 3, 0)]),
    ];
    assert_eq!(
        dump(types),
        "struct holder {\n\tunion {\n\t\tint i;\n\t\tlong l;\n\t};\n};\n\n"
    );
}

#[test]
fn empty_struct() {
    let types = vec![BtfType::Void, record("empty", 0, vec![])];
    assert_eq!(dump(types), "struct empty {};\n\n");
}

#[test]
fn enum_definition_with_negative_value() {
    let types = vec![
        BtfType::Void,
        enumeration("color", vec![("RED", 0), ("GREEN", 1), ("NONE", -1)]),
    ];
    assert_eq!(
        dump(types),
        "enum color {\n\tRED = 0,\n\tGREEN = 1,\n\tNONE = -1,\n};\n\n"
    );
}

#[test]
fn enum_without_values_is_its_tag() {
    let types = vec![BtfType::Void, enumeration("later", vec![])];
    assert_eq!(dump(types), "enum later;\n\n");
}

#[test]
fn enum_member_is_written_as_its_tag() {
    let types = vec![
        BtfType::Void,
        enumeration("color", vec![("RED", 0)]),
        record("s", 4, vec![field("c", 1, 0)]),
    ];
    assert_eq!(
        dump(types),
        "enum color {\n\tRED = 0,\n};\n\nstruct s {\n\tenum color c;\n};\n\n"
    );
}

#[test]
fn colliding_enumerator_of_a_named_enum_takes_the_name_of_its_enum() {
    let types = vec![
        BtfType::Void,
        enumeration("first", vec![("A", 0)]),
        enumeration("second", vec![("A", 0)]),
    ];
    assert_eq!(
        dump(types),
        "enum first {\n\tA = 0,\n};\n\nenum second {\n\tA__second = 0,\n};\n\n"
    );
}

#[test]
fn colliding_enumerator_of_an_anonymous_enum_takes_its_version() {
    let types = vec![
        BtfType::Void,
        enumeration("first", vec![("A", 0)]),
        enumeration("", vec![("A", 0)]),
        record("s", 4, vec![field("x", 2, 0)]),
    ];
    assert_eq!(
        dump(types),
        "enum first {\n\tA = 0,\n};\n\nstruct s {\n\tenum {\n\t\tA__2 = 0,\n\t} x;\n};\n\n"
    );
}

#[test]
fn enumerator_collides_with_typedef_name() {
    let types = vec![
        BtfType::Void,
        int_of("int", 32),
        alias("thing", 1),
        enumeration("e", vec![("thing", 7)]),
    ];
    assert_eq!(
        dump(types),
        "typedef int thing;\n\nenum e {\n\tthing__e = 7,\n};\n\n"
    );
}

#[test]
fn tags_and_typedef_names_do_not_collide() {
    let types = vec![
        BtfType::Void,
        int_of("int", 32),
        record("foo", 4, vec![field("x", 1, 0)]),
        alias("foo", 1),
    ];
    assert_eq!(dump(types), "struct foo {\n\tint x;\n};\n\ntypedef int foo;\n\n");
}

#[test]
fn struct_and_union_tags_collide() {
    let types = vec![
        BtfType::Void,
        int_of("int", 32),
        record("foo", 4, vec![field("x", 1, 0)]),
        overlay("foo", 4, vec![field("y", 1, 0)]),
        enumeration("foo", vec![("Z", 0)]),
    ];
    assert_eq!(
        dump(types),
        "struct foo {\n\tint x;\n};\n\nunion foo__2 {\n\tint y;\n};\n\nenum foo__3 {\n\tZ = 0,\n};\n\n"
    );
}

#[test]
fn misaligned_member_makes_a_struct_packed() {
    let types = vec![
        BtfType::Void,
        int_of("char", 8),
        int_of("int", 32),
        record("p", 5, vec![field("a", 1, 0), field("b", 2, 8)]),
    ];
    assert_eq!(
        dump(types),
        "struct p {\n\tchar a;\n\tint b;\n} __attribute__((packed));\n\n"
    );
}

#[test]
fn size_that_is_no_multiple_of_the_alignment_makes_a_struct_packed() {
    let types = vec![
        BtfType::Void,
        int_of("int", 32),
        int_of("char", 8),
        record("p", 5, vec![field("a", 1, 0), field("b", 2, 32)]),
    ];
    assert_eq!(
        dump(types),
        "struct p {\n\tint a;\n\tchar b;\n} __attribute__((packed));\n\n"
    );
}

#[test]
fn natural_gap_needs_no_padding() {
    let types = vec![
        BtfType::Void,
        int_of("char", 8),
        int_of("int", 32),
        record("s", 8, vec![field("a", 1, 0), field("b", 2, 32)]),
    ];
    assert_eq!(dump(types), "struct s {\n\tchar a;\n\tint b;\n};\n\n");
}

#[test]
fn large_gap_before_a_plain_member_is_padded() {
    let types = vec![
        BtfType::Void,
        int_of("char", 8),
        int_of("int", 32),
        record("s", 12, vec![field("a", 1, 0), field("b", 2, 64)]),
    ];
    assert_eq!(dump(types), "struct s {\n\tchar a;\n\tlong: 56;\n\tint b;\n};\n\n");
}

#[test]
fn long_padding_on_a_64_bit_target() {
    let types = vec![
        BtfType::Void,
        int_of("int", 32),
        record("s", 16, vec![bitfield("a", 1, 0, 1), bitfield("b", 1, 100, 1)]),
    ];
    assert_eq!(
        dump(types),
        "struct s {\n\tint a: 1;\n\tlong: 35;\n\tlong: 64;\n\tint b: 1;\n};\n\n"
    );
}

#[test]
fn int_padding_on_a_32_bit_target() {
    let types = vec![
        BtfType::Void,
        int_of("int", 32),
        record("s", 16, vec![bitfield("a", 1, 0, 1), bitfield("b", 1, 100, 1)]),
    ];
    assert_eq!(
        dump_with(types, 4, false),
        "struct s {\n\tint a: 1;\n\tint: 3;\n\tint: 32;\n\tint: 32;\n\tint: 32;\n\tint b: 1;\n};\n\n"
    );
}

#[test]
fn char_padding_for_a_small_gap() {
    let types = vec![
        BtfType::Void,
        int_of("int", 32),
        record("s", 4, vec![bitfield("a", 1, 0, 1), bitfield("b", 1, 6, 2)]),
    ];
    assert_eq!(dump(types), "struct s {\n\tint a: 1;\n\tchar: 5;\n\tint b: 2;\n};\n\n");
}

#[test]
fn union_with_a_bitfield() {
    let types = vec![
        BtfType::Void,
        int_of("int", 32),
        overlay("u", 4, vec![field("a", 1, 0), bitfield("b", 1, 0, 3)]),
    ];
    assert_eq!(dump(types), "union u {\n\tint a;\n\tint b: 3;\n};\n\n");
}

#[test]
fn typedef_through_a_pointer_is_defined_after_a_forward_declaration() {
    let types = vec![
        BtfType::Void,
        record("a", 8, vec![field("p", 3, 0)]),
        alias("t", 1),
        pointer(2),
    ];
    assert_eq!(
        dump(types),
        "struct a;\n\ntypedef struct a t;\n\nstruct a {\n\tt *p;\n};\n\n"
    );
}

#[test]
fn embedded_struct_is_defined_first() {
    let types = vec![
        BtfType::Void,
        record("outer", 4, vec![field("in", 2, 0)]),
        record("inner", 4, vec![field("x", 3, 0)]),
        int_of("int", 32),
    ];
    assert_eq!(
        dump(types),
        "struct inner {\n\tint x;\n};\n\nstruct outer {\n\tstruct inner in;\n};\n\n"
    );
}

#[test]
fn dependencies_of_a_selected_definition_are_written_too() {
    let types = vec![
        BtfType::Void,
        record("outer", 4, vec![field("in", 2, 0)]),
        record("inner", 4, vec![field("x", 3, 0)]),
        int_of("int", 32),
        record("other", 4, vec![field("y", 3, 0)]),
    ];
    let btf = Btf::new(types, 8).unwrap();
    let mut dumper = CDumper::new(&btf, false).unwrap();
    dumper.dump_types(|id, _t| id == 1).unwrap();
    assert_eq!(
        dumper.output(),
        "struct inner {\n\tint x;\n};\n\nstruct outer {\n\tstruct inner in;\n};\n\n"
    );
}

#[test]
fn forward_declaration_node() {
    let types = vec![
        BtfType::Void,
        BtfType::Fwd(BtfFwd { name: "opaque".to_string(), kind: BtfFwdKind::Union }),
        pointer(1),
        record("s", 8, vec![field("p", 2, 0)]),
    ];
    assert_eq!(
        dump(types),
        "union opaque;\n\nstruct s {\n\tunion opaque *p;\n};\n\n"
    );
}

#[test]
fn filter_sees_id_and_node() {
    let types = vec![
        BtfType::Void,
        int_of("int", 32),
        alias("keep_me", 1),
        alias("drop_me", 1),
    ];
    let btf = Btf::new(types, 8).unwrap();
    let mut dumper = CDumper::new(&btf, false).unwrap();
    dumper.dump_types(|_id, t| t.name().starts_with("keep")).unwrap();
    assert_eq!(dumper.output(), "typedef int keep_me;\n\n");
}

#[test]
fn nothing_selected_writes_nothing() {
    let types = vec![BtfType::Void, int_of("int", 32), alias("t", 1)];
    let btf = Btf::new(types, 8).unwrap();
    let mut dumper = CDumper::new(&btf, false).unwrap();
    dumper.dump_types(|_id, _t| false).unwrap();
    assert_eq!(dumper.output(), "");
}

#[test]
fn dump_accepted_takes_the_selection_as_flags() {
    let types = vec![
        BtfType::Void,
        int_of("int", 32),
        alias("first", 1),
        alias("second", 1),
    ];
    let btf = Btf::new(types, 8).unwrap();
    let mut dumper = CDumper::new(&btf, false).unwrap();
    dumper.dump_accepted(&vec![false, false, false, true]).unwrap();
    assert_eq!(dumper.output(), "typedef int second;\n\n");
    let mut short = CDumper::new(&btf, false).unwrap();
    short.dump_accepted(&vec![true, true, true]).unwrap();
    assert_eq!(short.output(), "typedef int first;\n\n");
}

#[test]
fn same_dump_twice_gives_the_same_text() {
    let make = || {
        vec![
            BtfType::Void,
            record("a", 8, vec![field("b", 3, 0)]),
            record("b", 8, vec![field("a", 4, 0)]),
            pointer(2),
            pointer(1),
            enumeration("e", vec![("X", 1), ("Y", 2)]),
        ]
    };
    assert_eq!(dump(make()), dump(make()));
}

#[test]
fn blacklisted_typedef_is_left_out() {
    let types = vec![
        BtfType::Void,
        int_of("int", 32),
        alias("__builtin_va_list", 1),
        alias("plain", 1),
    ];
    assert_eq!(dump(types), "typedef int plain;\n\n");
}

#[test]
fn blacklist_matches_anywhere_in_the_name() {
    let types = vec![
        BtfType::Void,
        int_of("int", 32),
        record("my__builtin_va_list_tag", 4, vec![field("x", 1, 0)]),
    ];
    assert_eq!(dump(types), "");
}

#[test]
fn skip_flags_leave_out_what_they_select() {
    let types = vec![
        BtfType::Void,
        int_of("int", 32),
        record("a", 4, vec![field("x", 1, 0)]),
        record("b", 4, vec![field("y", 1, 0)]),
    ];
    let btf = Btf::new(types, 8).unwrap();
    let mut dumper = CDumper::with_skipped(&btf, false, &vec![false, false, true]);
    dumper.dump_types(|_id, _t| true).unwrap();
    assert_eq!(dumper.output(), "struct b {\n\tint y;\n};\n\n");
}

#[test]
fn undeclarable_member_type_is_traced_only_when_verbose() {
    let make = || {
        vec![
            BtfType::Void,
            BtfType::Func(BtfFunc { name: "foo".to_string(), proto_type_id: 2 }),
            prototype(0, vec![]),
            pointer(1),
            record("s", 8, vec![field("f", 3, 0)]),
        ]
    };
    assert_eq!(dump_with(make(), 8, false), "struct s {\n\t;\n};\n\n");
    assert_eq!(
        dump_with(make(), 8, true),
        "struct s {\n\t!@#! UNEXPECT TYPE DECL CHAIN [3] --> [1] <FUNC> 'foo' --> [2];\n};\n\n"
    );
}

#[test]
fn deep_nesting_is_indented_by_at_most_twelve_tabs() {
    let mut types = vec![BtfType::Void, int_of("int", 32)];
    // ids 2..=15: anonymous structs, each holding the one before
    types.push(record("", 4, vec![field("x", 1, 0)]));
    for id in 3..=15u32 {
        types.push(record("", 4, vec![field("n", id - 1, 0)]));
    }
    types.push(record("top", 4, vec![field("n", 15, 0)]));
    let text = dump(types);
    assert!(text.starts_with("struct top {\n\tstruct {\n\t\tstruct {\n"));
    let twelve = "\t".repeat(12);
    let thirteen = "\t".repeat(13);
    assert!(text.contains(&format!("\n{}int x;\n", twelve)));
    assert!(!text.contains(&thirteen));
    assert!(text.ends_with("\t} n;\n};\n\n"));
}

#[test]
fn anonymous_struct_behind_a_pointer_is_written_inline() {
    let types = vec![
        BtfType::Void,
        int_of("int", 32),
        record("", 4, vec![field("x", 1, 0)]),
        pointer(2),
        record("a", 8, vec![field("p", 3, 0)]),
    ];
    assert_eq!(
        dump(types),
        "struct a {\n\tstruct {\n\t\tint x;\n\t} *p;\n};\n\n"
    );
}

#[test]
fn typedef_that_is_ordered_twice_is_written_once() {
    let types = vec![
        BtfType::Void,
        alias("fn_t", 2),
        prototype(0, vec![("s", 3), ("e", 4)]),
        record("S", 8, vec![field("cb", 5, 0)]),
        enumeration("E", vec![("A", 0)]),
        pointer(1),
    ];
    assert_eq!(
        dump(types),
        "enum E {\n\tA = 0,\n};\n\nstruct S;\n\ntypedef void fn_t(struct S s, enum E e);\n\nstruct S {\n\tfn_t *cb;\n};\n\n"
    );
}

#[test]
fn cycle_through_an_anonymous_struct_fails() {
    let types = vec![
        BtfType::Void,
        record("", 8, vec![field("next", 2, 0)]),
        pointer(1),
        record("holder", 8, vec![field("inner", 1, 0)]),
    ];
    let btf = Btf::new(types, 8).unwrap();
    let mut dumper = CDumper::new(&btf, false).unwrap();
    let err = dumper.dump_types(|_id, _t| true).unwrap_err();
    assert_eq!(err.kind, btfdump::error::BtfErrorKind::UnsatisfiableCycle);
    assert_eq!(err.id, 1);
    assert_eq!(
        err.message,
        "Unsatisfiable type cycle, id: 1, type: <STRUCT> '<anon>' sz:8 n:1\n\t#00 'next' off:0 --> [2]"
    );
}

#[test]
fn output_written_before_a_failure_stays() {
    let types = vec![
        BtfType::Void,
        int_of("int", 32),
        alias("fine", 1),
        record("x", 8, vec![field("self", 3, 0)]),
    ];
    let btf = Btf::new(types, 8).unwrap();
    let mut dumper = CDumper::new(&btf, false).unwrap();
    assert!(dumper.dump_types(|id, _t| id == 2).is_ok());
    assert!(dumper.dump_types(|id, _t| id == 3).is_err());
    assert_eq!(dumper.output(), "typedef int fine;\n\n");
}

#[test]
fn left_out_name_is_traced_when_verbose() {
    let make = || {
        vec![
            BtfType::Void,
            int_of("int", 32),
            alias("__builtin_va_list", 1),
        ]
    };
    assert_eq!(dump_with(make(), 8, false), "");
    assert_eq!(
        dump_with(make(), 8, true),
        "!@#! BLACKLISTED id: 2, type: <TYPEDEF> '__builtin_va_list' --> [1]"
    );
}

#[test]
fn pointer_to_a_left_out_struct() {
    let types = vec![
        BtfType::Void,
        int_of("int", 32),
        record("__builtin_va_list", 4, vec![field("x", 1, 0)]),
        pointer(2),
        record("user", 8, vec![field("p", 3, 0)]),
    ];
    let btf = Btf::new(types, 8).unwrap();
    let mut dumper = CDumper::new(&btf, false).unwrap();
    dumper.dump_types(|id, _t| id == 4).unwrap();
    assert_eq!(dumper.output(), "struct user {\n\t *p;\n};\n\n");
}

#[test]
fn definition_embedded_through_an_anonymous_struct_comes_first() {
    let types = vec![
        BtfType::Void,
        int_of("int", 32),
        record("outer", 4, vec![field("in", 3, 0)]),
        record("", 4, vec![field("b", 4, 0)]),
        record("inner", 4, vec![field("x", 1, 0)]),
    ];
    assert_eq!(
        dump(types),
        "struct inner {\n\tint x;\n};\n\n\
         struct outer {\n\tstruct {\n\t\tstruct inner b;\n\t} in;\n};\n\n"
    );
}

#[test]
fn definition_embedded_through_an_anonymous_union_in_an_array_comes_first() {
    let types = vec![
        BtfType::Void,
        int_of("int", 32),
        alias("outer_t", 3),
        array_of(4, 2),
        overlay("", 4, vec![field("e", 5, 0)]),
        enumeration("kind", vec![("A", 0)]),
    ];
    assert_eq!(
        dump(types),
        "enum kind {\n\tA = 0,\n};\n\n\
         typedef union {\n\tenum kind e;\n} outer_t[2];\n\n"
    );
}

#[test]
fn padding_fields_add_up_to_the_gap() {
    let types = vec![
        BtfType::Void,
        int_of("int", 32),
        record(
            "s",
            16,
            vec![bitfield("a", 1, 0, 3), bitfield("b", 1, 80, 1)],
        ),
    ];
    assert_eq!(
        dump(types),
        "struct s {\n\tint a: 3;\n\tlong: 13;\n\tlong: 64;\n\tint b: 1;\n};\n\n"
    );
}

#[test]
fn left_out_enum_and_forward_declaration_leave_no_terminator() {
    let types = vec![
        BtfType::Void,
        int_of("int", 32),
        enumeration("e", vec![("A", 0)]),
        BtfType::Fwd(BtfFwd { name: "f".to_string(), kind: BtfFwdKind::Struct }),
        overlay("u", 4, vec![field("x", 1, 0)]),
        record("kept", 4, vec![field("x", 1, 0)]),
    ];
    let btf = Btf::new(types, 8).unwrap();
    let mut dumper = CDumper::with_skipped(&btf, false, &vec![false, false, true, true, true]);
    dumper.dump_types(|_id, _t| true).unwrap();
    assert_eq!(dumper.output(), "struct kept {\n\tint x;\n};\n\n");
}

#[test]
fn left_out_typedef_that_serves_as_forward_leaves_no_terminator() {
    let make = || {
        vec![
            BtfType::Void,
            int_of("int", 32),
            record("s", 8, vec![field("p", 3, 0)]),
            pointer(4),
            alias("hidden_t", 1),
        ]
    };
    let btf = Btf::new(make(), 8).unwrap();
    let mut dumper = CDumper::with_skipped(&btf, false, &vec![false, false, false, false, true]);
    dumper.dump_types(|id, _t| id == 2).unwrap();
    assert_eq!(dumper.output(), "struct s {\n\thidden_t *p;\n};\n\n");
    let btf = Btf::new(make(), 8).unwrap();
    let mut dumper = CDumper::with_skipped(&btf, false, &Vec::new());
    dumper.dump_types(|id, _t| id == 2).unwrap();
    assert_eq!(
        dumper.output(),
        "typedef int hidden_t;\n\nstruct s {\n\thidden_t *p;\n};\n\n"
    );
}
