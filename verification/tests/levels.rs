use btfdump::blacklist::blacklist_flags;
use btfdump::blacklist::default_blacklist;
use btfdump::btf::Btf;
use btfdump::emitter::Emitter;
use btfdump::error::BtfErrorKind;
use btfdump::types::BtfInt;
use btfdump::types::BtfIntEncoding;
use btfdump::types::BtfMember;
use btfdump::types::BtfStruct;
use btfdump::types::BtfType;
use btfdump::types::BtfTypedef;
use btfdump::types::BtfUnion;

fn small_graph() -> Btf {
    let types = vec![
        BtfType::Void,
        BtfType::Int(BtfInt {
            name: "int".to_string(),
            bits: 32,
            offset: 0,
            encoding: BtfIntEncoding::Signed,
        }),
        BtfType::Struct(BtfStruct {
            name: "s".to_string(),
            sz: 4,
            members: vec![BtfMember {
                name: "x".to_string(),
                type_id: 1,
                bit_offset: 0,
                bit_size: 0,
            }],
        }),
    ];
    Btf::new(types, 8).unwrap()
}

fn nested_graph() -> Btf {
    let member = |name: &str, type_id: u32| BtfMember {
        name: name.to_string(),
        type_id,
        bit_offset: 0,
        bit_size: 0,
    };
    let types = vec![
        BtfType::Void,
        BtfType::Int(BtfInt {
            name: "int".to_string(),
            bits: 32,
            offset: 0,
            encoding: BtfIntEncoding::Signed,
        }),
        BtfType::Struct(BtfStruct { name: String::new(), sz: 4, members: vec![member("x", 1)] }),
        BtfType::Union(BtfUnion { name: "u".to_string(), sz: 4, members: vec![member("in", 2)] }),
        BtfType::Typedef(BtfTypedef { name: "t".to_string(), type_id: 2 }),
    ];
    Btf::new(types, 8).unwrap()
}

fn tabs(n: usize) -> String {
    "\t".repeat(n)
}

fn struct_at(btf: &Btf, id: u32, lvl: usize, skip: Vec<bool>) -> String {
    let mut em = Emitter::new(btf, skip, false);
    match btf.type_by_id(id) {
        BtfType::Struct(t) => em.emit_struct_def(id, t, lvl),
        other => panic!("no struct: {:?}", other),
    }
    em.output().to_string()
}

#[test]
fn struct_keeps_its_members_at_the_level_of_the_number_of_types() {
    let btf = small_graph();
    assert_eq!(
        struct_at(&btf, 2, 3, vec![false; 3]),
        "struct s {\n\t\t\t\tint x;\n\t\t\t}"
    );
}

#[test]
fn struct_at_the_top_level() {
    let btf = small_graph();
    assert_eq!(struct_at(&btf, 2, 0, vec![false; 3]), "struct s {\n\tint x;\n}");
}

#[test]
fn indentation_stops_at_twelve_tabs() {
    let btf = small_graph();
    assert_eq!(
        struct_at(&btf, 2, 11, vec![false; 3]),
        format!("struct s {{\n{}int x;\n{}}}", tabs(12), tabs(11))
    );
    assert_eq!(
        struct_at(&btf, 2, 12, vec![false; 3]),
        format!("struct s {{\n{}int x;\n{}}}", tabs(12), tabs(12))
    );
    assert_eq!(
        struct_at(&btf, 2, 1000, vec![false; 3]),
        format!("struct s {{\n{}int x;\n{}}}", tabs(12), tabs(12))
    );
    assert_eq!(
        struct_at(&btf, 2, usize::MAX, vec![false; 3]),
        format!("struct s {{\n{}int x;\n{}}}", tabs(12), tabs(12))
    );
}

#[test]
fn left_out_struct_writes_nothing_at_any_level() {
    let btf = small_graph();
    assert_eq!(struct_at(&btf, 2, 0, vec![false, false, true]), "");
    assert_eq!(struct_at(&btf, 2, 7, vec![false, false, true]), "");
}

#[test]
fn declaration_of_an_anonymous_struct_at_a_level() {
    let btf = nested_graph();
    let mut em = Emitter::new(&btf, vec![false; 5], false);
    em.emit_type_decl(2, "v", 5);
    assert_eq!(
        em.output(),
        format!("struct {{\n{}int x;\n{}}} v", tabs(6), tabs(5))
    );
}

#[test]
fn union_with_a_nested_struct_at_a_level() {
    let btf = nested_graph();
    let mut em = Emitter::new(&btf, vec![false; 5], false);
    match btf.type_by_id(3) {
        BtfType::Union(t) => em.emit_union_def(3, t, 5),
        other => panic!("no union: {:?}", other),
    }
    assert_eq!(
        em.output(),
        format!(
            "union u {{\n{}struct {{\n{}int x;\n{}}} in;\n{}}}",
            tabs(6),
            tabs(7),
            tabs(6),
            tabs(5)
        )
    );
}

#[test]
fn typedef_of_an_anonymous_struct_at_a_level() {
    let btf = nested_graph();
    let mut em = Emitter::new(&btf, vec![false; 5], false);
    match btf.type_by_id(4) {
        BtfType::Typedef(t) => em.emit_typedef_def(4, t, 5),
        other => panic!("no typedef: {:?}", other),
    }
    assert_eq!(
        em.output(),
        format!("typedef struct {{\n{}int x;\n{}}} t", tabs(6), tabs(5))
    );
}

#[test]
fn declarations_at_different_levels_from_one_emitter() {
    let btf = small_graph();
    let mut em = Emitter::new(&btf, vec![false; 3], false);
    match btf.type_by_id(2) {
        BtfType::Struct(t) => {
            em.emit_struct_def(2, t, 4);
            em.write(";");
            em.emit_struct_def(2, t, 0);
        },
        other => panic!("no struct: {:?}", other),
    }
    assert_eq!(
        em.output(),
        format!("struct s {{\n{}int x;\n{}}};struct s {{\n\tint x;\n}}", tabs(5), tabs(4))
    );
}

#[test]
fn enum_at_a_level() {
    let types = vec![
        BtfType::Void,
        BtfType::Enum(btfdump::types::BtfEnum {
            name: "e".to_string(),
            sz_bits: 32,
            values: vec![btfdump::types::BtfEnumValue { name: "A".to_string(), value: -1 }],
        }),
    ];
    let btf = Btf::new(types, 8).unwrap();
    for (lvl, inner, outer) in [(0, 1, 0), (2, 3, 2), (11, 12, 11), (usize::MAX, 12, 12)] {
        let mut em = Emitter::new(&btf, vec![false; 2], false);
        match btf.type_by_id(1) {
            BtfType::Enum(t) => em.emit_enum_def(1, t, lvl),
            other => panic!("no enum: {:?}", other),
        }
        assert_eq!(
            em.output(),
            format!("enum e {{\n{}A = -1,\n{}}}", tabs(inner), tabs(outer))
        );
    }
}

#[test]
fn default_blacklist_compiles() {
    let btf = small_graph();
    let flags = blacklist_flags(&btf, &default_blacklist()).unwrap();
    assert_eq!(flags, vec![false, false, false]);
}

#[test]
fn patterns_that_compile_give_flags() {
    let btf = small_graph();
    let patterns = vec!["^s$".to_string(), "i.t".to_string()];
    let flags = blacklist_flags(&btf, &patterns).unwrap();
    assert_eq!(flags, vec![false, true, true]);
}

#[test]
fn no_patterns_leave_nothing_out() {
    let btf = small_graph();
    let flags = blacklist_flags(&btf, &Vec::new()).unwrap();
    assert_eq!(flags, vec![false, false, false]);
}

#[test]
fn pattern_that_does_not_compile_is_refused() {
    let btf = small_graph();
    let patterns = vec!["s".to_string(), "(".to_string()];
    let e = blacklist_flags(&btf, &patterns).unwrap_err();
    assert_eq!(e.kind, BtfErrorKind::InvalidBlacklist);
    assert_eq!(e.id, 0);
}
