use btfdump::btf::Btf;
use btfdump::error::BtfError;
use btfdump::error::BtfErrorKind;
use btfdump::layout::chip_away_bits;
use btfdump::names::NameResolver;
use btfdump::names::NameTable;
use btfdump::names::NamedKind;
use btfdump::text::disp_name;
use btfdump::text::pfx;
use btfdump::text::push_decimal;
use btfdump::text::push_signed_decimal;
use btfdump::text::sep;
use btfdump::text::str_eq;
use btfdump::types::BtfEnum;
use btfdump::types::BtfEnumValue;
use btfdump::types::BtfKind;
use btfdump::types::BtfStruct;
use btfdump::types::BtfType;
use btfdump::types::BtfTypedef;

fn decimal_of(n: u64) -> String {
    let mut s = String::new();
    push_decimal(&mut s, n);
    s
}

fn signed_decimal_of(n: i64) -> String {
    let mut s = String::from("=");
    push_signed_decimal(&mut s, n);
    s
}

#[test]
fn decimal_notation() {
    assert_eq!(decimal_of(0), "0");
    assert_eq!(decimal_of(7), "7");
    assert_eq!(decimal_of(10), "10");
    assert_eq!(decimal_of(1234567890), "1234567890");
    assert_eq!(decimal_of(u64::MAX), "18446744073709551615");
    assert_eq!(signed_decimal_of(0), "=0");
    assert_eq!(signed_decimal_of(-1), "=-1");
    assert_eq!(signed_decimal_of(i32::MIN as i64), "=-2147483648");
    assert_eq!(signed_decimal_of(i32::MAX as i64), "=2147483647");
}

#[test]
fn separator_and_indentation() {
    assert_eq!(sep(""), "");
    assert_eq!(sep("x"), " ");
    assert_eq!(pfx(0), "");
    assert_eq!(pfx(1), "\t");
    assert_eq!(pfx(5), "\t\t\t\t\t");
    assert_eq!(pfx(12), "\t\t\t\t\t\t\t\t\t\t\t\t");
    assert_eq!(pfx(13), "\t\t\t\t\t\t\t\t\t\t\t\t");
    assert_eq!(pfx(usize::MAX), "\t\t\t\t\t\t\t\t\t\t\t\t");
}

#[test]
fn shown_names() {
    assert_eq!(disp_name(""), "<anon>");
    assert_eq!(disp_name("x"), "x");
}

#[test]
fn string_equality() {
    assert!(str_eq("abc", "abc"));
    assert!(!str_eq("abc", "abd"));
    assert!(!str_eq("abc", "ab"));
    assert!(str_eq("", ""));
}

#[test]
fn chipping_bits() {
    assert_eq!(chip_away_bits(13, 16), 13);
    assert_eq!(chip_away_bits(16, 16), 16);
    assert_eq!(chip_away_bits(99, 64), 35);
    assert_eq!(chip_away_bits(64, 64), 64);
    assert_eq!(chip_away_bits(5, 8), 5);
    assert_eq!(chip_away_bits(96, 32), 32);
}

#[test]
fn kinds_by_word() {
    let cases: Vec<(&str, BtfKind)> = vec![
        ("void", BtfKind::Void),
        ("int", BtfKind::Int),
        ("i", BtfKind::Int),
        ("ptr", BtfKind::Ptr),
        ("p", BtfKind::Ptr),
        ("array", BtfKind::Array),
        ("arr", BtfKind::Array),
        ("a", BtfKind::Array),
        ("struct", BtfKind::Struct),
        ("s", BtfKind::Struct),
        ("union", BtfKind::Union),
        ("u", BtfKind::Union),
        ("enum", BtfKind::Enum),
        ("e", BtfKind::Enum),
        ("fwd", BtfKind::Fwd),
        ("typedef", BtfKind::Typedef),
        ("t", BtfKind::Typedef),
        ("volatile", BtfKind::Volatile),
        ("const", BtfKind::Const),
        ("restrict", BtfKind::Restrict),
        ("func_proto", BtfKind::FuncProto),
        ("funcproto", BtfKind::FuncProto),
        ("fnproto", BtfKind::FuncProto),
        ("fp", BtfKind::FuncProto),
        ("func", BtfKind::Func),
        ("fn", BtfKind::Func),
        ("var", BtfKind::Var),
        ("v", BtfKind::Var),
        ("datasec", BtfKind::Datasec),
    ];
    for (word, kind) in cases {
        assert_eq!(BtfKind::parse(word).unwrap(), kind, "{}", word);
        assert_eq!(word.parse::<BtfKind>().unwrap(), kind, "{}", word);
    }
}

#[test]
fn unknown_word_is_no_kind() {
    let err: BtfError = BtfKind::parse("Struct").unwrap_err();
    assert_eq!(err.kind, BtfErrorKind::UnrecognizedKind);
    assert_eq!(err.message, "unrecognized btf kind: 'Struct'");
    assert!("".parse::<BtfKind>().is_err());
}

#[test]
fn version_counters() {
    let mut table = NameTable::new();
    assert_eq!(table.bump(NamedKind::Composite, "foo"), 1);
    assert_eq!(table.bump(NamedKind::Composite, "foo"), 2);
    assert_eq!(table.bump(NamedKind::Typedef, "foo"), 1);
    assert_eq!(table.bump(NamedKind::Composite, "bar"), 1);
    assert_eq!(table.bump(NamedKind::Composite, "foo"), 3);
    assert_eq!(table.bump(NamedKind::Func, ""), 1);
}

#[test]
fn resolving_is_remembered() {
    let mut resolver = NameResolver::new(4);
    assert_eq!(resolver.resolve_kind_name(NamedKind::Composite, 1, "foo"), "foo");
    assert_eq!(resolver.resolve_kind_name(NamedKind::Composite, 2, "foo"), "foo__2");
    assert_eq!(resolver.resolve_kind_name(NamedKind::Composite, 1, "foo"), "foo");
    assert_eq!(resolver.resolve_kind_name(NamedKind::Composite, 2, "foo"), "foo__2");
    assert_eq!(resolver.resolve_kind_name(NamedKind::Composite, 3, "foo"), "foo__3");
    assert_eq!(resolver.resolve_kind_name(NamedKind::Composite, 0, ""), "");
}

#[test]
fn namesake_of_a_suffixed_name_can_collide() {
    // what the second `foo` is called is also what a third entity may be
    // called from the start
    let mut resolver = NameResolver::new(4);
    assert_eq!(resolver.resolve_kind_name(NamedKind::Composite, 1, "foo"), "foo");
    assert_eq!(resolver.resolve_kind_name(NamedKind::Composite, 2, "foo"), "foo__2");
    assert_eq!(resolver.resolve_kind_name(NamedKind::Composite, 3, "foo__2"), "foo__2");
}

#[test]
fn names_by_kind_of_node() {
    let types = vec![
        BtfType::Void,
        BtfType::Struct(BtfStruct { name: "x".to_string(), sz: 0, members: vec![] }),
        BtfType::Typedef(BtfTypedef { name: "x".to_string(), type_id: 0 }),
        BtfType::Struct(BtfStruct { name: "x".to_string(), sz: 0, members: vec![] }),
    ];
    let btf = Btf::new(types, 8).unwrap();
    let mut resolver = NameResolver::new(4);
    assert_eq!(resolver.resolve_name(&btf, 1), "x");
    assert_eq!(resolver.resolve_name(&btf, 2), "x");
    assert_eq!(resolver.resolve_name(&btf, 3), "x__2");
    assert_eq!(resolver.resolve_name(&btf, 0), "");
}

#[test]
fn every_use_of_an_enumerator_counts() {
    let e = BtfEnum {
        name: "e".to_string(),
        sz_bits: 32,
        values: vec![BtfEnumValue { name: "A".to_string(), value: 0 }],
    };
    let anon = BtfEnum { name: String::new(), sz_bits: 32, values: vec![] };
    let types = vec![BtfType::Void, BtfType::Enum(e.clone()), BtfType::Enum(anon.clone())];
    let btf = Btf::new(types, 8).unwrap();
    let mut resolver = NameResolver::new(3);
    assert_eq!(resolver.resolve_enum_val_name(&btf, 1, &e, "A"), "A");
    assert_eq!(resolver.resolve_enum_val_name(&btf, 1, &e, "A"), "A__e");
    assert_eq!(resolver.resolve_enum_val_name(&btf, 2, &anon, "A"), "A__3");
    assert_eq!(resolver.resolve_enum_val_name(&btf, 2, &anon, "B"), "B");
}
