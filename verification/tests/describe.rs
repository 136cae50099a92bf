use btfdump::types::BtfArray;
use btfdump::types::BtfConst;
use btfdump::types::BtfDatasec;
use btfdump::types::BtfDatasecVar;
use btfdump::types::BtfEnum;
use btfdump::types::BtfEnumValue;
use btfdump::types::BtfFunc;
use btfdump::types::BtfFuncParam;
use btfdump::types::BtfFuncProto;
use btfdump::types::BtfFwd;
use btfdump::types::BtfFwdKind;
use btfdump::types::BtfInt;
use btfdump::types::BtfIntEncoding;
use btfdump::types::BtfMember;
use btfdump::types::BtfPtr;
use btfdump::types::BtfRestrict;
use btfdump::types::BtfStruct;
use btfdump::types::BtfType;
use btfdump::types::BtfTypedef;
use btfdump::types::BtfUnion;
use btfdump::types::BtfVar;
use btfdump::types::BtfVarKind;
use btfdump::types::BtfVolatile;

#[test]
fn describe_void() {
    assert_eq!(BtfType::Void.description(), "<VOID>");
}

#[test]
fn describe_int() {
    let plain = BtfType::Int(BtfInt {
        name: "int".to_string(),
        bits: 32,
        offset: 0,
        encoding: BtfIntEncoding::Plain,
    });
    assert_eq!(plain.description(), "<INT> 'int' bits:32 off:0");
    let signed = BtfType::Int(BtfInt {
        name: String::new(),
        bits: 7,
        offset: 1,
        encoding: BtfIntEncoding::Signed,
    });
    assert_eq!(signed.description(), "<INT> '<anon>' bits:7 off:1 enc:signed");
    assert_eq!(BtfIntEncoding::Plain.description(), "none");
    assert_eq!(BtfIntEncoding::Char.description(), "char");
    assert_eq!(BtfIntEncoding::Bool.description(), "bool");
}

#[test]
fn describe_references() {
    assert_eq!(BtfType::Ptr(BtfPtr { type_id: 3 }).description(), "<PTR> --> [3]");
    assert_eq!(
        BtfType::Volatile(BtfVolatile { type_id: 4 }).description(),
        "<VOLATILE> --> [4]"
    );
    assert_eq!(BtfType::Const(BtfConst { type_id: 5 }).description(), "<CONST> --> [5]");
    assert_eq!(
        BtfType::Restrict(BtfRestrict { type_id: 6 }).description(),
        "<RESTRICT> --> [6]"
    );
    assert_eq!(
        BtfType::Typedef(BtfTypedef { name: "t".to_string(), type_id: 7 }).description(),
        "<TYPEDEF> 't' --> [7]"
    );
    assert_eq!(
        BtfType::Func(BtfFunc { name: "f".to_string(), proto_type_id: 8 }).description(),
        "<FUNC> 'f' --> [8]"
    );
    assert_eq!(
        BtfType::Array(BtfArray { nelems: 9, idx_type_id: 1, val_type_id: 2 }).description(),
        "<ARRAY> n:9 idx-->[1] val-->[2]"
    );
}

#[test]
fn describe_composites() {
    let members = vec![
        BtfMember { name: "a".to_string(), type_id: 1, bit_offset: 0, bit_size: 0 },
        BtfMember { name: String::new(), type_id: 2, bit_offset: 35, bit_size: 3 },
    ];
    let s = BtfType::Struct(BtfStruct { name: "s".to_string(), sz: 8, members: members.clone() });
    assert_eq!(
        s.description(),
        "<STRUCT> 's' sz:8 n:2\n\t#00 'a' off:0 --> [1]\n\t#01 '<anon>' off:35 sz:3 --> [2]"
    );
    let u = BtfType::Union(BtfUnion { name: String::new(), sz: 4, members: vec![] });
    assert_eq!(u.description(), "<UNION> '<anon>' sz:4 n:0");
}

#[test]
fn describe_list_positions_have_two_digits() {
    let members: Vec<BtfMember> = (0..11)
        .map(|i| BtfMember { name: format!("m{}", i), type_id: 1, bit_offset: 8 * i, bit_size: 0 })
        .collect();
    let s = BtfType::Struct(BtfStruct { name: "s".to_string(), sz: 11, members });
    let text = s.description();
    assert!(text.contains("\n\t#09 'm9' off:72 --> [1]"));
    assert!(text.ends_with("\n\t#10 'm10' off:80 --> [1]"));
}

#[test]
fn describe_enum() {
    let e = BtfType::Enum(BtfEnum {
        name: "e".to_string(),
        sz_bits: 4,
        values: vec![
            BtfEnumValue { name: "A".to_string(), value: 1 },
            BtfEnumValue { name: "B".to_string(), value: -2 },
        ],
    });
    assert_eq!(e.description(), "<ENUM> 'e' sz:4 n:2\n\t#00 A = 1\n\t#01 B = -2");
}

#[test]
fn describe_fwd() {
    let f = BtfType::Fwd(BtfFwd { name: "f".to_string(), kind: BtfFwdKind::Union });
    assert_eq!(f.description(), "<FWD> 'f' kind:union");
    assert_eq!(BtfFwdKind::Struct.description(), "struct");
}

#[test]
fn describe_func_proto() {
    let p = BtfType::FuncProto(BtfFuncProto {
        res_type_id: 1,
        params: vec![
            BtfFuncParam { name: "x".to_string(), type_id: 2 },
            BtfFuncParam { name: String::new(), type_id: 0 },
        ],
    });
    assert_eq!(
        p.description(),
        "<FUNC_PROTO> r-->[1] n:2\n\t#00 'x' --> [2]\n\t#01 '<anon>' --> [0]"
    );
}

#[test]
fn describe_var_and_datasec() {
    let v = BtfType::Var(BtfVar {
        name: "v".to_string(),
        type_id: 3,
        kind: BtfVarKind::GlobalAlloc,
    });
    assert_eq!(v.description(), "<VAR> 'v' kind:global-alloc --> [3]");
    assert_eq!(BtfVarKind::Static.description(), "static");
    let d = BtfType::Datasec(BtfDatasec {
        name: ".bss".to_string(),
        sz: 16,
        vars: vec![BtfDatasecVar { type_id: 4, offset: 8, sz: 4 }],
    });
    assert_eq!(d.description(), "<DATASEC> '.bss' sz:16 n:1\n\t#00 off:8 sz:4 --> [4]");
}
