//! The nodes of a BTF type graph.
use vstd::prelude::*;
use vstd::string::*;
use crate::error::BtfError;
use crate::error::BtfErrorKind;
use crate::text::str_eq;

verus! {

/// How the bits of an integer type are interpreted.
#[derive(Debug, Clone, Copy, PartialEq, Eq, Structural)]
pub enum BtfIntEncoding {
    Plain,
    Signed,
    Char,
    Bool,
}

/// An integer type of `bits` bits.
#[derive(Debug, Clone)]
pub struct BtfInt {
    pub name: String,
    pub bits: u32,
    pub offset: u32,
    pub encoding: BtfIntEncoding,
}

/// A pointer to the type `type_id`.
#[derive(Debug, Clone)]
pub struct BtfPtr {
    pub type_id: u32,
}

/// An array of `nelems` elements of the type `val_type_id`.
#[derive(Debug, Clone)]
pub struct BtfArray {
    pub nelems: u32,
    pub idx_type_id: u32,
    pub val_type_id: u32,
}

/// A member of a struct or union. A `bit_size` of zero means that the member
/// is no bitfield.
#[derive(Debug, Clone)]
pub struct BtfMember {
    pub name: String,
    pub type_id: u32,
    pub bit_offset: u32,
    pub bit_size: u8,
}

/// A struct of `sz` bytes.
#[derive(Debug, Clone)]
pub struct BtfStruct {
    pub name: String,
    pub sz: u32,
    pub members: Vec<BtfMember>,
}

/// A union of `sz` bytes.
#[derive(Debug, Clone)]
pub struct BtfUnion {
    pub name: String,
    pub sz: u32,
    pub members: Vec<BtfMember>,
}

/// An enumerator.
#[derive(Debug, Clone)]
pub struct BtfEnumValue {
    pub name: String,
    pub value: i32,
}

/// An enum.
#[derive(Debug, Clone)]
pub struct BtfEnum {
    pub name: String,
    pub sz_bits: u32,
    pub values: Vec<BtfEnumValue>,
}

/// What a forward declaration declares.
#[derive(Debug, Clone, Copy, PartialEq, Eq, Structural)]
pub enum BtfFwdKind {
    Struct,
    Union,
}

/// The forward declaration of a struct or union.
#[derive(Debug, Clone)]
pub struct BtfFwd {
    pub name: String,
    pub kind: BtfFwdKind,
}

/// A name for the type `type_id`.
#[derive(Debug, Clone)]
pub struct BtfTypedef {
    pub name: String,
    pub type_id: u32,
}

/// The type `type_id`, volatile.
#[derive(Debug, Clone)]
pub struct BtfVolatile {
    pub type_id: u32,
}

/// The type `type_id`, const.
#[derive(Debug, Clone)]
pub struct BtfConst {
    pub type_id: u32,
}

/// The type `type_id`, restrict.
#[derive(Debug, Clone)]
pub struct BtfRestrict {
    pub type_id: u32,
}

/// A function with the prototype `proto_type_id`.
#[derive(Debug, Clone)]
pub struct BtfFunc {
    pub name: String,
    pub proto_type_id: u32,
}

/// A parameter of a function prototype.
#[derive(Debug, Clone)]
pub struct BtfFuncParam {
    pub name: String,
    pub type_id: u32,
}

/// A function prototype: the type of the result and the parameters.
#[derive(Debug, Clone)]
pub struct BtfFuncProto {
    pub res_type_id: u32,
    pub params: Vec<BtfFuncParam>,
}

/// The linkage of a variable.
#[derive(Debug, Clone, Copy, PartialEq, Eq, Structural)]
pub enum BtfVarKind {
    Static,
    GlobalAlloc,
}

/// A variable of the type `type_id`.
#[derive(Debug, Clone)]
pub struct BtfVar {
    pub name: String,
    pub type_id: u32,
    pub kind: BtfVarKind,
}

/// A variable in a data section.
#[derive(Debug, Clone)]
pub struct BtfDatasecVar {
    pub type_id: u32,
    pub offset: u32,
    pub sz: u32,
}

/// A data section of `sz` bytes.
#[derive(Debug, Clone)]
pub struct BtfDatasec {
    pub name: String,
    pub sz: u32,
    pub vars: Vec<BtfDatasecVar>,
}

/// One node of the type graph.
#[derive(Debug, Clone)]
pub enum BtfType {
    Void,
    Int(BtfInt),
    Ptr(BtfPtr),
    Array(BtfArray),
    Struct(BtfStruct),
    Union(BtfUnion),
    Enum(BtfEnum),
    Fwd(BtfFwd),
    Typedef(BtfTypedef),
    Volatile(BtfVolatile),
    Const(BtfConst),
    Restrict(BtfRestrict),
    Func(BtfFunc),
    FuncProto(BtfFuncProto),
    Var(BtfVar),
    Datasec(BtfDatasec),
}

/// The tag of a node, without its contents.
#[derive(Debug, Clone, Copy, PartialEq, Eq, Hash, Structural)]
pub enum BtfKind {
    Void,
    Int,
    Ptr,
    Array,
    Struct,
    Union,
    Enum,
    Fwd,
    Typedef,
    Volatile,
    Const,
    Restrict,
    Func,
    FuncProto,
    Var,
    Datasec,
}

impl BtfType {
    /// The tag of this node.
    pub open spec fn spec_kind(&self) -> BtfKind {
        match self {
            BtfType::Void => BtfKind::Void,
            BtfType::Int(_) => BtfKind::Int,
            BtfType::Ptr(_) => BtfKind::Ptr,
            BtfType::Array(_) => BtfKind::Array,
            BtfType::Struct(_) => BtfKind::Struct,
            BtfType::Union(_) => BtfKind::Union,
            BtfType::Enum(_) => BtfKind::Enum,
            BtfType::Fwd(_) => BtfKind::Fwd,
            BtfType::Typedef(_) => BtfKind::Typedef,
            BtfType::Volatile(_) => BtfKind::Volatile,
            BtfType::Const(_) => BtfKind::Const,
            BtfType::Restrict(_) => BtfKind::Restrict,
            BtfType::Func(_) => BtfKind::Func,
            BtfType::FuncProto(_) => BtfKind::FuncProto,
            BtfType::Var(_) => BtfKind::Var,
            BtfType::Datasec(_) => BtfKind::Datasec,
        }
    }

    /// The name this node carries; empty for the kinds that carry none and
    /// for anonymous definitions.
    pub open spec fn spec_name(&self) -> Seq<char> {
        match self {
            BtfType::Int(t) => t.name@,
            BtfType::Struct(t) => t.name@,
            BtfType::Union(t) => t.name@,
            BtfType::Enum(t) => t.name@,
            BtfType::Fwd(t) => t.name@,
            BtfType::Typedef(t) => t.name@,
            BtfType::Func(t) => t.name@,
            BtfType::Var(t) => t.name@,
            BtfType::Datasec(t) => t.name@,
            _ => Seq::empty(),
        }
    }

    /// The tag of this node.
    #[verifier::when_used_as_spec(spec_kind)]
    pub fn kind(&self) -> (k: BtfKind)
        ensures
            k == self.spec_kind(),
    {
        match self {
            BtfType::Void => BtfKind::Void,
            BtfType::Int(_) => BtfKind::Int,
            BtfType::Ptr(_) => BtfKind::Ptr,
            BtfType::Array(_) => BtfKind::Array,
            BtfType::Struct(_) => BtfKind::Struct,
            BtfType::Union(_) => BtfKind::Union,
            BtfType::Enum(_) => BtfKind::Enum,
            BtfType::Fwd(_) => BtfKind::Fwd,
            BtfType::Typedef(_) => BtfKind::Typedef,
            BtfType::Volatile(_) => BtfKind::Volatile,
            BtfType::Const(_) => BtfKind::Const,
            BtfType::Restrict(_) => BtfKind::Restrict,
            BtfType::Func(_) => BtfKind::Func,
            BtfType::FuncProto(_) => BtfKind::FuncProto,
            BtfType::Var(_) => BtfKind::Var,
            BtfType::Datasec(_) => BtfKind::Datasec,
        }
    }

    /// The name this node carries; empty for the kinds that carry none and for
    /// anonymous definitions.
    pub fn name(&self) -> (s: &str)
        ensures
            s@ == self.spec_name(),
    {
        proof {
            reveal_strlit("");
        }
        match self {
            BtfType::Void => "",
            BtfType::Int(t) => t.name.as_str(),
            BtfType::Ptr(_) => "",
            BtfType::Array(_) => "",
            BtfType::Struct(t) => t.name.as_str(),
            BtfType::Union(t) => t.name.as_str(),
            BtfType::Enum(t) => t.name.as_str(),
            BtfType::Fwd(t) => t.name.as_str(),
            BtfType::Typedef(t) => t.name.as_str(),
            BtfType::Volatile(_) => "",
            BtfType::Const(_) => "",
            BtfType::Restrict(_) => "",
            BtfType::Func(t) => t.name.as_str(),
            BtfType::FuncProto(_) => "",
            BtfType::Var(t) => t.name.as_str(),
            BtfType::Datasec(t) => t.name.as_str(),
        }
    }
}

/// The kind that a word names: the name of the kind in lower case, or one
/// of its abbreviations.
pub open spec fn kind_named(word: Seq<char>) -> Option<BtfKind> {
    if word == "void"@ {
        Some(BtfKind::Void)
    } else if word == "int"@ || word == "i"@ {
        Some(BtfKind::Int)
    } else if word == "ptr"@ || word == "p"@ {
        Some(BtfKind::Ptr)
    } else if word == "array"@ || word == "arr"@ || word == "a"@ {
        Some(BtfKind::Array)
    } else if word == "struct"@ || word == "s"@ {
        Some(BtfKind::Struct)
    } else if word == "union"@ || word == "u"@ {
        Some(BtfKind::Union)
    } else if word == "enum"@ || word == "e"@ {
        Some(BtfKind::Enum)
    } else if word == "fwd"@ {
        Some(BtfKind::Fwd)
    } else if word == "typedef"@ || word == "t"@ {
        Some(BtfKind::Typedef)
    } else if word == "volatile"@ {
        Some(BtfKind::Volatile)
    } else if word == "const"@ {
        Some(BtfKind::Const)
    } else if word == "restrict"@ {
        Some(BtfKind::Restrict)
    } else if word == "func_proto"@ || word == "funcproto"@ || word == "fnproto"@ || word == "fp"@ {
        Some(BtfKind::FuncProto)
    } else if word == "func"@ || word == "fn"@ {
        Some(BtfKind::Func)
    } else if word == "var"@ || word == "v"@ {
        Some(BtfKind::Var)
    } else if word == "datasec"@ {
        Some(BtfKind::Datasec)
    } else {
        None
    }
}

/// The message of the error for a word that names no kind.
pub open spec fn unrecognized_kind_message(word: Seq<char>) -> Seq<char> {
    "unrecognized btf kind: '"@ + word + "'"@
}

impl BtfKind {
    /// The kind that `s` names; an error that quotes `s` if it names none.
    pub fn parse(s: &str) -> (r: Result<BtfKind, BtfError>)
        ensures
            match r {
                Ok(kind) => kind_named(s@) == Some(kind),
                Err(e) => kind_named(s@) is None && e.kind == BtfErrorKind::UnrecognizedKind
                    && e.id == 0 && e.message@ == unrecognized_kind_message(s@),
            },
    {
        if str_eq(s, "void") {
            Ok(BtfKind::Void)
        } else if str_eq(s, "int") || str_eq(s, "i") {
            Ok(BtfKind::Int)
        } else if str_eq(s, "ptr") || str_eq(s, "p") {
            Ok(BtfKind::Ptr)
        } else if str_eq(s, "array") || str_eq(s, "arr") || str_eq(s, "a") {
            Ok(BtfKind::Array)
        } else if str_eq(s, "struct") || str_eq(s, "s") {
            Ok(BtfKind::Struct)
        } else if str_eq(s, "union") || str_eq(s, "u") {
            Ok(BtfKind::Union)
        } else if str_eq(s, "enum") || str_eq(s, "e") {
            Ok(BtfKind::Enum)
        } else if str_eq(s, "fwd") {
            Ok(BtfKind::Fwd)
        } else if str_eq(s, "typedef") || str_eq(s, "t") {
            Ok(BtfKind::Typedef)
        } else if str_eq(s, "volatile") {
            Ok(BtfKind::Volatile)
        } else if str_eq(s, "const") {
            Ok(BtfKind::Const)
        } else if str_eq(s, "restrict") {
            Ok(BtfKind::Restrict)
        } else if str_eq(s, "func_proto") || str_eq(s, "funcproto") || str_eq(s, "fnproto")
            || str_eq(s, "fp") {
            Ok(BtfKind::FuncProto)
        } else if str_eq(s, "func") || str_eq(s, "fn") {
            Ok(BtfKind::Func)
        } else if str_eq(s, "var") || str_eq(s, "v") {
            Ok(BtfKind::Var)
        } else if str_eq(s, "datasec") {
            Ok(BtfKind::Datasec)
        } else {
            let mut message = String::new();
            message.append("unrecognized btf kind: '");
            message.append(s);
            message.append("'");
            assert(message@ =~= unrecognized_kind_message(s@));
            Err(BtfError { kind: BtfErrorKind::UnrecognizedKind, id: 0, message })
        }
    }
}

impl std::str::FromStr for BtfKind {
    type Err = BtfError;

    /// The kind that `s` names; an error that quotes `s` if it names none.
    fn from_str(s: &str) -> (r: Result<Self, Self::Err>)
        ensures
            match r {
                Ok(kind) => kind_named(s@) == Some(kind),
                Err(e) => kind_named(s@) is None && e.kind == BtfErrorKind::UnrecognizedKind
                    && e.id == 0 && e.message@ == unrecognized_kind_message(s@),
            },
    {
        BtfKind::parse(s)
    }
}

} // verus!
