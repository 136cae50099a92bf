//! The errors of this library.
use vstd::prelude::*;
use vstd::string::*;
use crate::describe::describe;
use crate::text::decimal;
use crate::text::push_decimal;
use crate::types::BtfType;

verus! {

/// What went wrong.
#[derive(Debug, Clone, Copy, PartialEq, Eq, Structural)]
pub enum BtfErrorKind {
    /// The graph itself is unusable: a reference out of range, a chain of
    /// references that never ends, a size beyond 32 bits.
    MalformedGraph,
    /// A cycle of definitions that no forward declaration can break.
    UnsatisfiableCycle,
    /// An anonymous struct or union that would need a forward declaration.
    AnonymousLoop,
    /// A definition was asked for while its forward pass was still under
    /// way.
    DefinitionLoop,
    /// A definition was asked for of something that is no named definition.
    UnexpectedDefinition,
    /// The patterns of the blacklist are no regular expressions, or too
    /// large ones.
    InvalidBlacklist,
    /// A word that names no kind of type.
    UnrecognizedKind,
    /// The data does not start with the magic number of BTF.
    BadMagic,
    /// The data is in a version of BTF other than 1.
    BadVersion,
    /// The data ends before what it announces.
    Truncated,
    /// A type record of a kind that BTF does not have.
    UnknownKind,
    /// An integer type with an encoding that BTF does not have.
    UnknownIntEncoding,
    /// A variable with a linkage that BTF does not have.
    UnknownVarKind,
    /// A name that lies outside the string section, does not end there, or
    /// is no UTF-8.
    BadString,
}

/// An error, with the id of the offending type and a message that describes
/// it.
#[derive(Debug, Clone)]
pub struct BtfError {
    pub kind: BtfErrorKind,
    pub id: u32,
    pub message: String,
}

/// The message of an error of `kind` about the node `t` with id `id`.
pub open spec fn error_message(kind: BtfErrorKind, id: u32, t: BtfType) -> Seq<char> {
    match kind {
        BtfErrorKind::MalformedGraph => "Malformed type reference, id: "@ + decimal(id as nat)
            + ", type: "@ + describe(t),
        BtfErrorKind::UnsatisfiableCycle => "Unsatisfiable type cycle, id: "@ + decimal(id as nat)
            + ", type: "@ + describe(t),
        BtfErrorKind::AnonymousLoop => (if t is Union {
            "anonymous union loop, id: "@
        } else {
            "anonymous struct loop, id: "@
        }) + decimal(id as nat) + ", type: "@ + describe(t),
        BtfErrorKind::DefinitionLoop => "unexpected emit_type_def loop at id:"@ + decimal(
            id as nat,
        ) + ", type:"@ + describe(t),
        BtfErrorKind::UnexpectedDefinition => "unexpected definition at id:"@ + decimal(id as nat)
            + ", type:"@ + describe(t),
        BtfErrorKind::InvalidBlacklist => "invalid blacklist regexes"@,
        BtfErrorKind::UnrecognizedKind => "unrecognized btf kind"@,
        _ => "invalid BTF data"@,
    }
}

/// The error of `kind` about the node `t` with id `id`.
pub open spec fn error_about(kind: BtfErrorKind, id: u32, t: BtfType, e: BtfError) -> bool {
    &&& e.kind == kind
    &&& e.id == id
    &&& e.message@ == error_message(kind, id, t)
}

impl BtfError {
    /// Builds the error of `kind` about the node `t` with id `id`.
    pub fn about(kind: BtfErrorKind, id: u32, t: &BtfType) -> (e: BtfError)
        ensures
            error_about(kind, id, *t, e),
    {
        let mut message = String::new();
        if kind == BtfErrorKind::InvalidBlacklist {
            message.append("invalid blacklist regexes");
            assert(message@ =~= error_message(kind, id, *t));
            return BtfError { kind, id, message };
        }
        if kind == BtfErrorKind::UnrecognizedKind {
            message.append("unrecognized btf kind");
            assert(message@ =~= error_message(kind, id, *t));
            return BtfError { kind, id, message };
        }
        match kind {
            BtfErrorKind::BadMagic
            | BtfErrorKind::BadVersion
            | BtfErrorKind::Truncated
            | BtfErrorKind::UnknownKind
            | BtfErrorKind::UnknownIntEncoding
            | BtfErrorKind::UnknownVarKind
            | BtfErrorKind::BadString => {
                message.append("invalid BTF data");
                assert(message@ =~= error_message(kind, id, *t));
                return BtfError { kind, id, message };
            },
            _ => {},
        }
        let (head, mid): (&str, &str) = match kind {
            BtfErrorKind::MalformedGraph => ("Malformed type reference, id: ", ", type: "),
            BtfErrorKind::UnsatisfiableCycle => ("Unsatisfiable type cycle, id: ", ", type: "),
            BtfErrorKind::AnonymousLoop => match t {
                BtfType::Union(_) => ("anonymous union loop, id: ", ", type: "),
                _ => ("anonymous struct loop, id: ", ", type: "),
            },
            BtfErrorKind::DefinitionLoop => ("unexpected emit_type_def loop at id:", ", type:"),
            _ => ("unexpected definition at id:", ", type:"),
        };
        message.append(head);
        push_decimal(&mut message, id as u64);
        message.append(mid);
        t.describe_into(&mut message);
        assert(message@ =~= error_message(kind, id, *t));
        BtfError { kind, id, message }
    }
}

/// The message of an error of `kind` that BTF data gave rise to, where
/// `value` is what was found in the data: the magic number, the version,
/// the kind, the encoding, the linkage, or the offset at which the data or
/// a string is at fault.
pub open spec fn data_error_message(kind: BtfErrorKind, value: nat) -> Seq<char> {
    match kind {
        BtfErrorKind::BadMagic => "Invalid BTF magic: "@ + decimal(value),
        BtfErrorKind::BadVersion => "Unsupported BTF version: "@ + decimal(value) + ", expect: 1"@,
        BtfErrorKind::UnknownKind => "Unknown BTF kind: "@ + decimal(value),
        BtfErrorKind::UnknownIntEncoding => "Unknown BTF int encoding: "@ + decimal(value),
        BtfErrorKind::UnknownVarKind => "Unknown BTF var kind: "@ + decimal(value),
        BtfErrorKind::BadString => "Invalid BTF string at offset "@ + decimal(value),
        _ => "BTF data ends early at offset "@ + decimal(value),
    }
}

impl BtfError {
    /// Builds the error of `kind` for the data of the type `id`, in which
    /// `value` was found.
    pub fn in_data(kind: BtfErrorKind, id: u32, value: u64) -> (e: BtfError)
        ensures
            e.kind == kind,
            e.id == id,
            e.message@ == data_error_message(kind, value as nat),
    {
        let mut message = String::new();
        match kind {
            BtfErrorKind::BadMagic => {
                message.append("Invalid BTF magic: ");
                push_decimal(&mut message, value);
            },
            BtfErrorKind::BadVersion => {
                message.append("Unsupported BTF version: ");
                push_decimal(&mut message, value);
                message.append(", expect: 1");
            },
            BtfErrorKind::UnknownKind => {
                message.append("Unknown BTF kind: ");
                push_decimal(&mut message, value);
            },
            BtfErrorKind::UnknownIntEncoding => {
                message.append("Unknown BTF int encoding: ");
                push_decimal(&mut message, value);
            },
            BtfErrorKind::UnknownVarKind => {
                message.append("Unknown BTF var kind: ");
                push_decimal(&mut message, value);
            },
            BtfErrorKind::BadString => {
                message.append("Invalid BTF string at offset ");
                push_decimal(&mut message, value);
            },
            _ => {
                message.append("BTF data ends early at offset ");
                push_decimal(&mut message, value);
            },
        }
        assert(message@ =~= data_error_message(kind, value as nat));
        BtfError { kind, id, message }
    }
}

} // verus!
