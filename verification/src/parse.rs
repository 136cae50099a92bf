//! Decoding the binary BTF format: a header, a section of type records and
//! a section of strings that the records refer to by offset.
use vstd::prelude::*;
use vstd::slice::*;
use crate::error::data_error_message;
use crate::error::BtfError;
use crate::error::BtfErrorKind;
use crate::types::BtfArray;
use crate::types::BtfConst;
use crate::types::BtfDatasec;
use crate::types::BtfDatasecVar;
use crate::types::BtfEnum;
use crate::types::BtfEnumValue;
use crate::types::BtfFunc;
use crate::types::BtfFuncParam;
use crate::types::BtfFuncProto;
use crate::types::BtfFwd;
use crate::types::BtfFwdKind;
use crate::types::BtfInt;
use crate::types::BtfIntEncoding;
use crate::types::BtfMember;
use crate::types::BtfPtr;
use crate::types::BtfRestrict;
use crate::types::BtfStruct;
use crate::types::BtfType;
use crate::types::BtfTypedef;
use crate::types::BtfUnion;
use crate::types::BtfVar;
use crate::types::BtfVarKind;
use crate::types::BtfVolatile;
use crate::wire::i32_at;
use crate::wire::read_i32;
use crate::wire::read_string;
use crate::wire::read_u16;
use crate::wire::read_u32;
use crate::wire::string_is;
use crate::wire::string_ok;
use crate::wire::u16_at;
use crate::wire::u32_at;

verus! {

/// The number that BTF data starts with.
pub const BTF_MAGIC: u16 = 0xeB9F;

/// The version of BTF that is understood.
pub const BTF_VERSION: u8 = 1;

/// The length of the header.
pub const HEADER_LEN: usize = 24;

/// The length of what every type record starts with.
pub const RECORD_LEN: usize = 12;

/// Where the two sections lie in the data.
#[derive(Debug, Clone, Copy)]
pub struct Layout {
    pub types_start: usize,
    pub types_end: usize,
    pub strs_start: usize,
    pub strs_end: usize,
}

/// What is wrong with data, and the number that shows it: the magic
/// number, the version, the kind, the encoding, the linkage, or the offset
/// at which the data or a string is at fault.
pub type Failure = Option<(BtfErrorKind, nat)>;

/// The kind of a record, out of its info word.
pub open spec fn kind_bits(info: u32) -> u32 {
    (info >> 24) & 0xf
}

/// The number of entries that follow a record, out of its info word.
pub open spec fn vlen_bits(info: u32) -> u32 {
    info & 0xffff
}

/// The flag of a record, out of its info word.
pub open spec fn flag_bit(info: u32) -> bool {
    (info >> 31) == 1
}

/// The name offset of the record at `pos`.
pub open spec fn name_off_at(data: Seq<u8>, little: bool, pos: int) -> u32 {
    u32_at(data, pos, little)
}

/// The info word of the record at `pos`.
pub open spec fn info_at(data: Seq<u8>, little: bool, pos: int) -> u32 {
    u32_at(data, pos + 4, little)
}

/// The type id or size of the record at `pos`.
pub open spec fn type_id_at(data: Seq<u8>, little: bool, pos: int) -> u32 {
    u32_at(data, pos + 8, little)
}

/// How many bytes follow a record of the given kind with `vlen` entries;
/// none for a kind that BTF does not have.
pub open spec fn extra_len(kind: u32, vlen: u32) -> Option<int> {
    if kind == 1 || kind == 14 {
        Some(4)
    } else if kind == 2 || (7 <= kind <= 12) {
        Some(0)
    } else if kind == 3 {
        Some(12)
    } else if kind == 4 || kind == 5 || kind == 15 {
        Some(12 * vlen)
    } else if kind == 6 || kind == 13 {
        Some(8 * vlen)
    } else {
        None
    }
}

/// What is wrong with the header, if anything: the data is shorter than a
/// header, does not start with the magic number, is of another version, or
/// is shorter than the sections that the header announces.
pub open spec fn header_failure(data: Seq<u8>, little: bool) -> Failure {
    if data.len() < HEADER_LEN {
        Some((BtfErrorKind::Truncated, data.len()))
    } else if u16_at(data, 0, little) != BTF_MAGIC {
        Some((BtfErrorKind::BadMagic, u16_at(data, 0, little) as nat))
    } else if data[2] != BTF_VERSION {
        Some((BtfErrorKind::BadVersion, data[2] as nat))
    } else if HEADER_LEN + u32_at(data, 8, little) + u32_at(data, 12, little) > data.len() {
        Some((BtfErrorKind::Truncated, data.len()))
    } else if HEADER_LEN + u32_at(data, 16, little) + u32_at(data, 20, little) > data.len() {
        Some((BtfErrorKind::Truncated, data.len()))
    } else {
        None
    }
}

/// Where the header says the sections lie.
pub open spec fn layout_of(data: Seq<u8>, little: bool) -> Layout {
    Layout {
        types_start: (HEADER_LEN + u32_at(data, 8, little)) as usize,
        types_end: (HEADER_LEN + u32_at(data, 8, little) + u32_at(data, 12, little)) as usize,
        strs_start: (HEADER_LEN + u32_at(data, 16, little)) as usize,
        strs_end: (HEADER_LEN + u32_at(data, 16, little) + u32_at(data, 20, little)) as usize,
    }
}

/// Whether the sections lie within the data.
pub open spec fn layout_fits(lay: Layout, data: Seq<u8>) -> bool {
    &&& lay.types_start <= lay.types_end <= data.len()
    &&& lay.strs_start <= lay.strs_end <= data.len()
}

/// Whether there is a name at offset `off` of the string section.
pub open spec fn name_ok(data: Seq<u8>, lay: Layout, off: u32) -> bool {
    string_ok(data, lay.strs_start as int, lay.strs_end as int, off)
}

/// Whether `name` is the name at offset `off` of the string section.
pub open spec fn name_is(name: Seq<char>, data: Seq<u8>, lay: Layout, off: u32) -> bool {
    string_is(name, data, lay.strs_start as int, lay.strs_end as int, off)
}

/// What is wrong with the `n` entries of `width` bytes each that start at
/// `pos`, if anything: the first that does not fit in the type section,
/// or, where entries start with the offset of a name, that has none.
pub open spec fn entries_failure(
    data: Seq<u8>,
    little: bool,
    lay: Layout,
    pos: int,
    n: nat,
    width: int,
    named: bool,
) -> Failure
    decreases n,
{
    if n == 0 {
        None
    } else if lay.types_end - pos < width {
        Some((BtfErrorKind::Truncated, pos as nat))
    } else if named && !name_ok(data, lay, u32_at(data, pos, little)) {
        Some((BtfErrorKind::BadString, u32_at(data, pos, little) as nat))
    } else {
        entries_failure(data, little, lay, pos + width, (n - 1) as nat, width, named)
    }
}

/// The failure of a name: none if there is a name at the offset.
pub open spec fn name_failure(data: Seq<u8>, lay: Layout, off: u32) -> Failure {
    if name_ok(data, lay, off) {
        None
    } else {
        Some((BtfErrorKind::BadString, off as nat))
    }
}

/// The first of two failures.
pub open spec fn first_failure(a: Failure, b: Failure) -> Failure {
    if a is Some {
        a
    } else {
        b
    }
}

/// What is wrong with the record of an integer type at `pos`, if anything.
pub open spec fn int_failure(data: Seq<u8>, little: bool, lay: Layout, pos: int) -> Failure {
    let extra = pos + RECORD_LEN;
    let name = name_failure(data, lay, name_off_at(data, little, pos));
    if lay.types_end - extra < 4 {
        Some((BtfErrorKind::Truncated, extra as nat))
    } else if name is Some {
        name
    } else if encoding_of(kind_bits(u32_at(data, extra, little))) is None {
        Some((BtfErrorKind::UnknownIntEncoding, kind_bits(u32_at(data, extra, little)) as nat))
    } else {
        None
    }
}

/// What is wrong with the record of an array at `pos`, if anything.
pub open spec fn array_failure(lay: Layout, pos: int) -> Failure {
    if lay.types_end - (pos + RECORD_LEN) < 12 {
        Some((BtfErrorKind::Truncated, (pos + RECORD_LEN) as nat))
    } else {
        None
    }
}

/// What is wrong with the record of a variable at `pos`, if anything.
pub open spec fn var_failure(data: Seq<u8>, little: bool, lay: Layout, pos: int) -> Failure {
    let extra = pos + RECORD_LEN;
    let name = name_failure(data, lay, name_off_at(data, little, pos));
    if lay.types_end - extra < 4 {
        Some((BtfErrorKind::Truncated, extra as nat))
    } else if name is Some {
        name
    } else if u32_at(data, extra, little) > 1 {
        Some((BtfErrorKind::UnknownVarKind, u32_at(data, extra, little) as nat))
    } else {
        None
    }
}

/// What is wrong with the record at `pos`, if anything. The order is that
/// in which a record is read: its fixed part, what follows it, and the
/// names it refers to.
pub open spec fn record_failure(data: Seq<u8>, little: bool, lay: Layout, pos: int) -> Failure {
    if lay.types_end - pos < RECORD_LEN {
        Some((BtfErrorKind::Truncated, pos as nat))
    } else {
        let info = info_at(data, little, pos);
        let kind = kind_bits(info);
        let vlen = vlen_bits(info) as nat;
        let extra = pos + RECORD_LEN;
        let name = name_failure(data, lay, name_off_at(data, little, pos));
        if kind == 1 {
            int_failure(data, little, lay, pos)
        } else if kind == 2 || kind == 9 || kind == 10 || kind == 11 {
            None
        } else if kind == 3 {
            array_failure(lay, pos)
        } else if kind == 4 || kind == 5 {
            first_failure(name, entries_failure(data, little, lay, extra, vlen, 12, true))
        } else if kind == 6 {
            first_failure(entries_failure(data, little, lay, extra, vlen, 8, true), name)
        } else if kind == 7 || kind == 8 || kind == 12 {
            name
        } else if kind == 13 {
            entries_failure(data, little, lay, extra, vlen, 8, true)
        } else if kind == 14 {
            var_failure(data, little, lay, pos)
        } else if kind == 15 {
            first_failure(entries_failure(data, little, lay, extra, vlen, 12, false), name)
        } else {
            Some((BtfErrorKind::UnknownKind, kind as nat))
        }
    }
}

/// The encoding that a number stands for, if any.
pub open spec fn encoding_of(bits: u32) -> Option<BtfIntEncoding> {
    if bits == 0 {
        Some(BtfIntEncoding::Plain)
    } else if bits == 1 {
        Some(BtfIntEncoding::Signed)
    } else if bits == 2 {
        Some(BtfIntEncoding::Char)
    } else if bits == 4 {
        Some(BtfIntEncoding::Bool)
    } else {
        None
    }
}

/// The position after the record at `pos`.
pub open spec fn next_record(data: Seq<u8>, little: bool, pos: int) -> int {
    let info = info_at(data, little, pos);
    match extra_len(kind_bits(info), vlen_bits(info)) {
        Some(len) => pos + RECORD_LEN + len,
        None => pos + RECORD_LEN,
    }
}

/// What is wrong with the records from `pos` on, if anything.
pub open spec fn records_failure(data: Seq<u8>, little: bool, lay: Layout, pos: int) -> Failure
    decreases
            (if pos < lay.types_end {
                lay.types_end - pos
            } else {
                0
            }),
{
    if pos >= lay.types_end {
        None
    } else if record_failure(data, little, lay, pos) is Some {
        record_failure(data, little, lay, pos)
    } else {
        records_failure(data, little, lay, next_record(data, little, pos))
    }
}

/// The id of the type in whose record the first failure among the records
/// from `pos` on is, where the record at `pos` is that of the type `id`.
pub open spec fn failing_id(data: Seq<u8>, little: bool, lay: Layout, pos: int, id: nat) -> nat
    decreases
            (if pos < lay.types_end {
                lay.types_end - pos
            } else {
                0
            }),
{
    if pos >= lay.types_end || record_failure(data, little, lay, pos) is Some {
        id
    } else {
        failing_id(data, little, lay, next_record(data, little, pos), id + 1)
    }
}

/// A number of types as a type id: the number itself, or the largest id if
/// it is larger.
pub open spec fn capped_id(count: nat) -> nat {
    if count <= u32::MAX {
        count
    } else {
        u32::MAX as nat
    }
}

/// The id that the error for what is wrong with the data carries: 0 if it
/// is the header, otherwise the id of the type in whose record it is.
pub open spec fn data_failure_id(data: Seq<u8>, little: bool) -> nat {
    if header_failure(data, little) is Some {
        0
    } else {
        let lay = layout_of(data, little);
        capped_id(failing_id(data, little, lay, lay.types_start as int, 1))
    }
}

/// What is wrong with the data, if anything.
pub open spec fn data_failure(data: Seq<u8>, little: bool) -> Failure {
    if header_failure(data, little) is Some {
        header_failure(data, little)
    } else {
        let lay = layout_of(data, little);
        records_failure(data, little, lay, lay.types_start as int)
    }
}

/// Whether the member `m` is what the entry at `pos` says. With the flag
/// of the record set, the upper 8 bits of an offset are the width of a
/// bitfield.
pub open spec fn member_is(
    m: BtfMember,
    data: Seq<u8>,
    little: bool,
    lay: Layout,
    pos: int,
    flag: bool,
) -> bool {
    let offset = u32_at(data, pos + 8, little);
    &&& name_is(m.name@, data, lay, u32_at(data, pos, little))
    &&& m.type_id == u32_at(data, pos + 4, little)
    &&& m.bit_size == (if flag {
        (offset >> 24) as u8
    } else {
        0u8
    })
    &&& m.bit_offset == (if flag {
        offset & 0xffffff
    } else {
        offset
    })
}

/// Whether the members are what the entries from `pos` on say.
pub open spec fn members_are(
    members: Seq<BtfMember>,
    data: Seq<u8>,
    little: bool,
    lay: Layout,
    pos: int,
    flag: bool,
) -> bool {
    forall|k: int|
        0 <= k < members.len() ==> member_is(
            #[trigger] members[k],
            data,
            little,
            lay,
            pos + 12 * k,
            flag,
        )
}

/// Whether the enumerator `v` is what the entry at `pos` says.
pub open spec fn value_is(v: BtfEnumValue, data: Seq<u8>, little: bool, lay: Layout, pos: int) -> bool {
    &&& name_is(v.name@, data, lay, u32_at(data, pos, little))
    &&& v.value == i32_at(data, pos + 4, little)
}

/// Whether the enumerators are what the entries from `pos` on say.
pub open spec fn values_are(
    values: Seq<BtfEnumValue>,
    data: Seq<u8>,
    little: bool,
    lay: Layout,
    pos: int,
) -> bool {
    forall|k: int|
        0 <= k < values.len() ==> value_is(#[trigger] values[k], data, little, lay, pos + 8 * k)
}

/// Whether the parameter `p` is what the entry at `pos` says.
pub open spec fn param_is(p: BtfFuncParam, data: Seq<u8>, little: bool, lay: Layout, pos: int) -> bool {
    &&& name_is(p.name@, data, lay, u32_at(data, pos, little))
    &&& p.type_id == u32_at(data, pos + 4, little)
}

/// Whether the parameters are what the entries from `pos` on say.
pub open spec fn params_are(
    params: Seq<BtfFuncParam>,
    data: Seq<u8>,
    little: bool,
    lay: Layout,
    pos: int,
) -> bool {
    forall|k: int|
        0 <= k < params.len() ==> param_is(#[trigger] params[k], data, little, lay, pos + 8 * k)
}

/// Whether the variable `v` is what the entry at `pos` says.
pub open spec fn var_is(v: BtfDatasecVar, data: Seq<u8>, little: bool, pos: int) -> bool {
    &&& v.type_id == u32_at(data, pos, little)
    &&& v.offset == u32_at(data, pos + 4, little)
    &&& v.sz == u32_at(data, pos + 8, little)
}

/// Whether the variables are what the entries from `pos` on say.
pub open spec fn vars_are(vars: Seq<BtfDatasecVar>, data: Seq<u8>, little: bool, pos: int) -> bool {
    forall|k: int| 0 <= k < vars.len() ==> var_is(#[trigger] vars[k], data, little, pos + 12 * k)
}

/// Whether `i` is what the record of an integer type at `pos` says.
pub open spec fn int_is(i: BtfInt, data: Seq<u8>, little: bool, lay: Layout, pos: int) -> bool {
    let word = u32_at(data, pos + RECORD_LEN, little);
    &&& name_is(i.name@, data, lay, name_off_at(data, little, pos))
    &&& i.bits == word & 0xff
    &&& i.offset == (word >> 16) & 0xff
    &&& encoding_of(kind_bits(word)) == Some(i.encoding)
}

/// Whether `a` is what the record of an array at `pos` says.
pub open spec fn array_is(a: BtfArray, data: Seq<u8>, little: bool, pos: int) -> bool {
    let extra = pos + RECORD_LEN;
    &&& a.val_type_id == u32_at(data, extra, little)
    &&& a.idx_type_id == u32_at(data, extra + 4, little)
    &&& a.nelems == u32_at(data, extra + 8, little)
}

/// Whether `v` is what the record of a variable at `pos` says.
pub open spec fn var_record_is(v: BtfVar, data: Seq<u8>, little: bool, lay: Layout, pos: int) -> bool {
    &&& name_is(v.name@, data, lay, name_off_at(data, little, pos))
    &&& v.type_id == type_id_at(data, little, pos)
    &&& v.kind == (if u32_at(data, pos + RECORD_LEN, little) == 0 {
        BtfVarKind::Static
    } else {
        BtfVarKind::GlobalAlloc
    })
}

/// Whether `t` is what the record at `pos` says.
pub open spec fn record_is(t: BtfType, data: Seq<u8>, little: bool, lay: Layout, pos: int) -> bool {
    let name_off = name_off_at(data, little, pos);
    let info = info_at(data, little, pos);
    let type_id = type_id_at(data, little, pos);
    let kind = kind_bits(info);
    let vlen = vlen_bits(info);
    let flag = flag_bit(info);
    let extra = pos + RECORD_LEN;
    match t {
        BtfType::Void => false,
        BtfType::Int(i) => kind == 1 && int_is(i, data, little, lay, pos),
        BtfType::Ptr(p) => kind == 2 && p.type_id == type_id,
        BtfType::Array(a) => kind == 3 && array_is(a, data, little, pos),
        BtfType::Struct(s) => {
            &&& kind == 4
            &&& name_is(s.name@, data, lay, name_off)
            &&& s.sz == type_id
            &&& s.members@.len() == vlen
            &&& members_are(s.members@, data, little, lay, extra, flag)
        },
        BtfType::Union(u) => {
            &&& kind == 5
            &&& name_is(u.name@, data, lay, name_off)
            &&& u.sz == type_id
            &&& u.members@.len() == vlen
            &&& members_are(u.members@, data, little, lay, extra, flag)
        },
        BtfType::Enum(e) => {
            &&& kind == 6
            &&& name_is(e.name@, data, lay, name_off)
            &&& e.sz_bits == type_id
            &&& e.values@.len() == vlen
            &&& values_are(e.values@, data, little, lay, extra)
        },
        BtfType::Fwd(f) => {
            &&& kind == 7
            &&& name_is(f.name@, data, lay, name_off)
            &&& f.kind == (if flag {
                BtfFwdKind::Union
            } else {
                BtfFwdKind::Struct
            })
        },
        BtfType::Typedef(d) => kind == 8 && name_is(d.name@, data, lay, name_off) && d.type_id
            == type_id,
        BtfType::Volatile(q) => kind == 9 && q.type_id == type_id,
        BtfType::Const(q) => kind == 10 && q.type_id == type_id,
        BtfType::Restrict(q) => kind == 11 && q.type_id == type_id,
        BtfType::Func(f) => kind == 12 && name_is(f.name@, data, lay, name_off) && f.proto_type_id
            == type_id,
        BtfType::FuncProto(f) => {
            &&& kind == 13
            &&& f.res_type_id == type_id
            &&& f.params@.len() == vlen
            &&& params_are(f.params@, data, little, lay, extra)
        },
        BtfType::Var(v) => kind == 14 && var_record_is(v, data, little, lay, pos),
        BtfType::Datasec(d) => {
            &&& kind == 15
            &&& name_is(d.name@, data, lay, name_off)
            &&& d.sz == type_id
            &&& d.vars@.len() == vlen
            &&& vars_are(d.vars@, data, little, extra)
        },
    }
}

/// The position of the record of the type `id`: the first record stands at
/// the start of the type section, each other after the one before.
pub open spec fn record_pos(data: Seq<u8>, little: bool, lay: Layout, id: nat) -> int
    decreases id,
{
    if id <= 1 {
        lay.types_start as int
    } else {
        next_record(data, little, record_pos(data, little, lay, (id - 1) as nat))
    }
}

/// Whether the type `id` is what its record says.
pub open spec fn placed(types: Seq<BtfType>, data: Seq<u8>, little: bool, lay: Layout, id: int) -> bool {
    &&& record_pos(data, little, lay, id as nat) < lay.types_end
    &&& record_is(types[id], data, little, lay, record_pos(data, little, lay, id as nat))
}

/// Whether `types` is the graph that the data describes: the `Void`
/// sentinel, followed by what the records say, up to the end of the type
/// section.
pub open spec fn decoded(types: Seq<BtfType>, data: Seq<u8>, little: bool) -> bool {
    let lay = layout_of(data, little);
    &&& types.len() >= 1
    &&& types[0] is Void
    &&& forall|id: int| 1 <= id < types.len() ==> #[trigger] placed(types, data, little, lay, id)
    &&& record_pos(data, little, lay, types.len()) >= lay.types_end
}

/// Whether the error `e` reports the failure `f`, found in the data of the
/// type `id`.
pub open spec fn reports(e: BtfError, f: Failure, id: nat) -> bool {
    f matches Some((kind, value)) && e.kind == kind && e.id == id && e.message@
        == data_error_message(kind, value)
}

/// The error for data that ends at or before `pos`.
fn truncated(id: u32, pos: usize) -> (e: BtfError)
    ensures
        reports(e, Some((BtfErrorKind::Truncated, pos as nat)), id as nat),
{
    BtfError::in_data(BtfErrorKind::Truncated, id, pos as u64)
}

/// Reads the header and finds the sections.
pub fn parse_header(data: &[u8], little: bool) -> (r: Result<Layout, BtfError>)
    ensures
        match r {
            Ok(lay) => header_failure(data@, little) is None && lay == layout_of(data@, little)
                && layout_fits(lay, data@),
            Err(e) => reports(e, header_failure(data@, little), 0),
        },
{
    if data.len() < HEADER_LEN {
        return Err(truncated(0, data.len()));
    }
    let magic: u16 = match read_u16(data, 0, little) {
        Ok(v) => v,
        Err(_) => {
            return Err(truncated(0, data.len()));
        },
    };
    if magic != BTF_MAGIC {
        return Err(BtfError::in_data(BtfErrorKind::BadMagic, 0, magic as u64));
    }
    let version: u8 = data[2];
    if version != BTF_VERSION {
        return Err(BtfError::in_data(BtfErrorKind::BadVersion, 0, version as u64));
    }
    let type_off: u32 = match read_u32(data, 8, little) {
        Ok(v) => v,
        Err(_) => {
            return Err(truncated(0, data.len()));
        },
    };
    let type_len: u32 = match read_u32(data, 12, little) {
        Ok(v) => v,
        Err(_) => {
            return Err(truncated(0, data.len()));
        },
    };
    let str_off: u32 = match read_u32(data, 16, little) {
        Ok(v) => v,
        Err(_) => {
            return Err(truncated(0, data.len()));
        },
    };
    let str_len: u32 = match read_u32(data, 20, little) {
        Ok(v) => v,
        Err(_) => {
            return Err(truncated(0, data.len()));
        },
    };
    let len: u64 = data.len() as u64;
    let types_end: u64 = HEADER_LEN as u64 + type_off as u64 + type_len as u64;
    let strs_end: u64 = HEADER_LEN as u64 + str_off as u64 + str_len as u64;
    if types_end > len || strs_end > len {
        return Err(truncated(0, data.len()));
    }
    Ok(
        Layout {
            types_start: (HEADER_LEN as u64 + type_off as u64) as usize,
            types_end: types_end as usize,
            strs_start: (HEADER_LEN as u64 + str_off as u64) as usize,
            strs_end: strs_end as usize,
        },
    )
}

/// Reads the name at offset `off` of the string section.
fn parse_name(data: &[u8], lay: &Layout, off: u32, id: u32) -> (r: Result<String, BtfError>)
    requires
        layout_fits(*lay, data@),
    ensures
        match r {
            Ok(name) => name_ok(data@, *lay, off) && name_is(name@, data@, *lay, off),
            Err(e) => !name_ok(data@, *lay, off) && reports(e, name_failure(data@, *lay, off), id as nat),
        },
{
    match read_string(data, lay.strs_start, lay.strs_end, off) {
        Some(name) => Ok(name),
        None => Err(BtfError::in_data(BtfErrorKind::BadString, id, off as u64)),
    }
}

/// Reads the four bytes at `pos` of the type section.
fn parse_word(data: &[u8], little: bool, lay: &Layout, pos: usize, id: u32) -> (r: Result<
    u32,
    BtfError,
>)
    requires
        layout_fits(*lay, data@),
        pos <= lay.types_end,
    ensures
        match r {
            Ok(v) => lay.types_end - pos >= 4 && v == u32_at(data@, pos as int, little),
            Err(e) => lay.types_end - pos < 4 && reports(
                e,
                Some((BtfErrorKind::Truncated, pos as nat)),
                id as nat,
            ),
        },
{
    if lay.types_end - pos < 4 {
        return Err(truncated(id, pos));
    }
    match read_u32(data, pos, little) {
        Ok(v) => Ok(v),
        Err(_) => Err(truncated(id, pos)),
    }
}

/// Reads the members of a struct or union.
fn parse_members(data: &[u8], little: bool, lay: &Layout, pos: usize, n: u32, flag: bool, id: u32) -> (r:
    Result<(Vec<BtfMember>, usize), BtfError>)
    requires
        layout_fits(*lay, data@),
        pos <= lay.types_end,
    ensures
        match r {
            Ok((members, end)) => {
                &&& entries_failure(data@, little, *lay, pos as int, n as nat, 12, true) is None
                &&& members@.len() == n
                &&& members_are(members@, data@, little, *lay, pos as int, flag)
                &&& end == pos + 12 * n
                &&& end <= lay.types_end
            },
            Err(e) => reports(
                e,
                entries_failure(data@, little, *lay, pos as int, n as nat, 12, true),
                id as nat,
            ),
        },
{
    let mut members: Vec<BtfMember> = Vec::new();
    let mut at: usize = pos;
    let mut k: u32 = 0;
    while k < n
        invariant
            layout_fits(*lay, data@),
            pos <= at <= lay.types_end,
            k <= n,
            at == pos + 12 * k,
            members@.len() == k,
            entries_failure(data@, little, *lay, pos as int, n as nat, 12, true) == entries_failure(
                data@,
                little,
                *lay,
                at as int,
                (n - k) as nat,
                12,
                true,
            ),
            forall|j: int|
                0 <= j < k ==> member_is(
                    #[trigger] members@[j],
                    data@,
                    little,
                    *lay,
                    pos + 12 * j,
                    flag,
                ),
        decreases n - k,
    {
        if lay.types_end - at < 12 {
            return Err(truncated(id, at));
        }
        let name_off: u32 = match read_u32(data, at, little) {
            Ok(v) => v,
            Err(_) => {
                return Err(truncated(id, at));
            },
        };
        let name = match parse_name(data, lay, name_off, id) {
            Ok(name) => name,
            Err(e) => {
                return Err(e);
            },
        };
        let type_id: u32 = match read_u32(data, at + 4, little) {
            Ok(v) => v,
            Err(_) => {
                return Err(truncated(id, at));
            },
        };
        let offset: u32 = match read_u32(data, at + 8, little) {
            Ok(v) => v,
            Err(_) => {
                return Err(truncated(id, at));
            },
        };
        members.push(
            BtfMember {
                name,
                type_id,
                bit_size: if flag {
                    (offset >> 24) as u8
                } else {
                    0
                },
                bit_offset: if flag {
                    offset & 0xffffff
                } else {
                    offset
                },
            },
        );
        at += 12;
        k += 1;
    }
    Ok((members, at))
}

/// Reads the enumerators of an enum.
fn parse_values(data: &[u8], little: bool, lay: &Layout, pos: usize, n: u32, id: u32) -> (r: Result<
    (Vec<BtfEnumValue>, usize),
    BtfError,
>)
    requires
        layout_fits(*lay, data@),
        pos <= lay.types_end,
    ensures
        match r {
            Ok((values, end)) => {
                &&& entries_failure(data@, little, *lay, pos as int, n as nat, 8, true) is None
                &&& values@.len() == n
                &&& values_are(values@, data@, little, *lay, pos as int)
                &&& end == pos + 8 * n
                &&& end <= lay.types_end
            },
            Err(e) => reports(e, entries_failure(data@, little, *lay, pos as int, n as nat, 8, true), id as nat),
        },
{
    let mut values: Vec<BtfEnumValue> = Vec::new();
    let mut at: usize = pos;
    let mut k: u32 = 0;
    while k < n
        invariant
            layout_fits(*lay, data@),
            pos <= at <= lay.types_end,
            k <= n,
            at == pos + 8 * k,
            values@.len() == k,
            entries_failure(data@, little, *lay, pos as int, n as nat, 8, true) == entries_failure(
                data@,
                little,
                *lay,
                at as int,
                (n - k) as nat,
                8,
                true,
            ),
            forall|j: int|
                0 <= j < k ==> value_is(#[trigger] values@[j], data@, little, *lay, pos + 8 * j),
        decreases n - k,
    {
        if lay.types_end - at < 8 {
            return Err(truncated(id, at));
        }
        let name_off: u32 = match read_u32(data, at, little) {
            Ok(v) => v,
            Err(_) => {
                return Err(truncated(id, at));
            },
        };
        let name = match parse_name(data, lay, name_off, id) {
            Ok(name) => name,
            Err(e) => {
                return Err(e);
            },
        };
        let value: i32 = match read_i32(data, at + 4, little) {
            Ok(v) => v,
            Err(_) => {
                return Err(truncated(id, at));
            },
        };
        values.push(BtfEnumValue { name, value });
        at += 8;
        k += 1;
    }
    Ok((values, at))
}

/// Reads the parameters of a function prototype.
fn parse_params(data: &[u8], little: bool, lay: &Layout, pos: usize, n: u32, id: u32) -> (r: Result<
    (Vec<BtfFuncParam>, usize),
    BtfError,
>)
    requires
        layout_fits(*lay, data@),
        pos <= lay.types_end,
    ensures
        match r {
            Ok((params, end)) => {
                &&& entries_failure(data@, little, *lay, pos as int, n as nat, 8, true) is None
                &&& params@.len() == n
                &&& params_are(params@, data@, little, *lay, pos as int)
                &&& end == pos + 8 * n
                &&& end <= lay.types_end
            },
            Err(e) => reports(e, entries_failure(data@, little, *lay, pos as int, n as nat, 8, true), id as nat),
        },
{
    let mut params: Vec<BtfFuncParam> = Vec::new();
    let mut at: usize = pos;
    let mut k: u32 = 0;
    while k < n
        invariant
            layout_fits(*lay, data@),
            pos <= at <= lay.types_end,
            k <= n,
            at == pos + 8 * k,
            params@.len() == k,
            entries_failure(data@, little, *lay, pos as int, n as nat, 8, true) == entries_failure(
                data@,
                little,
                *lay,
                at as int,
                (n - k) as nat,
                8,
                true,
            ),
            forall|j: int|
                0 <= j < k ==> param_is(#[trigger] params@[j], data@, little, *lay, pos + 8 * j),
        decreases n - k,
    {
        if lay.types_end - at < 8 {
            return Err(truncated(id, at));
        }
        let name_off: u32 = match read_u32(data, at, little) {
            Ok(v) => v,
            Err(_) => {
                return Err(truncated(id, at));
            },
        };
        let name = match parse_name(data, lay, name_off, id) {
            Ok(name) => name,
            Err(e) => {
                return Err(e);
            },
        };
        let type_id: u32 = match read_u32(data, at + 4, little) {
            Ok(v) => v,
            Err(_) => {
                return Err(truncated(id, at));
            },
        };
        params.push(BtfFuncParam { name, type_id });
        at += 8;
        k += 1;
    }
    Ok((params, at))
}

/// Reads the variables of a data section.
fn parse_vars(data: &[u8], little: bool, lay: &Layout, pos: usize, n: u32, id: u32) -> (r: Result<
    (Vec<BtfDatasecVar>, usize),
    BtfError,
>)
    requires
        layout_fits(*lay, data@),
        pos <= lay.types_end,
    ensures
        match r {
            Ok((vars, end)) => {
                &&& entries_failure(data@, little, *lay, pos as int, n as nat, 12, false) is None
                &&& vars@.len() == n
                &&& vars_are(vars@, data@, little, pos as int)
                &&& end == pos + 12 * n
                &&& end <= lay.types_end
            },
            Err(e) => reports(
                e,
                entries_failure(data@, little, *lay, pos as int, n as nat, 12, false),
                id as nat,
            ),
        },
{
    let mut vars: Vec<BtfDatasecVar> = Vec::new();
    let mut at: usize = pos;
    let mut k: u32 = 0;
    while k < n
        invariant
            layout_fits(*lay, data@),
            pos <= at <= lay.types_end,
            k <= n,
            at == pos + 12 * k,
            vars@.len() == k,
            entries_failure(data@, little, *lay, pos as int, n as nat, 12, false)
                == entries_failure(data@, little, *lay, at as int, (n - k) as nat, 12, false),
            forall|j: int| 0 <= j < k ==> var_is(#[trigger] vars@[j], data@, little, pos + 12 * j),
        decreases n - k,
    {
        if lay.types_end - at < 12 {
            return Err(truncated(id, at));
        }
        let type_id: u32 = match read_u32(data, at, little) {
            Ok(v) => v,
            Err(_) => {
                return Err(truncated(id, at));
            },
        };
        let offset: u32 = match read_u32(data, at + 4, little) {
            Ok(v) => v,
            Err(_) => {
                return Err(truncated(id, at));
            },
        };
        let sz: u32 = match read_u32(data, at + 8, little) {
            Ok(v) => v,
            Err(_) => {
                return Err(truncated(id, at));
            },
        };
        vars.push(BtfDatasecVar { type_id, offset, sz });
        at += 12;
        k += 1;
    }
    Ok((vars, at))
}

/// Reads what follows the fixed part of the record of an integer type at
/// `pos`.
fn parse_int(data: &[u8], little: bool, lay: &Layout, pos: usize, name_off: u32, id: u32) -> (r:
    Result<BtfInt, BtfError>)
    requires
        layout_fits(*lay, data@),
        lay.types_end - pos >= RECORD_LEN,
        name_off == name_off_at(data@, little, pos as int),
    ensures
        match r {
            Ok(i) => int_failure(data@, little, *lay, pos as int) is None && int_is(
                i,
                data@,
                little,
                *lay,
                pos as int,
            ) && lay.types_end - pos >= RECORD_LEN + 4,
            Err(e) => reports(e, int_failure(data@, little, *lay, pos as int), id as nat),
        },
{
    let extra: usize = pos + RECORD_LEN;
    let word: u32 = match parse_word(data, little, lay, extra, id) {
        Ok(v) => v,
        Err(e) => {
            return Err(e);
        },
    };
    let name = match parse_name(data, lay, name_off, id) {
        Ok(name) => name,
        Err(e) => {
            return Err(e);
        },
    };
    let enc: u32 = (word >> 24) & 0xf;
    let encoding: BtfIntEncoding = if enc == 0 {
        BtfIntEncoding::Plain
    } else if enc == 1 {
        BtfIntEncoding::Signed
    } else if enc == 2 {
        BtfIntEncoding::Char
    } else if enc == 4 {
        BtfIntEncoding::Bool
    } else {
        return Err(BtfError::in_data(BtfErrorKind::UnknownIntEncoding, id, enc as u64));
    };
    Ok(BtfInt { name, bits: word & 0xff, offset: (word >> 16) & 0xff, encoding })
}

/// Reads what follows the fixed part of the record of an array at `pos`.
fn parse_array(data: &[u8], little: bool, lay: &Layout, pos: usize, id: u32) -> (r: Result<
    BtfArray,
    BtfError,
>)
    requires
        layout_fits(*lay, data@),
        lay.types_end - pos >= RECORD_LEN,
    ensures
        match r {
            Ok(a) => array_failure(*lay, pos as int) is None && array_is(
                a,
                data@,
                little,
                pos as int,
            ),
            Err(e) => reports(e, array_failure(*lay, pos as int), id as nat),
        },
{
    let extra: usize = pos + RECORD_LEN;
    if lay.types_end - extra < 12 {
        return Err(truncated(id, extra));
    }
    let val_type_id: u32 = match read_u32(data, extra, little) {
        Ok(v) => v,
        Err(_) => {
            return Err(truncated(id, extra));
        },
    };
    let idx_type_id: u32 = match read_u32(data, extra + 4, little) {
        Ok(v) => v,
        Err(_) => {
            return Err(truncated(id, extra));
        },
    };
    let nelems: u32 = match read_u32(data, extra + 8, little) {
        Ok(v) => v,
        Err(_) => {
            return Err(truncated(id, extra));
        },
    };
    Ok(BtfArray { nelems, idx_type_id, val_type_id })
}

/// Reads what follows the fixed part of the record of a variable at `pos`.
fn parse_var(
    data: &[u8],
    little: bool,
    lay: &Layout,
    pos: usize,
    name_off: u32,
    type_id: u32,
    id: u32,
) -> (r: Result<BtfVar, BtfError>)
    requires
        layout_fits(*lay, data@),
        lay.types_end - pos >= RECORD_LEN,
        name_off == name_off_at(data@, little, pos as int),
        type_id == type_id_at(data@, little, pos as int),
    ensures
        match r {
            Ok(v) => var_failure(data@, little, *lay, pos as int) is None && var_record_is(
                v,
                data@,
                little,
                *lay,
                pos as int,
            ) && lay.types_end - pos >= RECORD_LEN + 4,
            Err(e) => reports(e, var_failure(data@, little, *lay, pos as int), id as nat),
        },
{
    let extra: usize = pos + RECORD_LEN;
    let linkage: u32 = match parse_word(data, little, lay, extra, id) {
        Ok(v) => v,
        Err(e) => {
            return Err(e);
        },
    };
    let name = match parse_name(data, lay, name_off, id) {
        Ok(name) => name,
        Err(e) => {
            return Err(e);
        },
    };
    let var_kind: BtfVarKind = if linkage == 0 {
        BtfVarKind::Static
    } else if linkage == 1 {
        BtfVarKind::GlobalAlloc
    } else {
        return Err(BtfError::in_data(BtfErrorKind::UnknownVarKind, id, linkage as u64));
    };
    Ok(BtfVar { name, type_id, kind: var_kind })
}

/// Reads the record at `pos`: the type it describes and the position after
/// it.
pub fn parse_record(data: &[u8], little: bool, lay: &Layout, pos: usize, id: u32) -> (r: Result<
    (BtfType, usize),
    BtfError,
>)
    requires
        layout_fits(*lay, data@),
        pos <= lay.types_end,
    ensures
        match r {
            Ok((t, next)) => {
                &&& record_failure(data@, little, *lay, pos as int) is None
                &&& record_is(t, data@, little, *lay, pos as int)
                &&& next == next_record(data@, little, pos as int)
                &&& pos < next <= lay.types_end
            },
            Err(e) => reports(e, record_failure(data@, little, *lay, pos as int), id as nat),
        },
{
    if lay.types_end - pos < RECORD_LEN {
        return Err(truncated(id, pos));
    }
    let name_off: u32 = match read_u32(data, pos, little) {
        Ok(v) => v,
        Err(_) => {
            return Err(truncated(id, pos));
        },
    };
    let info: u32 = match read_u32(data, pos + 4, little) {
        Ok(v) => v,
        Err(_) => {
            return Err(truncated(id, pos));
        },
    };
    let type_id: u32 = match read_u32(data, pos + 8, little) {
        Ok(v) => v,
        Err(_) => {
            return Err(truncated(id, pos));
        },
    };
    let kind: u32 = (info >> 24) & 0xf;
    let vlen: u32 = info & 0xffff;
    let extra: usize = pos + RECORD_LEN;
    if kind == 1 {
        match parse_int(data, little, lay, pos, name_off, id) {
            Ok(t) => Ok((BtfType::Int(t), extra + 4)),
            Err(e) => Err(e),
        }
    } else if kind == 2 {
        Ok((BtfType::Ptr(BtfPtr { type_id }), extra))
    } else if kind == 3 {
        match parse_array(data, little, lay, pos, id) {
            Ok(t) => Ok((BtfType::Array(t), extra + 12)),
            Err(e) => Err(e),
        }
    } else if kind == 4 || kind == 5 {
        parse_composite(data, little, lay, pos, name_off, info, type_id, id)
    } else if kind == 6 {
        parse_enum(data, little, lay, pos, name_off, info, type_id, id)
    } else if kind == 7 || kind == 8 || kind == 12 {
        parse_named(data, little, lay, pos, name_off, info, type_id, id)
    } else if kind == 9 {
        Ok((BtfType::Volatile(BtfVolatile { type_id }), extra))
    } else if kind == 10 {
        Ok((BtfType::Const(BtfConst { type_id }), extra))
    } else if kind == 11 {
        Ok((BtfType::Restrict(BtfRestrict { type_id }), extra))
    } else if kind == 13 {
        match parse_params(data, little, lay, extra, vlen, id) {
            Ok((params, next)) => Ok(
                (BtfType::FuncProto(BtfFuncProto { res_type_id: type_id, params }), next),
            ),
            Err(e) => Err(e),
        }
    } else if kind == 14 {
        match parse_var(data, little, lay, pos, name_off, type_id, id) {
            Ok(t) => Ok((BtfType::Var(t), extra + 4)),
            Err(e) => Err(e),
        }
    } else if kind == 15 {
        parse_datasec(data, little, lay, pos, name_off, info, type_id, id)
    } else {
        Err(BtfError::in_data(BtfErrorKind::UnknownKind, id, kind as u64))
    }
}

/// What the record at `pos` is known to start with.
pub open spec fn record_read(
    data: Seq<u8>,
    little: bool,
    lay: Layout,
    pos: int,
    name_off: u32,
    info: u32,
    type_id: u32,
) -> bool {
    &&& lay.types_end - pos >= RECORD_LEN
    &&& name_off == name_off_at(data, little, pos)
    &&& info == info_at(data, little, pos)
    &&& type_id == type_id_at(data, little, pos)
}

/// What reading the record at `pos` has to come to.
pub open spec fn record_parsed(
    r: Result<(BtfType, usize), BtfError>,
    data: Seq<u8>,
    little: bool,
    lay: Layout,
    pos: int,
    id: u32,
) -> bool {
    match r {
        Ok((t, next)) => {
            &&& record_failure(data, little, lay, pos) is None
            &&& record_is(t, data, little, lay, pos)
            &&& next == next_record(data, little, pos)
            &&& pos < next <= lay.types_end
        },
        Err(e) => reports(e, record_failure(data, little, lay, pos), id as nat),
    }
}

/// Reads the rest of the record of a struct or union at `pos`.
fn parse_composite(
    data: &[u8],
    little: bool,
    lay: &Layout,
    pos: usize,
    name_off: u32,
    info: u32,
    type_id: u32,
    id: u32,
) -> (r: Result<(BtfType, usize), BtfError>)
    requires
        layout_fits(*lay, data@),
        record_read(data@, little, *lay, pos as int, name_off, info, type_id),
        kind_bits(info) == 4 || kind_bits(info) == 5,
    ensures
        record_parsed(r, data@, little, *lay, pos as int, id),
{
    let kind: u32 = (info >> 24) & 0xf;
    let vlen: u32 = info & 0xffff;
    let flag: bool = (info >> 31) == 1;
    let name = match parse_name(data, lay, name_off, id) {
        Ok(name) => name,
        Err(e) => {
            return Err(e);
        },
    };
    let (members, next) = match parse_members(data, little, lay, pos + RECORD_LEN, vlen, flag, id) {
        Ok(found) => found,
        Err(e) => {
            return Err(e);
        },
    };
    if kind == 4 {
        Ok((BtfType::Struct(BtfStruct { name, sz: type_id, members }), next))
    } else {
        Ok((BtfType::Union(BtfUnion { name, sz: type_id, members }), next))
    }
}

/// Reads the rest of the record of an enum at `pos`.
fn parse_enum(
    data: &[u8],
    little: bool,
    lay: &Layout,
    pos: usize,
    name_off: u32,
    info: u32,
    type_id: u32,
    id: u32,
) -> (r: Result<(BtfType, usize), BtfError>)
    requires
        layout_fits(*lay, data@),
        record_read(data@, little, *lay, pos as int, name_off, info, type_id),
        kind_bits(info) == 6,
    ensures
        record_parsed(r, data@, little, *lay, pos as int, id),
{
    let vlen: u32 = info & 0xffff;
    let (values, next) = match parse_values(data, little, lay, pos + RECORD_LEN, vlen, id) {
        Ok(found) => found,
        Err(e) => {
            return Err(e);
        },
    };
    let name = match parse_name(data, lay, name_off, id) {
        Ok(name) => name,
        Err(e) => {
            return Err(e);
        },
    };
    Ok((BtfType::Enum(BtfEnum { name, sz_bits: type_id, values }), next))
}

/// Reads the rest of the record of a forward declaration, typedef or
/// function at `pos`.
fn parse_named(
    data: &[u8],
    little: bool,
    lay: &Layout,
    pos: usize,
    name_off: u32,
    info: u32,
    type_id: u32,
    id: u32,
) -> (r: Result<(BtfType, usize), BtfError>)
    requires
        layout_fits(*lay, data@),
        record_read(data@, little, *lay, pos as int, name_off, info, type_id),
        kind_bits(info) == 7 || kind_bits(info) == 8 || kind_bits(info) == 12,
    ensures
        record_parsed(r, data@, little, *lay, pos as int, id),
{
    let kind: u32 = (info >> 24) & 0xf;
    let flag: bool = (info >> 31) == 1;
    let name = match parse_name(data, lay, name_off, id) {
        Ok(name) => name,
        Err(e) => {
            return Err(e);
        },
    };
    if kind == 7 {
        let fwd_kind: BtfFwdKind = if flag {
            BtfFwdKind::Union
        } else {
            BtfFwdKind::Struct
        };
        Ok((BtfType::Fwd(BtfFwd { name, kind: fwd_kind }), pos + RECORD_LEN))
    } else if kind == 8 {
        Ok((BtfType::Typedef(BtfTypedef { name, type_id }), pos + RECORD_LEN))
    } else {
        Ok((BtfType::Func(BtfFunc { name, proto_type_id: type_id }), pos + RECORD_LEN))
    }
}

/// Reads the rest of the record of a data section at `pos`.
fn parse_datasec(
    data: &[u8],
    little: bool,
    lay: &Layout,
    pos: usize,
    name_off: u32,
    info: u32,
    type_id: u32,
    id: u32,
) -> (r: Result<(BtfType, usize), BtfError>)
    requires
        layout_fits(*lay, data@),
        record_read(data@, little, *lay, pos as int, name_off, info, type_id),
        kind_bits(info) == 15,
    ensures
        record_parsed(r, data@, little, *lay, pos as int, id),
{
    let vlen: u32 = info & 0xffff;
    let (vars, next) = match parse_vars(data, little, lay, pos + RECORD_LEN, vlen, id) {
        Ok(found) => found,
        Err(e) => {
            return Err(e);
        },
    };
    let name = match parse_name(data, lay, name_off, id) {
        Ok(name) => name,
        Err(e) => {
            return Err(e);
        },
    };
    Ok((BtfType::Datasec(BtfDatasec { name, sz: type_id, vars }), next))
}

/// A number of types as a type id; the largest id if there are more.
fn id_of(count: usize) -> (id: u32)
    ensures
        id == capped_id(count as nat),
{
    if count > u32::MAX as usize {
        u32::MAX
    } else {
        count as u32
    }
}

/// Decodes the types that the data describes.
pub fn parse_types(data: &[u8], little: bool) -> (r: Result<Vec<BtfType>, BtfError>)
    ensures
        match r {
            Ok(types) => data_failure(data@, little) is None && decoded(types@, data@, little),
            Err(e) => reports(e, data_failure(data@, little), data_failure_id(data@, little)),
        },
{
    let lay = match parse_header(data, little) {
        Ok(lay) => lay,
        Err(e) => {
            return Err(e);
        },
    };
    let mut types: Vec<BtfType> = Vec::new();
    types.push(BtfType::Void);
    let mut pos: usize = lay.types_start;
    while pos < lay.types_end
        invariant
            layout_fits(lay, data@),
            lay == layout_of(data@, little),
            header_failure(data@, little) is None,
            lay.types_start <= pos,
            types@.len() >= 1,
            types@[0] is Void,
            pos == record_pos(data@, little, lay, types@.len()),
            records_failure(data@, little, lay, lay.types_start as int) == records_failure(
                data@,
                little,
                lay,
                pos as int,
            ),
            failing_id(data@, little, lay, lay.types_start as int, 1) == failing_id(
                data@,
                little,
                lay,
                pos as int,
                types@.len(),
            ),
            forall|id: int|
                1 <= id < types@.len() ==> #[trigger] placed(types@, data@, little, lay, id),
        decreases lay.types_end - pos,
    {
        let (t, next) = match parse_record(data, little, &lay, pos, id_of(types.len())) {
            Ok(found) => found,
            Err(e) => {
                return Err(e);
            },
        };
        let ghost before = types@;
        let ghost at = pos;
        types.push(t);
        pos = next;
        proof {
            let n = before.len();
            assert(record_pos(data@, little, lay, (n + 1) as nat) == next_record(
                data@,
                little,
                record_pos(data@, little, lay, n),
            ));
            assert forall|id: int| 1 <= id < types@.len() implies #[trigger] placed(
                types@,
                data@,
                little,
                lay,
                id,
            ) by {
                if id < n {
                    assert(placed(before, data@, little, lay, id));
                    assert(types@[id] == before[id]);
                } else {
                    assert(types@[id] == t);
                    assert(record_pos(data@, little, lay, id as nat) == at);
                }
            }
        }
    }
    Ok(types)
}

} // verus!
