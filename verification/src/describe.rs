//! One-line (or, for composites, one line per member) descriptions of the
//! nodes, as shown in error messages and traces.
use vstd::prelude::*;
use vstd::string::*;
use crate::text::decimal;
use crate::text::disp_name;
use crate::text::push_decimal;
use crate::text::push_signed_decimal;
use crate::text::shown_name;
use crate::text::signed_decimal;
use crate::types::BtfArray;
use crate::types::BtfConst;
use crate::types::BtfDatasec;
use crate::types::BtfDatasecVar;
use crate::types::BtfEnum;
use crate::types::BtfEnumValue;
use crate::types::BtfFunc;
use crate::types::BtfFuncParam;
use crate::types::BtfFuncProto;
use crate::types::BtfFwd;
use crate::types::BtfFwdKind;
use crate::types::BtfInt;
use crate::types::BtfIntEncoding;
use crate::types::BtfMember;
use crate::types::BtfPtr;
use crate::types::BtfRestrict;
use crate::types::BtfStruct;
use crate::types::BtfType;
use crate::types::BtfTypedef;
use crate::types::BtfUnion;
use crate::types::BtfVar;
use crate::types::BtfVarKind;
use crate::types::BtfVolatile;

verus! {

/// A position in a list, written with at least two digits.
pub open spec fn index_text(i: nat) -> Seq<char> {
    if i < 10 {
        "0"@ + decimal(i)
    } else {
        decimal(i)
    }
}

/// The line that introduces entry `i` of a list.
pub open spec fn entry_head(i: nat) -> Seq<char> {
    "\n\t#"@ + index_text(i) + " "@
}

/// The encoding as a word.
pub open spec fn encoding_text(e: BtfIntEncoding) -> Seq<char> {
    match e {
        BtfIntEncoding::Plain => "none"@,
        BtfIntEncoding::Signed => "signed"@,
        BtfIntEncoding::Char => "char"@,
        BtfIntEncoding::Bool => "bool"@,
    }
}

/// The description of an integer type.
pub open spec fn int_text(t: BtfInt) -> Seq<char> {
    "<INT> '"@ + shown_name(t.name@) + "' bits:"@ + decimal(t.bits as nat) + " off:"@ + decimal(
        t.offset as nat,
    ) + (if t.encoding == BtfIntEncoding::Plain {
        Seq::empty()
    } else {
        " enc:"@ + encoding_text(t.encoding)
    })
}

/// `<TAG> --> [id]`, the description of a node that only refers to another.
pub open spec fn link_text(tag: Seq<char>, type_id: u32) -> Seq<char> {
    tag + " --> ["@ + decimal(type_id as nat) + "]"@
}

/// `<TAG> 'name' --> [id]`, the description of a named reference.
pub open spec fn named_link_text(tag: Seq<char>, name: Seq<char>, type_id: u32) -> Seq<char> {
    tag + " '"@ + shown_name(name) + "' --> ["@ + decimal(type_id as nat) + "]"@
}

/// The description of an array.
pub open spec fn array_text(t: BtfArray) -> Seq<char> {
    "<ARRAY> n:"@ + decimal(t.nelems as nat) + " idx-->["@ + decimal(t.idx_type_id as nat)
        + "] val-->["@ + decimal(t.val_type_id as nat) + "]"@
}

/// The description of a member.
pub open spec fn member_text(m: BtfMember) -> Seq<char> {
    "'"@ + shown_name(m.name@) + "' off:"@ + decimal(m.bit_offset as nat) + (if m.bit_size != 0 {
        " sz:"@ + decimal(m.bit_size as nat)
    } else {
        Seq::empty()
    }) + " --> ["@ + decimal(m.type_id as nat) + "]"@
}

/// The lines of the first `n` members.
pub open spec fn members_text(members: Seq<BtfMember>, n: nat) -> Seq<char>
    decreases n,
{
    if n == 0 {
        Seq::empty()
    } else {
        members_text(members, (n - 1) as nat) + entry_head((n - 1) as nat) + member_text(
            members[n - 1],
        )
    }
}

/// `<TAG> 'name' sz:size n:count`, the first line of a list's description.
pub open spec fn list_head(tag: Seq<char>, name: Seq<char>, sz: u32, n: nat) -> Seq<char> {
    tag + " '"@ + shown_name(name) + "' sz:"@ + decimal(sz as nat) + " n:"@ + decimal(n)
}

/// The description of a struct.
pub open spec fn struct_text(t: BtfStruct) -> Seq<char> {
    list_head("<STRUCT>"@, t.name@, t.sz, t.members@.len()) + members_text(
        t.members@,
        t.members@.len(),
    )
}

/// The description of a union.
pub open spec fn union_text(t: BtfUnion) -> Seq<char> {
    list_head("<UNION>"@, t.name@, t.sz, t.members@.len()) + members_text(
        t.members@,
        t.members@.len(),
    )
}

/// The description of an enumerator.
pub open spec fn enum_value_text(v: BtfEnumValue) -> Seq<char> {
    shown_name(v.name@) + " = "@ + signed_decimal(v.value as int)
}

/// The lines of the first `n` enumerators.
pub open spec fn enum_values_text(values: Seq<BtfEnumValue>, n: nat) -> Seq<char>
    decreases n,
{
    if n == 0 {
        Seq::empty()
    } else {
        enum_values_text(values, (n - 1) as nat) + entry_head((n - 1) as nat) + enum_value_text(
            values[n - 1],
        )
    }
}

/// The description of an enum.
pub open spec fn enum_text(t: BtfEnum) -> Seq<char> {
    list_head("<ENUM>"@, t.name@, t.sz_bits, t.values@.len()) + enum_values_text(
        t.values@,
        t.values@.len(),
    )
}

/// The keyword of what a forward declaration declares.
pub open spec fn fwd_kind_text(k: BtfFwdKind) -> Seq<char> {
    match k {
        BtfFwdKind::Struct => "struct"@,
        BtfFwdKind::Union => "union"@,
    }
}

/// The description of a forward declaration.
pub open spec fn fwd_text(t: BtfFwd) -> Seq<char> {
    "<FWD> '"@ + shown_name(t.name@) + "' kind:"@ + fwd_kind_text(t.kind)
}

/// The description of a parameter.
pub open spec fn param_text(p: BtfFuncParam) -> Seq<char> {
    "'"@ + shown_name(p.name@) + "' --> ["@ + decimal(p.type_id as nat) + "]"@
}

/// The lines of the first `n` parameters.
pub open spec fn params_text(params: Seq<BtfFuncParam>, n: nat) -> Seq<char>
    decreases n,
{
    if n == 0 {
        Seq::empty()
    } else {
        params_text(params, (n - 1) as nat) + entry_head((n - 1) as nat) + param_text(
            params[n - 1],
        )
    }
}

/// The description of a function prototype.
pub open spec fn func_proto_text(t: BtfFuncProto) -> Seq<char> {
    "<FUNC_PROTO> r-->["@ + decimal(t.res_type_id as nat) + "] n:"@ + decimal(t.params@.len())
        + params_text(t.params@, t.params@.len())
}

/// The linkage of a variable as a word.
pub open spec fn var_kind_text(k: BtfVarKind) -> Seq<char> {
    match k {
        BtfVarKind::Static => "static"@,
        BtfVarKind::GlobalAlloc => "global-alloc"@,
    }
}

/// The description of a variable.
pub open spec fn var_text(t: BtfVar) -> Seq<char> {
    "<VAR> '"@ + shown_name(t.name@) + "' kind:"@ + var_kind_text(t.kind) + " --> ["@ + decimal(
        t.type_id as nat,
    ) + "]"@
}

/// The description of a variable in a data section.
pub open spec fn datasec_var_text(v: BtfDatasecVar) -> Seq<char> {
    "off:"@ + decimal(v.offset as nat) + " sz:"@ + decimal(v.sz as nat) + " --> ["@ + decimal(
        v.type_id as nat,
    ) + "]"@
}

/// The lines of the first `n` variables of a data section.
pub open spec fn datasec_vars_text(vars: Seq<BtfDatasecVar>, n: nat) -> Seq<char>
    decreases n,
{
    if n == 0 {
        Seq::empty()
    } else {
        datasec_vars_text(vars, (n - 1) as nat) + entry_head((n - 1) as nat) + datasec_var_text(
            vars[n - 1],
        )
    }
}

/// The description of a data section.
pub open spec fn datasec_text(t: BtfDatasec) -> Seq<char> {
    list_head("<DATASEC>"@, t.name@, t.sz, t.vars@.len()) + datasec_vars_text(
        t.vars@,
        t.vars@.len(),
    )
}

/// The description of a node.
pub open spec fn describe(t: BtfType) -> Seq<char> {
    match t {
        BtfType::Void => "<VOID>"@,
        BtfType::Int(t) => int_text(t),
        BtfType::Ptr(t) => link_text("<PTR>"@, t.type_id),
        BtfType::Array(t) => array_text(t),
        BtfType::Struct(t) => struct_text(t),
        BtfType::Union(t) => union_text(t),
        BtfType::Enum(t) => enum_text(t),
        BtfType::Fwd(t) => fwd_text(t),
        BtfType::Typedef(t) => named_link_text("<TYPEDEF>"@, t.name@, t.type_id),
        BtfType::Volatile(t) => link_text("<VOLATILE>"@, t.type_id),
        BtfType::Const(t) => link_text("<CONST>"@, t.type_id),
        BtfType::Restrict(t) => link_text("<RESTRICT>"@, t.type_id),
        BtfType::Func(t) => named_link_text("<FUNC>"@, t.name@, t.proto_type_id),
        BtfType::FuncProto(t) => func_proto_text(t),
        BtfType::Var(t) => var_text(t),
        BtfType::Datasec(t) => datasec_text(t),
    }
}

fn push_entry_head(out: &mut String, i: usize)
    ensures
        final(out)@ == old(out)@ + entry_head(i as nat),
{
    out.append("\n\t#");
    if i < 10 {
        out.append("0");
    }
    push_decimal(out, i as u64);
    out.append(" ");
    assert(final(out)@ =~= old(out)@ + entry_head(i as nat));
}

fn push_link(out: &mut String, tag: &str, type_id: u32)
    ensures
        final(out)@ == old(out)@ + link_text(tag@, type_id),
{
    out.append(tag);
    out.append(" --> [");
    push_decimal(out, type_id as u64);
    out.append("]");
    assert(final(out)@ =~= old(out)@ + link_text(tag@, type_id));
}

fn push_named_link(out: &mut String, tag: &str, name: &str, type_id: u32)
    ensures
        final(out)@ == old(out)@ + named_link_text(tag@, name@, type_id),
{
    out.append(tag);
    out.append(" '");
    out.append(disp_name(name));
    out.append("' --> [");
    push_decimal(out, type_id as u64);
    out.append("]");
    assert(final(out)@ =~= old(out)@ + named_link_text(tag@, name@, type_id));
}

fn push_list_head(out: &mut String, tag: &str, name: &str, sz: u32, n: usize)
    ensures
        final(out)@ == old(out)@ + list_head(tag@, name@, sz, n as nat),
{
    out.append(tag);
    out.append(" '");
    out.append(disp_name(name));
    out.append("' sz:");
    push_decimal(out, sz as u64);
    out.append(" n:");
    push_decimal(out, n as u64);
    assert(final(out)@ =~= old(out)@ + list_head(tag@, name@, sz, n as nat));
}

fn push_members(out: &mut String, members: &Vec<BtfMember>)
    ensures
        final(out)@ == old(out)@ + members_text(members@, members@.len()),
{
    let mut i: usize = 0;
    assert(out@ =~= old(out)@ + members_text(members@, 0));
    while i < members.len()
        invariant
            i <= members@.len(),
            out@ == old(out)@ + members_text(members@, i as nat),
        decreases members@.len() - i,
    {
        push_entry_head(out, i);
        members[i].describe_into(out);
        i += 1;
        assert(out@ =~= old(out)@ + members_text(members@, i as nat));
    }
}

impl BtfIntEncoding {
    /// The encoding as a word.
    pub fn description(&self) -> (s: &'static str)
        ensures
            s@ == encoding_text(*self),
    {
        match self {
            BtfIntEncoding::Plain => "none",
            BtfIntEncoding::Signed => "signed",
            BtfIntEncoding::Char => "char",
            BtfIntEncoding::Bool => "bool",
        }
    }
}

impl BtfFwdKind {
    /// The keyword of the kind.
    pub fn description(&self) -> (s: &'static str)
        ensures
            s@ == fwd_kind_text(*self),
    {
        match self {
            BtfFwdKind::Struct => "struct",
            BtfFwdKind::Union => "union",
        }
    }
}

impl BtfVarKind {
    /// The linkage as a word.
    pub fn description(&self) -> (s: &'static str)
        ensures
            s@ == var_kind_text(*self),
    {
        match self {
            BtfVarKind::Static => "static",
            BtfVarKind::GlobalAlloc => "global-alloc",
        }
    }
}

impl BtfInt {
    /// Appends the description of this integer type.
    pub fn describe_into(&self, out: &mut String)
        ensures
            final(out)@ == old(out)@ + int_text(*self),
    {
        out.append("<INT> '");
        out.append(disp_name(self.name.as_str()));
        out.append("' bits:");
        push_decimal(out, self.bits as u64);
        out.append(" off:");
        push_decimal(out, self.offset as u64);
        match self.encoding {
            BtfIntEncoding::Plain => {},
            _ => {
                out.append(" enc:");
                out.append(self.encoding.description());
            },
        }
        assert(final(out)@ =~= old(out)@ + int_text(*self));
    }
}

impl BtfPtr {
    /// Appends the description.
    pub fn describe_into(&self, out: &mut String)
        ensures
            final(out)@ == old(out)@ + link_text("<PTR>"@, self.type_id),
    {
        push_link(out, "<PTR>", self.type_id);
    }
}

impl BtfArray {
    /// Appends the description.
    pub fn describe_into(&self, out: &mut String)
        ensures
            final(out)@ == old(out)@ + array_text(*self),
    {
        out.append("<ARRAY> n:");
        push_decimal(out, self.nelems as u64);
        out.append(" idx-->[");
        push_decimal(out, self.idx_type_id as u64);
        out.append("] val-->[");
        push_decimal(out, self.val_type_id as u64);
        out.append("]");
        assert(final(out)@ =~= old(out)@ + array_text(*self));
    }
}

impl BtfMember {
    /// Appends the description.
    pub fn describe_into(&self, out: &mut String)
        ensures
            final(out)@ == old(out)@ + member_text(*self),
    {
        out.append("'");
        out.append(disp_name(self.name.as_str()));
        out.append("' off:");
        push_decimal(out, self.bit_offset as u64);
        if self.bit_size != 0 {
            out.append(" sz:");
            push_decimal(out, self.bit_size as u64);
        }
        out.append(" --> [");
        push_decimal(out, self.type_id as u64);
        out.append("]");
        assert(final(out)@ =~= old(out)@ + member_text(*self));
    }
}

impl BtfStruct {
    /// Appends the description.
    pub fn describe_into(&self, out: &mut String)
        ensures
            final(out)@ == old(out)@ + struct_text(*self),
    {
        push_list_head(out, "<STRUCT>", self.name.as_str(), self.sz, self.members.len());
        push_members(out, &self.members);
        assert(final(out)@ =~= old(out)@ + struct_text(*self));
    }
}

impl BtfUnion {
    /// Appends the description.
    pub fn describe_into(&self, out: &mut String)
        ensures
            final(out)@ == old(out)@ + union_text(*self),
    {
        push_list_head(out, "<UNION>", self.name.as_str(), self.sz, self.members.len());
        push_members(out, &self.members);
        assert(final(out)@ =~= old(out)@ + union_text(*self));
    }
}

impl BtfEnumValue {
    /// Appends the description.
    pub fn describe_into(&self, out: &mut String)
        ensures
            final(out)@ == old(out)@ + enum_value_text(*self),
    {
        out.append(disp_name(self.name.as_str()));
        out.append(" = ");
        push_signed_decimal(out, self.value as i64);
        assert(final(out)@ =~= old(out)@ + enum_value_text(*self));
    }
}

impl BtfEnum {
    /// Appends the description.
    pub fn describe_into(&self, out: &mut String)
        ensures
            final(out)@ == old(out)@ + enum_text(*self),
    {
        push_list_head(out, "<ENUM>", self.name.as_str(), self.sz_bits, self.values.len());
        let ghost head = out@;
        let mut i: usize = 0;
        assert(out@ =~= head + enum_values_text(self.values@, 0));
        while i < self.values.len()
            invariant
                i <= self.values@.len(),
                out@ == head + enum_values_text(self.values@, i as nat),
            decreases self.values@.len() - i,
        {
            push_entry_head(out, i);
            self.values[i].describe_into(out);
            i += 1;
            assert(out@ =~= head + enum_values_text(self.values@, i as nat));
        }
        assert(final(out)@ =~= old(out)@ + enum_text(*self));
    }
}

impl BtfFwd {
    /// Appends the description.
    pub fn describe_into(&self, out: &mut String)
        ensures
            final(out)@ == old(out)@ + fwd_text(*self),
    {
        out.append("<FWD> '");
        out.append(disp_name(self.name.as_str()));
        out.append("' kind:");
        out.append(self.kind.description());
        assert(final(out)@ =~= old(out)@ + fwd_text(*self));
    }
}

impl BtfTypedef {
    /// Appends the description.
    pub fn describe_into(&self, out: &mut String)
        ensures
            final(out)@ == old(out)@ + named_link_text("<TYPEDEF>"@, self.name@, self.type_id),
    {
        push_named_link(out, "<TYPEDEF>", self.name.as_str(), self.type_id);
    }
}

impl BtfVolatile {
    /// Appends the description.
    pub fn describe_into(&self, out: &mut String)
        ensures
            final(out)@ == old(out)@ + link_text("<VOLATILE>"@, self.type_id),
    {
        push_link(out, "<VOLATILE>", self.type_id);
    }
}

impl BtfConst {
    /// Appends the description.
    pub fn describe_into(&self, out: &mut String)
        ensures
            final(out)@ == old(out)@ + link_text("<CONST>"@, self.type_id),
    {
        push_link(out, "<CONST>", self.type_id);
    }
}

impl BtfRestrict {
    /// Appends the description.
    pub fn describe_into(&self, out: &mut String)
        ensures
            final(out)@ == old(out)@ + link_text("<RESTRICT>"@, self.type_id),
    {
        push_link(out, "<RESTRICT>", self.type_id);
    }
}

impl BtfFunc {
    /// Appends the description.
    pub fn describe_into(&self, out: &mut String)
        ensures
            final(out)@ == old(out)@ + named_link_text("<FUNC>"@, self.name@, self.proto_type_id),
    {
        push_named_link(out, "<FUNC>", self.name.as_str(), self.proto_type_id);
    }
}

impl BtfFuncParam {
    /// Appends the description.
    pub fn describe_into(&self, out: &mut String)
        ensures
            final(out)@ == old(out)@ + param_text(*self),
    {
        out.append("'");
        out.append(disp_name(self.name.as_str()));
        out.append("' --> [");
        push_decimal(out, self.type_id as u64);
        out.append("]");
        assert(final(out)@ =~= old(out)@ + param_text(*self));
    }
}

impl BtfFuncProto {
    /// Appends the description.
    pub fn describe_into(&self, out: &mut String)
        ensures
            final(out)@ == old(out)@ + func_proto_text(*self),
    {
        out.append("<FUNC_PROTO> r-->[");
        push_decimal(out, self.res_type_id as u64);
        out.append("] n:");
        push_decimal(out, self.params.len() as u64);
        let ghost head = out@;
        let mut i: usize = 0;
        assert(out@ =~= head + params_text(self.params@, 0));
        while i < self.params.len()
            invariant
                i <= self.params@.len(),
                out@ == head + params_text(self.params@, i as nat),
            decreases self.params@.len() - i,
        {
            push_entry_head(out, i);
            self.params[i].describe_into(out);
            i += 1;
            assert(out@ =~= head + params_text(self.params@, i as nat));
        }
        assert(final(out)@ =~= old(out)@ + func_proto_text(*self));
    }
}

impl BtfVar {
    /// Appends the description.
    pub fn describe_into(&self, out: &mut String)
        ensures
            final(out)@ == old(out)@ + var_text(*self),
    {
        out.append("<VAR> '");
        out.append(disp_name(self.name.as_str()));
        out.append("' kind:");
        out.append(self.kind.description());
        out.append(" --> [");
        push_decimal(out, self.type_id as u64);
        out.append("]");
        assert(final(out)@ =~= old(out)@ + var_text(*self));
    }
}

impl BtfDatasecVar {
    /// Appends the description.
    pub fn describe_into(&self, out: &mut String)
        ensures
            final(out)@ == old(out)@ + datasec_var_text(*self),
    {
        out.append("off:");
        push_decimal(out, self.offset as u64);
        out.append(" sz:");
        push_decimal(out, self.sz as u64);
        out.append(" --> [");
        push_decimal(out, self.type_id as u64);
        out.append("]");
        assert(final(out)@ =~= old(out)@ + datasec_var_text(*self));
    }
}

impl BtfDatasec {
    /// Appends the description.
    pub fn describe_into(&self, out: &mut String)
        ensures
            final(out)@ == old(out)@ + datasec_text(*self),
    {
        push_list_head(out, "<DATASEC>", self.name.as_str(), self.sz, self.vars.len());
        let ghost head = out@;
        let mut i: usize = 0;
        assert(out@ =~= head + datasec_vars_text(self.vars@, 0));
        while i < self.vars.len()
            invariant
                i <= self.vars@.len(),
                out@ == head + datasec_vars_text(self.vars@, i as nat),
            decreases self.vars@.len() - i,
        {
            push_entry_head(out, i);
            self.vars[i].describe_into(out);
            i += 1;
            assert(out@ =~= head + datasec_vars_text(self.vars@, i as nat));
        }
        assert(final(out)@ =~= old(out)@ + datasec_text(*self));
    }
}

impl BtfType {
    /// Appends the description of this node.
    pub fn describe_into(&self, out: &mut String)
        ensures
            final(out)@ == old(out)@ + describe(*self),
    {
        match self {
            BtfType::Void => out.append("<VOID>"),
            BtfType::Int(t) => t.describe_into(out),
            BtfType::Ptr(t) => t.describe_into(out),
            BtfType::Array(t) => t.describe_into(out),
            BtfType::Struct(t) => t.describe_into(out),
            BtfType::Union(t) => t.describe_into(out),
            BtfType::Enum(t) => t.describe_into(out),
            BtfType::Fwd(t) => t.describe_into(out),
            BtfType::Typedef(t) => t.describe_into(out),
            BtfType::Volatile(t) => t.describe_into(out),
            BtfType::Const(t) => t.describe_into(out),
            BtfType::Restrict(t) => t.describe_into(out),
            BtfType::Func(t) => t.describe_into(out),
            BtfType::FuncProto(t) => t.describe_into(out),
            BtfType::Var(t) => t.describe_into(out),
            BtfType::Datasec(t) => t.describe_into(out),
        }
    }

    /// The description of this node.
    pub fn description(&self) -> (s: String)
        ensures
            s@ == describe(*self),
    {
        let mut s = String::new();
        self.describe_into(&mut s);
        assert(s@ =~= describe(*self));
        s
    }
}

} // verus!
