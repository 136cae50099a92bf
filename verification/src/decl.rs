//! What the text of a C declaration is: the declarator grammar unwound from
//! the inside out, anonymous composites inlined, padding made explicit.
//!
//! Every function here gives a piece of text together with the state of
//! name resolution after it, because writing a name for the first time
//! decides which identifier its entity gets.
use vstd::prelude::*;
use crate::btf::linked;
use crate::btf::Btf;
use crate::describe::describe;
use crate::layout::chip_bits;
use crate::layout::is_packed;
use crate::layout::offset_after;
use crate::layout::pad_type;
use crate::layout::pad_type_bits;
use crate::layout::pad_type_name;
use crate::layout::padding_gap;
use crate::names::resolve_enum_val_name;
use crate::names::resolve_name;
use crate::names::Names;
use crate::text::decimal;
use crate::text::indent;
use crate::text::separator;
use crate::text::signed_decimal;
use crate::types::BtfEnum;
use crate::types::BtfMember;
use crate::types::BtfType;

verus! {

/// What a declaration depends on besides the state of name resolution: the
/// graph, which ids are left out because their name is on the blacklist,
/// whether traces are written, and the level of nesting from which on
/// structs and unions are written without their members.
pub struct Env {
    pub btf: Btf,
    pub skip: Seq<bool>,
    pub verbose: bool,
    pub limit: nat,
}

impl Env {
    /// The node `id`.
    pub open spec fn node(&self, id: int) -> BtfType {
        self.btf@[id]
    }

    /// The number of nodes.
    pub open spec fn len(&self) -> nat {
        self.btf@.len()
    }

    /// The depth of the chain of references that starts at `id`.
    pub open spec fn depth(&self, id: int) -> nat {
        self.btf.depths()[id]
    }

    /// Every reference of the graph is in range and descends in depth, and
    /// ids fit in 32 bits.
    pub open spec fn linked(&self) -> bool {
        linked(self.btf@, self.btf.depths()) && self.btf@.len() <= u32::MAX
    }

    /// What a declaration that starts at nesting level `lvl` depends on: the
    /// same, with the limit on nesting as many levels below `lvl` as there
    /// are types.
    pub open spec fn starting_at(&self, lvl: nat) -> Env {
        Env { btf: self.btf, skip: self.skip, verbose: self.verbose, limit: lvl + self.len() }
    }
}

/// Whether a node is a qualifier.
pub open spec fn is_qualifier(t: BtfType) -> bool {
    t is Volatile || t is Const || t is Restrict
}

/// Whether a node can stand in no declaration: functions, variables and
/// data sections are no types.
pub open spec fn is_undeclarable(t: BtfType) -> bool {
    t is Func || t is Var || t is Datasec
}

/// The chain of type constructors that starts at `id`: `id` itself, then
/// what it points to, qualifies, is an array of or returns, and so on down
/// to the first node that is none of these.
pub open spec fn chain_from(env: Env, id: int) -> Seq<u32>
    decreases env.depth(id),
    when env.linked() && 0 <= id < env.len()
{
    match env.node(id) {
        BtfType::Ptr(t) => seq![id as u32] + chain_from(env, t.type_id as int),
        BtfType::Const(t) => seq![id as u32] + chain_from(env, t.type_id as int),
        BtfType::Volatile(t) => seq![id as u32] + chain_from(env, t.type_id as int),
        BtfType::Restrict(t) => seq![id as u32] + chain_from(env, t.type_id as int),
        BtfType::Array(t) => seq![id as u32] + chain_from(env, t.val_type_id as int),
        BtfType::FuncProto(t) => seq![id as u32] + chain_from(env, t.res_type_id as int),
        _ => seq![id as u32],
    }
}

/// The largest depth among the ids of a chain.
pub open spec fn chain_depth(env: Env, chain: Seq<u32>) -> nat
    decreases chain.len(),
{
    if chain.len() == 0 {
        0
    } else {
        let rest = chain_depth(env, chain.drop_last());
        if env.depth(chain.last() as int) >= rest {
            env.depth(chain.last() as int)
        } else {
            rest
        }
    }
}

/// Every id of the chain is in range.
pub open spec fn chain_in_range(env: Env, chain: Seq<u32>) -> bool {
    forall|i: int| 0 <= i < chain.len() ==> (#[trigger] chain[i]) < env.len()
}

/// The keyword of a qualifier.
pub open spec fn qualifier_word(t: BtfType) -> Seq<char> {
    match t {
        BtfType::Volatile(_) => "volatile"@,
        BtfType::Const(_) => "const"@,
        _ => "restrict"@,
    }
}

/// The qualifiers at the end of a chain, each followed by a space, the last
/// of the chain first. They qualify the base type and are written before it.
pub open spec fn leading_mods(env: Env, chain: Seq<u32>) -> Seq<char>
    decreases chain.len(),
{
    if chain.len() > 0 && is_qualifier(env.node(chain.last() as int)) {
        qualifier_word(env.node(chain.last() as int)) + " "@ + leading_mods(env, chain.drop_last())
    } else {
        Seq::empty()
    }
}

/// The chain without the qualifiers at its end.
pub open spec fn without_mods(env: Env, chain: Seq<u32>) -> Seq<u32>
    decreases chain.len(),
{
    if chain.len() > 0 && is_qualifier(env.node(chain.last() as int)) {
        without_mods(env, chain.drop_last())
    } else {
        chain
    }
}

/// The declared name where it follows what was written before: directly
/// after a `*`, after a space otherwise (if there is a name at all).
pub open spec fn name_text(fname: Seq<char>, last_was_ptr: bool) -> Seq<char> {
    if last_was_ptr {
        fname
    } else {
        separator(fname) + fname
    }
}

/// The trace that is written for a node that can stand in no declaration.
pub open spec fn undeclarable_text(env: Env, id: int) -> Seq<char> {
    if env.verbose {
        "!@#! UNEXPECT TYPE DECL id: "@ + decimal(id as nat) + ", type: "@ + describe(env.node(id))
    } else {
        Seq::empty()
    }
}

/// The trace that is written in place of a type whose name is on the
/// blacklist.
pub open spec fn skipped_text(env: Env, id: int) -> Seq<char> {
    if env.verbose {
        "!@#! BLACKLISTED id: "@ + decimal(id as nat) + ", type: "@ + describe(env.node(id))
    } else {
        Seq::empty()
    }
}

/// The ids of a chain from its end to its start, each as `[id] --> `.
pub open spec fn parents_text(parents: Seq<u32>) -> Seq<char>
    decreases parents.len(),
{
    if parents.len() == 0 {
        Seq::empty()
    } else {
        "["@ + decimal(parents.last() as nat) + "] --> "@ + parents_text(parents.drop_last())
    }
}

/// The trace that is written for a chain that ends in a node that can stand
/// in no declaration.
pub open spec fn undeclarable_chain_text(env: Env, chain: Seq<u32>) -> Seq<char> {
    if env.verbose {
        "!@#! UNEXPECT TYPE DECL CHAIN "@ + parents_text(chain.drop_last()) + "["@ + decimal(
            chain.last() as nat,
        ) + "] "@ + describe(env.node(chain.last() as int))
    } else {
        Seq::empty()
    }
}

/// A padding field of `bits` bits with the type named `ty`, on a line of
/// its own at nesting level `lvl`.
pub open spec fn pad_field_text(ty: Seq<char>, bits: nat, lvl: nat) -> Seq<char> {
    "\n"@ + indent(lvl) + ty + ": "@ + decimal(bits) + ";"@
}

/// The padding fields that fill a gap of `gap` bits, each on a line of its
/// own at nesting level `lvl`. Each field has the widest type that fits the
/// rest of the gap, and takes what is left over of the gap after whole
/// fields of that type.
pub open spec fn padding_text(ptr_bits: nat, gap: nat, lvl: nat) -> Seq<char>
    decreases gap,
{
    if gap == 0 {
        Seq::empty()
    } else {
        let ty = pad_type(ptr_bits, gap);
        let bits = chip_bits(gap, pad_type_bits(ptr_bits, ty));
        if 0 < bits <= gap {
            pad_field_text(pad_type_name(ty), bits, lvl) + padding_text(
                ptr_bits,
                (gap - bits) as nat,
                lvl,
            )
        } else {
            Seq::empty()
        }
    }
}

/// `struct name` for the struct `id`, or, if it is left out, nothing but a
/// trace. The flag says whether the name was written.
pub open spec fn struct_fwd_text(env: Env, ns: Names, id: int) -> (bool, Seq<char>, Names) {
    if env.skip[id] {
        (false, skipped_text(env, id), ns)
    } else {
        let (name, after) = resolve_name(env.btf@, ns, id);
        (true, "struct "@ + name, after)
    }
}

/// `union name` for the union `id`, or, if it is left out, nothing but a
/// trace. The flag says whether the name was written.
pub open spec fn union_fwd_text(env: Env, ns: Names, id: int) -> (bool, Seq<char>, Names) {
    if env.skip[id] {
        (false, skipped_text(env, id), ns)
    } else {
        let (name, after) = resolve_name(env.btf@, ns, id);
        (true, "union "@ + name, after)
    }
}

/// The forward declaration `id` as `struct name` or `union name`, or
/// nothing if it is left out.
pub open spec fn fwd_def_text(env: Env, ns: Names, id: int) -> (Seq<char>, Names) {
    if env.skip[id] {
        (skipped_text(env, id), ns)
    } else {
        let (name, after) = resolve_name(env.btf@, ns, id);
        match env.node(id) {
            BtfType::Fwd(t) => (
                (if t.kind == crate::types::BtfFwdKind::Struct {
                    "struct "@
                } else {
                    "union "@
                }) + name,
                after,
            ),
            _ => (Seq::empty(), after),
        }
    }
}

/// The lines of the first `n` enumerators of the enum `t` with id `id`,
/// written at nesting level `lvl`.
pub open spec fn enum_values_text(env: Env, ns: Names, id: int, t: BtfEnum, n: nat, lvl: nat) -> (
    Seq<char>,
    Names,
)
    decreases n,
{
    if n == 0 {
        (Seq::empty(), ns)
    } else {
        let (before, ns1) = enum_values_text(env, ns, id, t, (n - 1) as nat, lvl);
        let v = t.values@[n - 1];
        let (name, ns2) = resolve_enum_val_name(env.btf@, ns1, id, t, v.name@);
        (before + "\n"@ + indent(lvl) + name + " = "@ + signed_decimal(v.value as int) + ","@, ns2)
    }
}

/// The definition of the enum `id` at nesting level `lvl`, or nothing if it
/// is left out. An enum without enumerators is written as its tag alone.
pub open spec fn enum_def_text(env: Env, ns: Names, id: int, lvl: nat) -> (Seq<char>, Names) {
    match env.node(id) {
        BtfType::Enum(t) => {
            if env.skip[id] {
                (skipped_text(env, id), ns)
            } else {
                let (name, ns1) = resolve_name(env.btf@, ns, id);
                if t.values@.len() == 0 {
                    ("enum"@ + separator(name) + name, ns1)
                } else {
                    let (values, ns2) = enum_values_text(
                        env,
                        ns1,
                        id,
                        t,
                        t.values@.len(),
                        lvl + 1,
                    );
                    (
                        "enum"@ + separator(name) + name + " {"@ + values + "\n"@ + indent(lvl)
                            + "}"@,
                        ns2,
                    )
                }
            }
        },
        _ => (Seq::empty(), ns),
    }
}

/// How far below the nesting limit the level `lvl` is. The members of a
/// struct or union are written only below the limit. A declaration is
/// written with the limit as many levels below the level at which it starts
/// as there are types: structs and unions that do not hold themselves do
/// not nest that deep.
pub open spec fn room(env: Env, lvl: nat) -> nat {
    if lvl < env.limit {
        (env.limit - lvl) as nat
    } else {
        0
    }
}

/// The declaration of `fname` with the type `id`, written at nesting level
/// `lvl`.
pub open spec fn decl_text(env: Env, ns: Names, id: int, fname: Seq<char>, lvl: nat) -> (
    Seq<char>,
    Names,
)
    decreases room(env, lvl), 0nat, env.depth(id), 2nat, 0nat,
    when env.linked() && 0 <= id < env.len()
{
    let chain = chain_from(env, id);
    if is_undeclarable(env.node(chain.last() as int)) {
        (undeclarable_chain_text(env, chain), ns)
    } else {
        proof {
            lemma_chain_from(env, id);
        }
        chain_text(env, ns, chain, fname, lvl, true)
    }
}

/// The declarator of `fname` for what is left of a chain, the end of the
/// chain first: the base type with the qualifiers that belong to it, then
/// pointers and their qualifiers from the inside out, up to the first array
/// or function, which takes the rest of the chain in parentheses in front
/// of its brackets or parameter list.
pub open spec fn chain_text(
    env: Env,
    ns: Names,
    chain: Seq<u32>,
    fname: Seq<char>,
    lvl: nat,
    last_was_ptr: bool,
) -> (Seq<char>, Names)
    decreases room(env, lvl), 0nat, chain_depth(env, chain), 1nat, 3 * chain.len(),
    when env.linked() && chain_in_range(env, chain)
{
    if chain.len() == 0 {
        (name_text(fname, last_was_ptr), ns)
    } else {
        let id = chain.last() as int;
        let rest = chain.drop_last();
        proof {
            lemma_without_mods(env, rest);
        }
        match env.node(id) {
            BtfType::Ptr(_) => {
                let (tail, after) = chain_text(env, ns, rest, fname, lvl, true);
                (
                    (if last_was_ptr {
                        "*"@
                    } else {
                        " *"@
                    }) + tail,
                    after,
                )
            },
            BtfType::Volatile(_) => {
                let (tail, after) = chain_text(env, ns, rest, fname, lvl, false);
                (" volatile"@ + tail, after)
            },
            BtfType::Const(_) => {
                let (tail, after) = chain_text(env, ns, rest, fname, lvl, false);
                (" const"@ + tail, after)
            },
            BtfType::Restrict(_) => {
                let (tail, after) = chain_text(env, ns, rest, fname, lvl, false);
                (" restrict"@ + tail, after)
            },
            BtfType::Array(t) => {
                let outer = without_mods(env, rest);
                let (inner, after) = enclosed_text(env, ns, outer, fname, lvl, last_was_ptr);
                (inner + "["@ + decimal(t.nelems as nat) + "]"@, after)
            },
            BtfType::FuncProto(_) => func_rest_text(env, ns, id, rest, fname, lvl, last_was_ptr),
            BtfType::Func(_) | BtfType::Var(_) | BtfType::Datasec(_) => {
                let (tail, after) = chain_text(env, ns, rest, fname, lvl, false);
                (undeclarable_text(env, id) + tail, after)
            },
            _ => {
                let (base, ns1) = base_text(env, ns, id, lvl);
                let (tail, ns2) = chain_text(
                    env,
                    ns1,
                    without_mods(env, rest),
                    fname,
                    lvl,
                    false,
                );
                (leading_mods(env, rest) + base + tail, ns2)
            },
        }
    }
}

/// The rest of a declarator whose chain has come to the function
/// prototype `id`: the qualifiers at the end of what is left of the chain,
/// the rest of it in front of the parameter list, and the parameter list.
pub open spec fn func_rest_text(
    env: Env,
    ns: Names,
    id: int,
    rest: Seq<u32>,
    fname: Seq<char>,
    lvl: nat,
    last_was_ptr: bool,
) -> (Seq<char>, Names)
    decreases room(env, lvl), 0nat, func_depth(env, id, rest), 1nat, 3 * rest.len() + 2,
    when env.linked() && chain_in_range(env, rest) && 0 <= id < env.len()
{
    proof {
        lemma_without_mods(env, rest);
    }
    let outer = without_mods(env, rest);
    let (inner, ns1) = enclosed_text(env, ns, outer, fname, lvl, last_was_ptr);
    let (params, ns2) = params_text(
        env,
        ns1,
        id,
        match env.node(id) {
            BtfType::FuncProto(t) => t.params@.len(),
            _ => 0,
        },
        lvl,
    );
    (leading_mods(env, rest) + inner + "("@ + params + ")"@, ns2)
}

/// The larger of the depth of `id` and that of the chain `rest`.
pub open spec fn func_depth(env: Env, id: int, rest: Seq<u32>) -> nat {
    if env.depth(id) >= chain_depth(env, rest) {
        env.depth(id)
    } else {
        chain_depth(env, rest)
    }
}

/// What stands in front of the brackets of an array or the parameter list
/// of a function: the declared name, or, if anything is left of the chain,
/// the declarator for the rest in parentheses.
pub open spec fn enclosed_text(
    env: Env,
    ns: Names,
    outer: Seq<u32>,
    fname: Seq<char>,
    lvl: nat,
    last_was_ptr: bool,
) -> (Seq<char>, Names)
    decreases room(env, lvl), 0nat, chain_depth(env, outer), 1nat, 3 * outer.len() + 1,
    when env.linked() && chain_in_range(env, outer)
{
    if outer.len() == 0 {
        (name_text(fname, last_was_ptr), ns)
    } else {
        let (inner, after) = chain_text(env, ns, outer, fname, lvl, true);
        (" ("@ + inner + ")"@, after)
    }
}

/// The base type `id` of a declaration: its keyword and resolved name, or,
/// for an anonymous composite or enum, its definition at nesting level
/// `lvl`.
pub open spec fn base_text(env: Env, ns: Names, id: int, lvl: nat) -> (Seq<char>, Names)
    decreases room(env, lvl), 0nat, 0nat, 0nat, 2nat,
    when env.linked() && 0 <= id < env.len()
{
    match env.node(id) {
        BtfType::Void => ("void"@, ns),
        BtfType::Int(t) => (t.name@, ns),
        BtfType::Struct(t) => if t.name@.len() == 0 {
            struct_def_text(env, ns, id, lvl)
        } else {
            let (_printed, text, after) = struct_fwd_text(env, ns, id);
            (text, after)
        },
        BtfType::Union(t) => if t.name@.len() == 0 {
            union_def_text(env, ns, id, lvl)
        } else {
            let (_printed, text, after) = union_fwd_text(env, ns, id);
            (text, after)
        },
        BtfType::Enum(t) => if t.name@.len() == 0 {
            enum_def_text(env, ns, id, lvl)
        } else {
            let (name, after) = resolve_name(env.btf@, ns, id);
            ("enum "@ + name, after)
        },
        BtfType::Fwd(_) => fwd_def_text(env, ns, id),
        BtfType::Typedef(_) => resolve_name(env.btf@, ns, id),
        _ => (Seq::empty(), ns),
    }
}

/// The first `n` parameters of the function prototype `id`, separated by
/// commas. A single parameter of type id 0 stands for no parameters at all;
/// a last parameter of type id 0 is written as `...`.
pub open spec fn params_text(env: Env, ns: Names, id: int, n: nat, lvl: nat) -> (Seq<char>, Names)
    decreases room(env, lvl), 0nat, env.depth(id), 0nat, n,
    when env.linked() && 0 <= id < env.len()
{
    match env.node(id) {
        BtfType::FuncProto(t) => {
            let count = t.params@.len();
            if n == 0 || n > count || (count == 1 && t.params@[0].type_id == 0) {
                (Seq::empty(), ns)
            } else {
                let (before, ns1) = params_text(env, ns, id, (n - 1) as nat, lvl);
                let p = t.params@[n - 1];
                let comma = if n > 1 {
                    ", "@
                } else {
                    Seq::empty()
                };
                if n == count && p.type_id == 0 {
                    (before + comma + "..."@, ns1)
                } else {
                    let (decl, ns2) = decl_text(env, ns1, p.type_id as int, p.name@, lvl);
                    (before + comma + decl, ns2)
                }
            }
        },
        _ => (Seq::empty(), ns),
    }
}

/// The line of member `k` of the struct `id`, after the padding that the
/// gap before it needs. The member is written at nesting level `lvl + 1`.
pub open spec fn struct_member_text(
    env: Env,
    ns: Names,
    id: int,
    k: int,
    packed: bool,
    lvl: nat,
) -> (Seq<char>, Names)
    decreases room(env, lvl + 1), 1nat, 0nat, 0nat, 0nat,
    when env.linked() && 0 <= id < env.len()
{
    match env.node(id) {
        BtfType::Struct(t) => {
            if 0 <= k < t.members@.len() && lvl < env.limit {
                let m = t.members@[k];
                let gap = padding_gap(&env.btf, offset_after(&env.btf, t.members@, k as nat), m, packed);
                let (decl, after) = decl_text(env, ns, m.type_id as int, m.name@, lvl + 1);
                (
                    padding_text(env.btf.spec_ptr_sz() as nat * 8, gap, lvl + 1) + line_head(
                        lvl + 1,
                    ) + decl + member_tail(m),
                    after,
                )
            } else {
                (Seq::empty(), ns)
            }
        },
        _ => (Seq::empty(), ns),
    }
}

/// The lines of the first `n` members of the struct `id`.
pub open spec fn struct_members_text(
    env: Env,
    ns: Names,
    id: int,
    n: nat,
    packed: bool,
    lvl: nat,
) -> (Seq<char>, Names)
    decreases room(env, lvl + 1), 1nat, 0nat, 1nat, n,
    when env.linked() && 0 <= id < env.len()
{
    if n == 0 {
        (Seq::empty(), ns)
    } else {
        let (before, ns1) = struct_members_text(env, ns, id, (n - 1) as nat, packed, lvl);
        let (line, ns2) = struct_member_text(env, ns1, id, n - 1, packed, lvl);
        (before + line, ns2)
    }
}

/// The start of a struct or union definition: the keyword, the name if
/// there is one, and the opening brace.
pub open spec fn composite_head(keyword: Seq<char>, name: Seq<char>) -> Seq<char> {
    keyword + separator(name) + name + " {"@
}

/// The end of a struct or union definition at nesting level `lvl`: the
/// closing brace on a line of its own (directly after the opening brace if
/// there are no members), and the attribute of a packed struct.
pub open spec fn composite_tail(has_members: bool, lvl: nat, packed: bool) -> Seq<char> {
    (if has_members {
        "\n"@
    } else {
        Seq::empty()
    }) + indent(lvl) + "}"@ + (if packed {
        " __attribute__((packed))"@
    } else {
        Seq::empty()
    })
}

/// The start of a member's line at nesting level `lvl`.
pub open spec fn line_head(lvl: nat) -> Seq<char> {
    "\n"@ + indent(lvl)
}

/// The end of a member's line: the width if it is a bitfield, and the
/// semicolon.
pub open spec fn member_tail(m: BtfMember) -> Seq<char> {
    bit_size_text(m) + ";"@
}

/// `: width` after the declarator of a bitfield.
pub open spec fn bit_size_text(m: BtfMember) -> Seq<char> {
    if m.bit_size != 0 {
        ": "@ + decimal(m.bit_size as nat)
    } else {
        Seq::empty()
    }
}

/// The definition of the struct `id` at nesting level `lvl`, or nothing if
/// it is left out.
pub open spec fn struct_def_text(env: Env, ns: Names, id: int, lvl: nat) -> (Seq<char>, Names)
    decreases room(env, lvl), 0nat, 0nat, 0nat, 1nat,
    when env.linked() && 0 <= id < env.len()
{
    match env.node(id) {
        BtfType::Struct(t) => {
            if env.skip[id] {
                (skipped_text(env, id), ns)
            } else {
                let packed = is_packed(&env.btf, id, t.sz, t.members@);
                let (name, ns1) = resolve_name(env.btf@, ns, id);
                let (members, ns2) = if lvl < env.limit {
                    struct_members_text(env, ns1, id, t.members@.len(), packed, lvl)
                } else {
                    (Seq::empty(), ns1)
                };
                (
                    composite_head("struct"@, name) + members + composite_tail(
                        t.members@.len() != 0,
                        lvl,
                        packed,
                    ),
                    ns2,
                )
            }
        },
        _ => (Seq::empty(), ns),
    }
}

/// The line of member `k` of the union `id`, written at nesting level
/// `lvl + 1`.
pub open spec fn union_member_text(env: Env, ns: Names, id: int, k: int, lvl: nat) -> (
    Seq<char>,
    Names,
)
    decreases room(env, lvl + 1), 1nat, 0nat, 0nat, 0nat,
    when env.linked() && 0 <= id < env.len()
{
    match env.node(id) {
        BtfType::Union(t) => {
            if 0 <= k < t.members@.len() && lvl < env.limit {
                let m = t.members@[k];
                let (decl, after) = decl_text(env, ns, m.type_id as int, m.name@, lvl + 1);
                (line_head(lvl + 1) + decl + member_tail(m), after)
            } else {
                (Seq::empty(), ns)
            }
        },
        _ => (Seq::empty(), ns),
    }
}

/// The lines of the first `n` members of the union `id`.
pub open spec fn union_members_text(env: Env, ns: Names, id: int, n: nat, lvl: nat) -> (
    Seq<char>,
    Names,
)
    decreases room(env, lvl + 1), 1nat, 0nat, 1nat, n,
    when env.linked() && 0 <= id < env.len()
{
    if n == 0 {
        (Seq::empty(), ns)
    } else {
        let (before, ns1) = union_members_text(env, ns, id, (n - 1) as nat, lvl);
        let (line, ns2) = union_member_text(env, ns1, id, n - 1, lvl);
        (before + line, ns2)
    }
}

/// The definition of the union `id` at nesting level `lvl`, or nothing if
/// it is left out.
pub open spec fn union_def_text(env: Env, ns: Names, id: int, lvl: nat) -> (Seq<char>, Names)
    decreases room(env, lvl), 0nat, 0nat, 0nat, 1nat,
    when env.linked() && 0 <= id < env.len()
{
    match env.node(id) {
        BtfType::Union(t) => {
            if env.skip[id] {
                (skipped_text(env, id), ns)
            } else {
                let (name, ns1) = resolve_name(env.btf@, ns, id);
                let (members, ns2) = if lvl < env.limit {
                    union_members_text(env, ns1, id, t.members@.len(), lvl)
                } else {
                    (Seq::empty(), ns1)
                };
                (
                    composite_head("union"@, name) + members + composite_tail(
                        t.members@.len() != 0,
                        lvl,
                        false,
                    ),
                    ns2,
                )
            }
        },
        _ => (Seq::empty(), ns),
    }
}

/// The definition of the typedef `id`: `typedef`, then the declaration of
/// its resolved name with the type it stands for. Nothing if it is left out.
pub open spec fn typedef_def_text(env: Env, ns: Names, id: int, lvl: nat) -> (Seq<char>, Names) {
    match env.node(id) {
        BtfType::Typedef(t) => {
            if env.skip[id] {
                (skipped_text(env, id), ns)
            } else {
                let (name, ns1) = resolve_name(env.btf@, ns, id);
                let (decl, ns2) = decl_text(env, ns1, t.type_id as int, name, lvl);
                ("typedef "@ + decl, ns2)
            }
        },
        _ => (Seq::empty(), ns),
    }
}

/// The chain without the qualifiers at its end is a front part of the
/// chain: no longer, no deeper, and in range if the chain is.
pub proof fn lemma_without_mods(env: Env, chain: Seq<u32>)
    ensures
        without_mods(env, chain).len() <= chain.len(),
        chain_depth(env, without_mods(env, chain)) <= chain_depth(env, chain),
        chain_in_range(env, chain) ==> chain_in_range(env, without_mods(env, chain)),
        without_mods(env, chain) == chain.take(without_mods(env, chain).len() as int),
    decreases chain.len(),
{
    if chain.len() > 0 && is_qualifier(env.node(chain.last() as int)) {
        lemma_without_mods(env, chain.drop_last());
        let inner = without_mods(env, chain.drop_last());
        assert(chain.drop_last().take(inner.len() as int) =~= chain.take(inner.len() as int));
    } else {
        assert(chain.take(chain.len() as int) =~= chain);
    }
}

/// The chain that starts at `id` is in range, no deeper than `id`, and not
/// empty.
pub proof fn lemma_chain_from(env: Env, id: int)
    requires
        env.linked(),
        0 <= id < env.len(),
    ensures
        chain_in_range(env, chain_from(env, id)),
        chain_depth(env, chain_from(env, id)) <= env.depth(id),
        chain_from(env, id).len() >= 1,
        chain_from(env, id)[0] == id,
    decreases env.depth(id),
{
    let chain = chain_from(env, id);
    assert(crate::btf::refs_below(env.btf@[id], env.len()));
    assert(crate::btf::refs_descend(env.btf@[id], env.btf.depths(), env.btf.depths()[id]));
    let next: int = match env.node(id) {
        BtfType::Ptr(t) => t.type_id as int,
        BtfType::Const(t) => t.type_id as int,
        BtfType::Volatile(t) => t.type_id as int,
        BtfType::Restrict(t) => t.type_id as int,
        BtfType::Array(t) => t.val_type_id as int,
        BtfType::FuncProto(t) => t.res_type_id as int,
        _ => -1,
    };
    if next >= 0 {
        lemma_chain_from(env, next);
        let tail = chain_from(env, next);
        assert(chain == seq![id as u32] + tail);
        lemma_chain_depth_prepend(env, id as u32, tail);
        assert(env.depth(next) < env.depth(id));
    } else {
        assert(chain == seq![id as u32]);
        lemma_chain_depth_prepend(env, id as u32, Seq::<u32>::empty());
        assert(seq![id as u32] + Seq::<u32>::empty() =~= chain);
    }
}

/// A chain with an id put in front is as deep as the deeper of the two.
pub proof fn lemma_chain_depth_prepend(env: Env, id: u32, tail: Seq<u32>)
    ensures
        chain_depth(env, seq![id] + tail) == if env.depth(id as int) >= chain_depth(env, tail) {
            env.depth(id as int)
        } else {
            chain_depth(env, tail)
        },
    decreases tail.len(),
{
    let chain = seq![id] + tail;
    if tail.len() == 0 {
        assert(chain.drop_last() =~= Seq::<u32>::empty());
        assert(chain.last() == id);
        assert(chain_depth(env, chain.drop_last()) == 0);
        assert(chain_depth(env, tail) == 0);
    } else {
        lemma_chain_depth_prepend(env, id, tail.drop_last());
        assert(chain.drop_last() =~= seq![id] + tail.drop_last());
        assert(chain.last() == tail.last());
    }
}

} // verus!
