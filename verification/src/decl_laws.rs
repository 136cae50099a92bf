//! The limit on how deep structs and unions nest does not show where they
//! do not hold themselves.
use vstd::prelude::*;
use crate::btf::refs_below;
use crate::btf::refs_descend;
use crate::decl::base_text;
use crate::decl::chain_depth;
use crate::decl::chain_from;
use crate::decl::chain_in_range;
use crate::decl::chain_text;
use crate::decl::decl_text;
use crate::decl::enclosed_text;
use crate::decl::enum_def_text;
use crate::decl::enum_values_text;
use crate::decl::func_rest_text;
use crate::decl::leading_mods;
use crate::decl::lemma_chain_from;
use crate::decl::lemma_without_mods;
use crate::decl::params_text;
use crate::decl::room;
use crate::decl::struct_def_text;
use crate::decl::struct_member_text;
use crate::decl::struct_members_text;
use crate::decl::typedef_def_text;
use crate::decl::union_def_text;
use crate::decl::union_member_text;
use crate::decl::union_members_text;
use crate::decl::without_mods;
use crate::decl::Env;
use crate::names::resolve_name;
use crate::names::Names;
use crate::order::members_of;
use crate::order::params_of;
use crate::types::BtfEnum;
use crate::types::BtfType;

verus! {

/// The same environment with another limit on nesting.
pub open spec fn at_limit(env: Env, limit: nat) -> Env {
    Env { btf: env.btf, skip: env.skip, verbose: env.verbose, limit }
}

/// Whether what the declaration of something of type `id` spells out is of
/// no larger rank, and what a struct or union holds is of a smaller rank.
pub open spec fn nests_descend(env: Env, rank: Seq<nat>, id: int) -> bool {
    match env.node(id) {
        BtfType::Ptr(t) => rank[t.type_id as int] <= rank[id],
        BtfType::Array(t) => rank[t.val_type_id as int] <= rank[id],
        BtfType::Volatile(t) => rank[t.type_id as int] <= rank[id],
        BtfType::Const(t) => rank[t.type_id as int] <= rank[id],
        BtfType::Restrict(t) => rank[t.type_id as int] <= rank[id],
        BtfType::FuncProto(f) => rank[f.res_type_id as int] <= rank[id] && forall|k: int|
            0 <= k < f.params@.len() ==> rank[(#[trigger] f.params@[k]).type_id as int] <= rank[id],
        BtfType::Struct(s) => forall|k: int|
            0 <= k < s.members@.len() ==> rank[(#[trigger] s.members@[k]).type_id as int] < rank[id],
        BtfType::Union(u) => forall|k: int|
            0 <= k < u.members@.len() ==> rank[(#[trigger] u.members@[k]).type_id as int] < rank[id],
        _ => true,
    }
}

/// Whether `rank` shows that no struct or union holds itself, directly or
/// through pointers, arrays and functions: every type has a rank below the
/// number of types, what a declaration spells out is of no larger rank
/// than what is declared, and what a struct or union holds is of a smaller
/// rank than it.
pub open spec fn nest_ranked(env: Env, rank: Seq<nat>) -> bool {
    &&& rank.len() == env.len()
    &&& forall|id: int| 0 <= id < env.len() ==> #[trigger] rank[id] < env.len()
    &&& forall|id: int| 0 <= id < env.len() ==> #[trigger] nests_descend(env, rank, id)
}

/// Whether a type of rank `r` at nesting level `lvl` stays below both
/// limits with everything it holds.
pub open spec fn fits(r: nat, lvl: nat, l1: nat, l2: nat) -> bool {
    lvl + r < l1 && lvl + r < l2
}

/// Whether every type of the chain stays below both limits.
pub open spec fn chain_fits(rank: Seq<nat>, chain: Seq<u32>, lvl: nat, l1: nat, l2: nat) -> bool {
    forall|i: int| 0 <= i < chain.len() ==> fits(rank[(#[trigger] chain[i]) as int], lvl, l1, l2)
}

/// The chain that starts at a type does not depend on the limit, and holds
/// no type of a larger rank than that type.
pub proof fn lemma_chain_from_any_limit(env: Env, rank: Seq<nat>, id: int, l1: nat, l2: nat)
    requires
        env.linked(),
        nest_ranked(env, rank),
        0 <= id < env.len(),
    ensures
        chain_from(at_limit(env, l1), id) == chain_from(at_limit(env, l2), id),
        forall|i: int|
            0 <= i < chain_from(at_limit(env, l1), id).len() ==> rank[(#[trigger] chain_from(
                at_limit(env, l1),
                id,
            )[i]) as int] <= rank[id],
    decreases env.depth(id),
{
    let e1 = at_limit(env, l1);
    let e2 = at_limit(env, l2);
    assert(refs_below(env.btf@[id], env.len()));
    assert(refs_descend(env.btf@[id], env.btf.depths(), env.btf.depths()[id]));
    assert(nests_descend(env, rank, id));
    let next: int = match env.node(id) {
        BtfType::Ptr(t) => t.type_id as int,
        BtfType::Const(t) => t.type_id as int,
        BtfType::Volatile(t) => t.type_id as int,
        BtfType::Restrict(t) => t.type_id as int,
        BtfType::Array(t) => t.val_type_id as int,
        BtfType::FuncProto(t) => t.res_type_id as int,
        _ => -1,
    };
    if next >= 0 {
        lemma_chain_from_any_limit(env, rank, next, l1, l2);
        let tail = chain_from(e1, next);
        assert(chain_from(e1, id) == seq![id as u32] + tail);
        assert(chain_from(e2, id) == seq![id as u32] + chain_from(e2, next));
        assert forall|i: int| 0 <= i < chain_from(e1, id).len() implies rank[(
        #[trigger] chain_from(e1, id)[i]) as int] <= rank[id] by {
            if i > 0 {
                assert(chain_from(e1, id)[i] == tail[i - 1]);
            }
        }
    } else {
        assert(chain_from(e1, id) == seq![id as u32]);
        assert(chain_from(e2, id) == seq![id as u32]);
    }
}

/// The qualifiers at the end of a chain do not depend on the limit.
pub proof fn lemma_mods_any_limit(env: Env, chain: Seq<u32>, l1: nat, l2: nat)
    ensures
        leading_mods(at_limit(env, l1), chain) == leading_mods(at_limit(env, l2), chain),
        without_mods(at_limit(env, l1), chain) == without_mods(at_limit(env, l2), chain),
    decreases chain.len(),
{
    if chain.len() > 0 {
        lemma_mods_any_limit(env, chain.drop_last(), l1, l2);
    }
}

/// The enumerators of an enum do not depend on the limit.
pub proof fn lemma_enum_values_any_limit(
    env: Env,
    ns: Names,
    id: int,
    t: BtfEnum,
    n: nat,
    lvl: nat,
    l1: nat,
    l2: nat,
)
    ensures
        enum_values_text(at_limit(env, l1), ns, id, t, n, lvl) == enum_values_text(
            at_limit(env, l2),
            ns,
            id,
            t,
            n,
            lvl,
        ),
    decreases n,
{
    if n > 0 {
        lemma_enum_values_any_limit(env, ns, id, t, (n - 1) as nat, lvl, l1, l2);
    }
}

/// The definition of an enum does not depend on the limit.
pub proof fn lemma_enum_def_any_limit(env: Env, ns: Names, id: int, lvl: nat, l1: nat, l2: nat)
    ensures
        enum_def_text(at_limit(env, l1), ns, id, lvl) == enum_def_text(
            at_limit(env, l2),
            ns,
            id,
            lvl,
        ),
{
    match env.node(id) {
        BtfType::Enum(t) => {
            let ns1 = resolve_name(env.btf@, ns, id).1;
            lemma_enum_values_any_limit(env, ns1, id, t, t.values@.len(), lvl + 1, l1, l2);
        },
        _ => {},
    }
}

/// A front part of a chain that fits, fits.
pub proof fn lemma_front_fits(rank: Seq<nat>, chain: Seq<u32>, n: int, lvl: nat, l1: nat, l2: nat)
    requires
        chain_fits(rank, chain, lvl, l1, l2),
        0 <= n <= chain.len(),
    ensures
        chain_fits(rank, chain.take(n), lvl, l1, l2),
{
    assert forall|i: int| 0 <= i < chain.take(n).len() implies fits(
        rank[(#[trigger] chain.take(n)[i]) as int],
        lvl,
        l1,
        l2,
    ) by {
        assert(chain.take(n)[i] == chain[i]);
    }
}

/// Where no struct or union holds itself, the limit on nesting does not
/// show in a declaration: it is the same for any two limits that the type
/// at its nesting level stays below.
pub proof fn law_decl_any_limit(
    env: Env,
    rank: Seq<nat>,
    ns: Names,
    id: int,
    fname: Seq<char>,
    lvl: nat,
    l1: nat,
    l2: nat,
)
    requires
        env.linked(),
        nest_ranked(env, rank),
        0 <= id < env.len(),
        fits(rank[id], lvl, l1, l2),
    ensures
        decl_text(at_limit(env, l1), ns, id, fname, lvl) == decl_text(
            at_limit(env, l2),
            ns,
            id,
            fname,
            lvl,
        ),
    decreases room(at_limit(env, l1), lvl), 0nat, env.depth(id), 2nat, 0nat,
{
    let e1 = at_limit(env, l1);
    lemma_chain_from_any_limit(env, rank, id, l1, l2);
    lemma_chain_from(e1, id);
    let chain = chain_from(e1, id);
    lemma_depth_any_limit(env, chain, l1);
    assert(chain_fits(rank, chain, lvl, l1, l2));
    if !crate::decl::is_undeclarable(env.node(chain.last() as int)) {
        lemma_chain_any_limit(env, rank, ns, chain, fname, lvl, true, l1, l2);
    }
}

/// The declarator for a chain is the same for any two limits that its
/// types stay below.
pub proof fn lemma_chain_any_limit(
    env: Env,
    rank: Seq<nat>,
    ns: Names,
    chain: Seq<u32>,
    fname: Seq<char>,
    lvl: nat,
    last_was_ptr: bool,
    l1: nat,
    l2: nat,
)
    requires
        env.linked(),
        nest_ranked(env, rank),
        chain_in_range(env, chain),
        chain_fits(rank, chain, lvl, l1, l2),
    ensures
        chain_text(at_limit(env, l1), ns, chain, fname, lvl, last_was_ptr) == chain_text(
            at_limit(env, l2),
            ns,
            chain,
            fname,
            lvl,
            last_was_ptr,
        ),
    decreases room(at_limit(env, l1), lvl), 0nat, chain_depth(env, chain), 1nat, 3 * chain.len(),
{
    let e1 = at_limit(env, l1);
    lemma_depth_any_limit(env, chain, l1);
    if chain.len() > 0 {
        let id = chain.last() as int;
        let rest = chain.drop_last();
        lemma_without_mods(e1, rest);
        lemma_mods_any_limit(env, rest, l1, l2);
        lemma_depth_any_limit(env, rest, l1);
        lemma_depth_any_limit(env, without_mods(e1, rest), l1);
        assert(rest == chain.take(chain.len() - 1));
        lemma_front_fits(rank, chain, chain.len() - 1, lvl, l1, l2);
        let outer = without_mods(e1, rest);
        lemma_front_fits(rank, rest, outer.len() as int, lvl, l1, l2);
        assert(fits(rank[chain[chain.len() - 1] as int], lvl, l1, l2));
        match env.node(id) {
            BtfType::Ptr(_) => {
                lemma_chain_any_limit(env, rank, ns, rest, fname, lvl, true, l1, l2);
            },
            BtfType::Volatile(_) | BtfType::Const(_) | BtfType::Restrict(_) => {
                lemma_chain_any_limit(env, rank, ns, rest, fname, lvl, false, l1, l2);
            },
            BtfType::Array(_) => {
                lemma_enclosed_any_limit(env, rank, ns, outer, fname, lvl, last_was_ptr, l1, l2);
            },
            BtfType::FuncProto(_) => {
                lemma_func_rest_any_limit(
                    env,
                    rank,
                    ns,
                    id,
                    rest,
                    fname,
                    lvl,
                    last_was_ptr,
                    l1,
                    l2,
                );
            },
            BtfType::Func(_) | BtfType::Var(_) | BtfType::Datasec(_) => {
                lemma_chain_any_limit(env, rank, ns, rest, fname, lvl, false, l1, l2);
            },
            _ => {
                lemma_base_any_limit(env, rank, ns, id, lvl, l1, l2);
                let ns1 = base_text(e1, ns, id, lvl).1;
                lemma_chain_any_limit(env, rank, ns1, outer, fname, lvl, false, l1, l2);
            },
        }
    }
}

/// The largest depth among the ids of a chain does not depend on the
/// limit.
pub proof fn lemma_depth_any_limit(env: Env, chain: Seq<u32>, l: nat)
    ensures
        chain_depth(at_limit(env, l), chain) == chain_depth(env, chain),
    decreases chain.len(),
{
    if chain.len() > 0 {
        lemma_depth_any_limit(env, chain.drop_last(), l);
    }
}

/// What stands in front of brackets or a parameter list is the same for
/// any two limits that the types of the chain stay below.
pub proof fn lemma_enclosed_any_limit(
    env: Env,
    rank: Seq<nat>,
    ns: Names,
    outer: Seq<u32>,
    fname: Seq<char>,
    lvl: nat,
    last_was_ptr: bool,
    l1: nat,
    l2: nat,
)
    requires
        env.linked(),
        nest_ranked(env, rank),
        chain_in_range(env, outer),
        chain_fits(rank, outer, lvl, l1, l2),
    ensures
        enclosed_text(at_limit(env, l1), ns, outer, fname, lvl, last_was_ptr) == enclosed_text(
            at_limit(env, l2),
            ns,
            outer,
            fname,
            lvl,
            last_was_ptr,
        ),
    decreases room(at_limit(env, l1), lvl), 0nat, chain_depth(env, outer), 1nat, 3 * outer.len() + 1,
{
    lemma_depth_any_limit(env, outer, l1);
    if outer.len() > 0 {
        lemma_chain_any_limit(env, rank, ns, outer, fname, lvl, true, l1, l2);
    }
}

/// The rest of a declarator from a function prototype on is the same for
/// any two limits that the types involved stay below.
pub proof fn lemma_func_rest_any_limit(
    env: Env,
    rank: Seq<nat>,
    ns: Names,
    id: int,
    rest: Seq<u32>,
    fname: Seq<char>,
    lvl: nat,
    last_was_ptr: bool,
    l1: nat,
    l2: nat,
)
    requires
        env.linked(),
        nest_ranked(env, rank),
        0 <= id < env.len(),
        chain_in_range(env, rest),
        chain_fits(rank, rest, lvl, l1, l2),
        fits(rank[id], lvl, l1, l2),
    ensures
        func_rest_text(at_limit(env, l1), ns, id, rest, fname, lvl, last_was_ptr) == func_rest_text(
            at_limit(env, l2),
            ns,
            id,
            rest,
            fname,
            lvl,
            last_was_ptr,
        ),
    decreases
            room(at_limit(env, l1), lvl),
            0nat,
            crate::decl::func_depth(env, id, rest),
            1nat,
            3 * rest.len() + 2,
{
    let e1 = at_limit(env, l1);
    lemma_without_mods(e1, rest);
    lemma_mods_any_limit(env, rest, l1, l2);
    lemma_depth_any_limit(env, rest, l1);
    let outer = without_mods(e1, rest);
    lemma_depth_any_limit(env, outer, l1);
    lemma_front_fits(rank, rest, outer.len() as int, lvl, l1, l2);
    lemma_enclosed_any_limit(env, rank, ns, outer, fname, lvl, last_was_ptr, l1, l2);
    let ns1 = enclosed_text(e1, ns, outer, fname, lvl, last_was_ptr).1;
    let n = match env.node(id) {
        BtfType::FuncProto(t) => t.params@.len(),
        _ => 0,
    };
    lemma_params_any_limit(env, rank, ns1, id, n, lvl, l1, l2);
}

/// The parameters of a function prototype are the same for any two limits
/// that the prototype stays below.
pub proof fn lemma_params_any_limit(
    env: Env,
    rank: Seq<nat>,
    ns: Names,
    id: int,
    n: nat,
    lvl: nat,
    l1: nat,
    l2: nat,
)
    requires
        env.linked(),
        nest_ranked(env, rank),
        0 <= id < env.len(),
        fits(rank[id], lvl, l1, l2),
    ensures
        params_text(at_limit(env, l1), ns, id, n, lvl) == params_text(
            at_limit(env, l2),
            ns,
            id,
            n,
            lvl,
        ),
    decreases room(at_limit(env, l1), lvl), 0nat, env.depth(id), 0nat, n,
{
    let e1 = at_limit(env, l1);
    assert(refs_below(env.btf@[id], env.len()));
    assert(refs_descend(env.btf@[id], env.btf.depths(), env.btf.depths()[id]));
    assert(nests_descend(env, rank, id));
    match env.node(id) {
        BtfType::FuncProto(t) => {
            let count = t.params@.len();
            if !(n == 0 || n > count || (count == 1 && t.params@[0].type_id == 0)) {
                lemma_params_any_limit(env, rank, ns, id, (n - 1) as nat, lvl, l1, l2);
                let ns1 = params_text(e1, ns, id, (n - 1) as nat, lvl).1;
                let p = t.params@[n - 1];
                if !(n == count && p.type_id == 0) {
                    law_decl_any_limit(env, rank, ns1, p.type_id as int, p.name@, lvl, l1, l2);
                }
            }
        },
        _ => {},
    }
}

/// The base type of a declaration is the same for any two limits that it
/// stays below.
pub proof fn lemma_base_any_limit(
    env: Env,
    rank: Seq<nat>,
    ns: Names,
    id: int,
    lvl: nat,
    l1: nat,
    l2: nat,
)
    requires
        env.linked(),
        nest_ranked(env, rank),
        0 <= id < env.len(),
        fits(rank[id], lvl, l1, l2),
    ensures
        base_text(at_limit(env, l1), ns, id, lvl) == base_text(at_limit(env, l2), ns, id, lvl),
    decreases room(at_limit(env, l1), lvl), 0nat, 0nat, 0nat, 2nat,
{
    match env.node(id) {
        BtfType::Struct(t) => {
            if t.name@.len() == 0 {
                law_struct_def_any_limit(env, rank, ns, id, lvl, l1, l2);
            }
        },
        BtfType::Union(t) => {
            if t.name@.len() == 0 {
                law_union_def_any_limit(env, rank, ns, id, lvl, l1, l2);
            }
        },
        BtfType::Enum(t) => {
            if t.name@.len() == 0 {
                lemma_enum_def_any_limit(env, ns, id, lvl, l1, l2);
            }
        },
        _ => {},
    }
}

/// Where no struct or union holds itself, the limit on nesting does not
/// show in the definition of a struct: it is the same for any two limits
/// that the struct at its nesting level stays below. The number of types
/// is such a limit for every definition at the top level.
pub proof fn law_struct_def_any_limit(
    env: Env,
    rank: Seq<nat>,
    ns: Names,
    id: int,
    lvl: nat,
    l1: nat,
    l2: nat,
)
    requires
        env.linked(),
        nest_ranked(env, rank),
        0 <= id < env.len(),
        fits(rank[id], lvl, l1, l2),
    ensures
        struct_def_text(at_limit(env, l1), ns, id, lvl) == struct_def_text(
            at_limit(env, l2),
            ns,
            id,
            lvl,
        ),
    decreases room(at_limit(env, l1), lvl), 0nat, 0nat, 0nat, 1nat,
{
    match env.node(id) {
        BtfType::Struct(t) => {
            if !env.skip[id] {
                let packed = crate::layout::is_packed(&env.btf, id, t.sz, t.members@);
                let ns1 = resolve_name(env.btf@, ns, id).1;
                lemma_struct_members_any_limit(
                    env,
                    rank,
                    ns1,
                    id,
                    t.members@.len(),
                    packed,
                    lvl,
                    l1,
                    l2,
                );
            }
        },
        _ => {},
    }
}

/// The lines of the members of a struct are the same for any two limits
/// that the struct stays below.
pub proof fn lemma_struct_members_any_limit(
    env: Env,
    rank: Seq<nat>,
    ns: Names,
    id: int,
    n: nat,
    packed: bool,
    lvl: nat,
    l1: nat,
    l2: nat,
)
    requires
        env.linked(),
        nest_ranked(env, rank),
        0 <= id < env.len(),
        fits(rank[id], lvl, l1, l2),
    ensures
        struct_members_text(at_limit(env, l1), ns, id, n, packed, lvl) == struct_members_text(
            at_limit(env, l2),
            ns,
            id,
            n,
            packed,
            lvl,
        ),
    decreases room(at_limit(env, l1), lvl + 1), 1nat, 0nat, 1nat, n,
{
    let e1 = at_limit(env, l1);
    if n > 0 {
        lemma_struct_members_any_limit(env, rank, ns, id, (n - 1) as nat, packed, lvl, l1, l2);
        let ns1 = struct_members_text(e1, ns, id, (n - 1) as nat, packed, lvl).1;
        lemma_struct_member_any_limit(env, rank, ns1, id, n - 1, packed, lvl, l1, l2);
    }
}

/// The line of a member of a struct is the same for any two limits that
/// the struct stays below.
pub proof fn lemma_struct_member_any_limit(
    env: Env,
    rank: Seq<nat>,
    ns: Names,
    id: int,
    k: int,
    packed: bool,
    lvl: nat,
    l1: nat,
    l2: nat,
)
    requires
        env.linked(),
        nest_ranked(env, rank),
        0 <= id < env.len(),
        fits(rank[id], lvl, l1, l2),
    ensures
        struct_member_text(at_limit(env, l1), ns, id, k, packed, lvl) == struct_member_text(
            at_limit(env, l2),
            ns,
            id,
            k,
            packed,
            lvl,
        ),
    decreases room(at_limit(env, l1), lvl + 1), 1nat, 0nat, 0nat, 0nat,
{
    assert(refs_below(env.btf@[id], env.len()));
    assert(nests_descend(env, rank, id));
    match env.node(id) {
        BtfType::Struct(t) => {
            if 0 <= k < t.members@.len() {
                let m = t.members@[k];
                assert(rank[m.type_id as int] < rank[id]);
                law_decl_any_limit(env, rank, ns, m.type_id as int, m.name@, lvl + 1, l1, l2);
            }
        },
        _ => {},
    }
}

/// Where no struct or union holds itself, the limit on nesting does not
/// show in the definition of a union.
pub proof fn law_union_def_any_limit(
    env: Env,
    rank: Seq<nat>,
    ns: Names,
    id: int,
    lvl: nat,
    l1: nat,
    l2: nat,
)
    requires
        env.linked(),
        nest_ranked(env, rank),
        0 <= id < env.len(),
        fits(rank[id], lvl, l1, l2),
    ensures
        union_def_text(at_limit(env, l1), ns, id, lvl) == union_def_text(
            at_limit(env, l2),
            ns,
            id,
            lvl,
        ),
    decreases room(at_limit(env, l1), lvl), 0nat, 0nat, 0nat, 1nat,
{
    match env.node(id) {
        BtfType::Union(t) => {
            if !env.skip[id] {
                let ns1 = resolve_name(env.btf@, ns, id).1;
                lemma_union_members_any_limit(env, rank, ns1, id, t.members@.len(), lvl, l1, l2);
            }
        },
        _ => {},
    }
}

/// The lines of the members of a union are the same for any two limits
/// that the union stays below.
pub proof fn lemma_union_members_any_limit(
    env: Env,
    rank: Seq<nat>,
    ns: Names,
    id: int,
    n: nat,
    lvl: nat,
    l1: nat,
    l2: nat,
)
    requires
        env.linked(),
        nest_ranked(env, rank),
        0 <= id < env.len(),
        fits(rank[id], lvl, l1, l2),
    ensures
        union_members_text(at_limit(env, l1), ns, id, n, lvl) == union_members_text(
            at_limit(env, l2),
            ns,
            id,
            n,
            lvl,
        ),
    decreases room(at_limit(env, l1), lvl + 1), 1nat, 0nat, 1nat, n,
{
    let e1 = at_limit(env, l1);
    if n > 0 {
        lemma_union_members_any_limit(env, rank, ns, id, (n - 1) as nat, lvl, l1, l2);
        let ns1 = union_members_text(e1, ns, id, (n - 1) as nat, lvl).1;
        lemma_union_member_any_limit(env, rank, ns1, id, n - 1, lvl, l1, l2);
    }
}

/// The line of a member of a union is the same for any two limits that
/// the union stays below.
pub proof fn lemma_union_member_any_limit(
    env: Env,
    rank: Seq<nat>,
    ns: Names,
    id: int,
    k: int,
    lvl: nat,
    l1: nat,
    l2: nat,
)
    requires
        env.linked(),
        nest_ranked(env, rank),
        0 <= id < env.len(),
        fits(rank[id], lvl, l1, l2),
    ensures
        union_member_text(at_limit(env, l1), ns, id, k, lvl) == union_member_text(
            at_limit(env, l2),
            ns,
            id,
            k,
            lvl,
        ),
    decreases room(at_limit(env, l1), lvl + 1), 1nat, 0nat, 0nat, 0nat,
{
    assert(refs_below(env.btf@[id], env.len()));
    assert(nests_descend(env, rank, id));
    match env.node(id) {
        BtfType::Union(t) => {
            if 0 <= k < t.members@.len() {
                let m = t.members@[k];
                assert(rank[m.type_id as int] < rank[id]);
                law_decl_any_limit(env, rank, ns, m.type_id as int, m.name@, lvl + 1, l1, l2);
            }
        },
        _ => {},
    }
}

/// Where no struct or union holds itself, the limit on nesting does not
/// show in the definition of a typedef.
pub proof fn law_typedef_def_any_limit(
    env: Env,
    rank: Seq<nat>,
    ns: Names,
    id: int,
    lvl: nat,
    l1: nat,
    l2: nat,
)
    requires
        env.linked(),
        nest_ranked(env, rank),
        0 <= id < env.len(),
        env.node(id) matches BtfType::Typedef(t) ==> fits(rank[t.type_id as int], lvl, l1, l2),
    ensures
        typedef_def_text(at_limit(env, l1), ns, id, lvl) == typedef_def_text(
            at_limit(env, l2),
            ns,
            id,
            lvl,
        ),
{
    assert(refs_below(env.btf@[id], env.len()));
    match env.node(id) {
        BtfType::Typedef(t) => {
            if !env.skip[id] {
                let (name, ns1) = resolve_name(env.btf@, ns, id);
                law_decl_any_limit(env, rank, ns1, t.type_id as int, name, lvl, l1, l2);
            }
        },
        _ => {},
    }
}

} // verus!
