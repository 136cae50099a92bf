//! What holds of the declarations that a dump writes: every forward
//! declaration is that of a named struct or union, and whatever a
//! definition mentions has been declared before it.
use vstd::prelude::*;
use crate::btf::leads_to;
use crate::btf::refs_below;
use crate::btf::refs_descend;
use crate::decl::Env;
use crate::order::is_named_composite;
use crate::order::is_named_definition;
use crate::order::members_of;
use crate::order::params_of;
use crate::order_laws::visiting_floor;
use crate::order_laws::walk_descends;
use crate::order_laws::walk_rank;
use crate::order_laws::walk_ranked;
use crate::order_laws::WalkRanks;
use crate::pass::composite_fwd;
use crate::pass::def_spec;
use crate::pass::defined;
use crate::pass::fwds_members_spec;
use crate::pass::fwds_params_spec;
use crate::pass::fwds_spec;
use crate::pass::lemma_unemitted_after_mark;
use crate::pass::lemma_unemitted_settled;
use crate::pass::settled;
use crate::pass::typedef_fwd;
use crate::pass::unemitted;
use crate::pass::with_emit;
use crate::pass::written;
use crate::pass::Decl;
use crate::pass::DumpSt;
use crate::pass::EmitState;
use crate::types::BtfType;

verus! {

/// Whether a node is a struct or union.
pub open spec fn is_composite(t: BtfType) -> bool {
    t is Struct || t is Union
}

/// Whether emission ever marks a node: structs, unions, enums, forward
/// declarations and typedefs.
pub open spec fn is_emitted_kind(t: BtfType) -> bool {
    t is Struct || t is Union || t is Enum || t is Fwd || t is Typedef
}

/// Whether the declaration of something of type `x` spells out `y`: what a
/// pointer points to, a qualifier qualifies, an array holds, a function
/// returns or takes, and the types of the members of an anonymous struct
/// or union, which is written where it is used. A named struct or union, a
/// typedef and an enum are written as their name alone.
pub open spec fn mention_step(env: Env, x: int, y: int) -> bool {
    match env.node(x) {
        BtfType::Struct(_) | BtfType::Union(_) => !is_named_composite(env.node(x)) && exists|k: int|
            0 <= k < members_of(env.node(x)).len() && y == (#[trigger] members_of(
                env.node(x),
            )[k]).type_id,
        BtfType::Typedef(_) => false,
        t => leads_to(t, y),
    }
}

/// A path along which each type spells out the next.
pub open spec fn mention_path(env: Env, p: Seq<int>) -> bool {
    &&& p.len() >= 1
    &&& forall|i: int| 0 <= i < p.len() - 1 ==> #[trigger] mention_step(env, p[i], p[i + 1])
}

/// Whether the definition of the struct or union `a` mentions the named
/// struct or union `b`: the declaration of one of its members spells out
/// `b`, directly or through pointers, qualifiers, arrays, functions and
/// anonymous structs and unions.
pub open spec fn mentions(env: Env, a: int, b: int) -> bool {
    &&& is_composite(env.node(a))
    &&& 0 <= b < env.len()
    &&& is_named_composite(env.node(b))
    &&& exists|k: int, p: Seq<int>|
        0 <= k < members_of(env.node(a)).len() && #[trigger] mention_path(env, p) && p[0] == (
        #[trigger] members_of(env.node(a))[k]).type_id && p.last() == b
}

/// Whether `b` needs no forward declaration where the forward pass of
/// `cont` is under way: it has one, it has been defined, or it is `cont`
/// itself.
pub open spec fn declared_in(st: DumpSt, b: int, cont: int) -> bool {
    st.fwd[b] || st.emit[b] == EmitState::Emitted || b == cont
}

/// Whether every named struct or union that the declaration of something
/// of type `x` spells out needs no forward declaration.
pub open spec fn covers(env: Env, st: DumpSt, x: int, cont: int) -> bool {
    forall|p: Seq<int>|
        #[trigger] mention_path(env, p) && p[0] == x && 0 <= p.last() < env.len()
            && is_named_composite(env.node(p.last())) ==> declared_in(st, p.last(), cont)
}

/// Whether `b` has been declared before position `p` of the log: forward,
/// or by its definition.
pub open spec fn declared_before(log: Seq<Decl>, b: int, p: int) -> bool {
    exists|q: int|
        0 <= q < p && q < log.len() && (#[trigger] log[q] == Decl::Forward(b as u32) || log[q]
            == Decl::Definition(b as u32))
}

/// Whether the forward declaration of `b` is in the log.
pub open spec fn has_forward(log: Seq<Decl>, b: int) -> bool {
    exists|q: int| 0 <= q < log.len() && #[trigger] log[q] == Decl::Forward(b as u32)
}

/// Whether the definition of `b` is in the log.
pub open spec fn has_definition(log: Seq<Decl>, b: int) -> bool {
    exists|q: int| 0 <= q < log.len() && #[trigger] log[q] == Decl::Definition(b as u32)
}

/// Every forward declaration in the log is that of a struct or union with
/// a name.
pub open spec fn forwards_are_named(env: Env, log: Seq<Decl>) -> bool {
    forall|i: int|
        0 <= i < log.len() && (#[trigger] log[i]) is Forward ==> log[i]->Forward_0 < env.len()
            && is_named_composite(env.node(log[i]->Forward_0 as int))
}

/// What holds of the state of emission at all times: only definitions are
/// marked; a struct or union that has been defined or forward-declared has
/// a name; what has been forward-declared or defined is in the log, unless
/// it is left out; whatever a definition in the log mentions has been
/// declared before it, unless it is left out; and no definition is in the
/// log twice.
pub open spec fn emit_inv(env: Env, st: DumpSt) -> bool {
    &&& st.emit.len() == env.len()
    &&& st.fwd.len() == env.len()
    &&& env.skip.len() == env.len()
    &&& forall|x: int|
        0 <= x < env.len() && #[trigger] st.emit[x] != EmitState::NotEmitted ==> is_emitted_kind(
            env.node(x),
        )
    &&& forall|x: int|
        0 <= x < env.len() && #[trigger] st.emit[x] == EmitState::Emitted && is_composite(
            env.node(x),
        ) ==> is_named_composite(env.node(x))
    &&& forall|x: int|
        0 <= x < env.len() && #[trigger] st.fwd[x] && is_composite(env.node(x))
            ==> is_named_composite(env.node(x))
    &&& forall|b: int|
        0 <= b < env.len() && #[trigger] st.fwd[b] && is_composite(env.node(b)) && !env.skip[b]
            ==> has_forward(st.log, b)
    &&& forall|b: int|
        0 <= b < env.len() && #[trigger] st.emit[b] == EmitState::Emitted && is_named_definition(
            env.node(b),
        ) && !env.skip[b] ==> has_definition(st.log, b)
    &&& forall|b: int|
        0 <= b < env.len() && #[trigger] st.fwd[b] && env.node(b) is Typedef && !env.skip[b]
            ==> has_definition(st.log, b)
    &&& forall|p: int, b: int|
        0 <= p < st.log.len() && (#[trigger] st.log[p]) is Definition && #[trigger] mentions(
            env,
            st.log[p]->Definition_0 as int,
            b,
        ) && b != st.log[p]->Definition_0 && !env.skip[b] ==> declared_before(st.log, b, p)
    &&& forall|q: int|
        0 <= q < st.log.len() && (#[trigger] st.log[q]) is Definition ==> is_defined(
            env,
            st,
            st.log[q]->Definition_0 as int,
        )
    &&& forall|q: int, r: int|
        0 <= q < r < st.log.len() && (#[trigger] st.log[q]) is Definition ==> st.log[q]
            != #[trigger] st.log[r]
}

/// Whether the definition of `x` counts as written: `x` is marked so, or it
/// is a typedef whose definition has served as a forward declaration.
pub open spec fn is_defined(env: Env, st: DumpSt, x: int) -> bool {
    0 <= x < st.emit.len() && x < st.fwd.len() && (st.emit[x] == EmitState::Emitted || (env.node(
        x,
    ) is Typedef && st.fwd[x]))
}

/// How a forward pass changes the state: it only adds to the log, and
/// there no definition of a struct or union; what was forward-declared or
/// defined stays so; no struct or union becomes defined; a struct or union
/// that becomes forward-declared has a name and its forward declaration in
/// the log, unless it is left out; what was under way still is; only
/// definitions become marked; and a definition is added to the log only of
/// what had none, and only once.
pub open spec fn fwds_kept(env: Env, before: DumpSt, after: DumpSt) -> bool {
    &&& after.emit.len() == before.emit.len()
    &&& after.fwd.len() == before.fwd.len()
    &&& before.log.len() <= after.log.len()
    &&& forall|i: int| 0 <= i < before.log.len() ==> #[trigger] after.log[i] == before.log[i]
    &&& forall|i: int|
        before.log.len() <= i < after.log.len() && (#[trigger] after.log[i]) is Definition
            ==> !is_composite(env.node(after.log[i]->Definition_0 as int))
    &&& forall|i: int|
        before.log.len() <= i < after.log.len() && (#[trigger] after.log[i]) is Forward
            ==> after.log[i]->Forward_0 < env.len() && is_named_composite(
            env.node(after.log[i]->Forward_0 as int),
        )
    &&& forall|b: int| 0 <= b < before.fwd.len() && before.fwd[b] ==> #[trigger] after.fwd[b]
    &&& forall|b: int|
        0 <= b < before.emit.len() && before.emit[b] == EmitState::Emitted
            ==> #[trigger] after.emit[b] == EmitState::Emitted
    &&& forall|b: int|
        0 <= b < before.emit.len() && before.emit[b] == EmitState::Emitting
            ==> #[trigger] after.emit[b] == EmitState::Emitting
    &&& forall|b: int|
        0 <= b < before.emit.len() && #[trigger] after.emit[b] == EmitState::Emitted
            && is_composite(env.node(b)) ==> before.emit[b] == EmitState::Emitted
    &&& forall|b: int|
        0 <= b < before.emit.len() && #[trigger] after.emit[b] != EmitState::NotEmitted
            ==> before.emit[b] != EmitState::NotEmitted || is_emitted_kind(env.node(b))
    &&& forall|b: int|
        0 <= b < before.fwd.len() && #[trigger] after.fwd[b] && !before.fwd[b] && is_composite(
            env.node(b),
        ) ==> is_named_composite(env.node(b)) && (env.skip[b] || has_forward(after.log, b))
    &&& forall|i: int|
        before.log.len() <= i < after.log.len() && (#[trigger] after.log[i]) is Definition
            ==> !is_defined(env, before, after.log[i]->Definition_0 as int) && is_defined(
            env,
            after,
            after.log[i]->Definition_0 as int,
        )
    &&& forall|i: int, j: int|
        before.log.len() <= i < j < after.log.len() && (#[trigger] after.log[i]) is Definition
            ==> after.log[i] != #[trigger] after.log[j]
    &&& forall|x: int|
        0 <= x < before.emit.len() && #[trigger] after.emit[x] == EmitState::Emitted
            && before.emit[x] != EmitState::Emitted && is_named_definition(env.node(x))
            && !env.skip[x] ==> has_definition(after.log, x) || (env.node(x) is Typedef
            && before.fwd[x])
    &&& forall|x: int|
        0 <= x < before.fwd.len() && #[trigger] after.fwd[x] && !before.fwd[x] && env.node(
            x,
        ) is Typedef && !env.skip[x] ==> has_definition(after.log, x)
}

/// A forward pass keeps the invariant.
pub proof fn lemma_fwds_kept_inv(env: Env, before: DumpSt, after: DumpSt)
    requires
        emit_inv(env, before),
        fwds_kept(env, before, after),
    ensures
        emit_inv(env, after),
{
    assert forall|b: int|
        0 <= b < env.len() && #[trigger] after.fwd[b] && is_composite(env.node(b))
            && !env.skip[b] implies has_forward(after.log, b) by {
        if before.fwd[b] {
            let q = choose|q: int|
                0 <= q < before.log.len() && #[trigger] before.log[q] == Decl::Forward(b as u32);
            assert(after.log[q] == Decl::Forward(b as u32));
        }
    }
    assert forall|b: int|
        0 <= b < env.len() && #[trigger] after.emit[b] == EmitState::Emitted && is_named_definition(
            env.node(b),
        ) && !env.skip[b] implies has_definition(after.log, b) by {
        if before.emit[b] == EmitState::Emitted || (env.node(b) is Typedef && before.fwd[b]) {
            let q = choose|q: int|
                0 <= q < before.log.len() && #[trigger] before.log[q] == Decl::Definition(b as u32);
            assert(after.log[q] == Decl::Definition(b as u32));
        }
    }
    assert forall|b: int|
        0 <= b < env.len() && #[trigger] after.fwd[b] && env.node(b) is Typedef
            && !env.skip[b] implies has_definition(after.log, b) by {
        if before.fwd[b] {
            let q = choose|q: int|
                0 <= q < before.log.len() && #[trigger] before.log[q] == Decl::Definition(b as u32);
            assert(after.log[q] == Decl::Definition(b as u32));
        }
    }
    assert forall|q: int|
        0 <= q < after.log.len() && (#[trigger] after.log[q]) is Definition implies is_defined(
        env,
        after,
        after.log[q]->Definition_0 as int,
    ) by {
        if q < before.log.len() {
            assert(after.log[q] == before.log[q]);
            assert(is_defined(env, before, before.log[q]->Definition_0 as int));
        }
    }
    assert forall|q: int, r: int|
        0 <= q < r < after.log.len() && (#[trigger] after.log[q]) is Definition implies after.log[q]
        != #[trigger] after.log[r] by {
        if r < before.log.len() {
            assert(after.log[q] == before.log[q]);
            assert(after.log[r] == before.log[r]);
        } else if q < before.log.len() {
            assert(after.log[q] == before.log[q]);
            assert(is_defined(env, before, before.log[q]->Definition_0 as int));
        }
    }
    assert forall|p: int, b: int|
        0 <= p < after.log.len() && (#[trigger] after.log[p]) is Definition && #[trigger] mentions(
            env,
            after.log[p]->Definition_0 as int,
            b,
        ) && b != after.log[p]->Definition_0 && !env.skip[b] implies declared_before(
        after.log,
        b,
        p,
    ) by {
        if p < before.log.len() {
            assert(after.log[p] == before.log[p]);
            assert(declared_before(before.log, b, p));
            let q = choose|q: int|
                0 <= q < p && q < before.log.len() && (#[trigger] before.log[q] == Decl::Forward(
                    b as u32,
                ) || before.log[q] == Decl::Definition(b as u32));
            assert(after.log[q] == before.log[q]);
        }
    }
    assert forall|x: int|
        0 <= x < env.len() && #[trigger] after.emit[x] == EmitState::Emitted && is_composite(
            env.node(x),
        ) implies is_named_composite(env.node(x)) by {
        assert(before.emit[x] == EmitState::Emitted);
    }
    assert forall|x: int|
        0 <= x < env.len() && #[trigger] after.fwd[x] && is_composite(
            env.node(x),
        ) implies is_named_composite(env.node(x)) by {
        if before.fwd[x] {
        }
    }
}

/// The changes of two forward passes in a row are those of one.
pub proof fn lemma_fwds_kept_trans(env: Env, a: DumpSt, b: DumpSt, c: DumpSt)
    requires
        fwds_kept(env, a, b),
        fwds_kept(env, b, c),
        a.emit.len() == a.fwd.len(),
    ensures
        fwds_kept(env, a, c),
{
    assert forall|i: int| 0 <= i < a.log.len() implies #[trigger] c.log[i] == a.log[i] by {
        assert(b.log[i] == a.log[i]);
    }
    assert forall|i: int|
        a.log.len() <= i < c.log.len() && (#[trigger] c.log[i]) is Definition implies !is_composite(
        env.node(c.log[i]->Definition_0 as int),
    ) by {
        if i < b.log.len() {
            assert(c.log[i] == b.log[i]);
        }
    }
    assert forall|i: int|
        a.log.len() <= i < c.log.len() && (#[trigger] c.log[i]) is Forward implies c.log[i]->Forward_0
        < env.len() && is_named_composite(env.node(c.log[i]->Forward_0 as int)) by {
        if i < b.log.len() {
            assert(c.log[i] == b.log[i]);
        }
    }
    assert forall|x: int| 0 <= x < a.fwd.len() && a.fwd[x] implies #[trigger] c.fwd[x] by {
        assert(b.fwd[x]);
    }
    assert forall|x: int|
        0 <= x < a.emit.len() && a.emit[x] == EmitState::Emitted implies #[trigger] c.emit[x]
        == EmitState::Emitted by {
        assert(b.emit[x] == EmitState::Emitted);
    }
    assert forall|x: int|
        0 <= x < a.emit.len() && a.emit[x] == EmitState::Emitting implies #[trigger] c.emit[x]
        == EmitState::Emitting by {
        assert(b.emit[x] == EmitState::Emitting);
    }
    assert forall|x: int|
        0 <= x < a.emit.len() && #[trigger] c.emit[x] == EmitState::Emitted && is_composite(
            env.node(x),
        ) implies a.emit[x] == EmitState::Emitted by {
        assert(b.emit[x] == EmitState::Emitted);
    }
    assert forall|x: int|
        0 <= x < a.emit.len() && #[trigger] c.emit[x] != EmitState::NotEmitted implies a.emit[x]
        != EmitState::NotEmitted || is_emitted_kind(env.node(x)) by {
        if b.emit[x] != EmitState::NotEmitted {
        }
    }
    assert forall|x: int|
        0 <= x < a.fwd.len() && #[trigger] c.fwd[x] && !a.fwd[x] && is_composite(
            env.node(x),
        ) implies is_named_composite(env.node(x)) && (env.skip[x] || has_forward(c.log, x)) by {
        if b.fwd[x] {
            if !env.skip[x] {
                let q = choose|q: int|
                    0 <= q < b.log.len() && #[trigger] b.log[q] == Decl::Forward(x as u32);
                assert(c.log[q] == Decl::Forward(x as u32));
            }
        }
    }
    assert forall|i: int|
        a.log.len() <= i < c.log.len() && (#[trigger] c.log[i]) is Definition implies !is_defined(
        env,
        a,
        c.log[i]->Definition_0 as int,
    ) && is_defined(env, c, c.log[i]->Definition_0 as int) by {
        let x = c.log[i]->Definition_0 as int;
        if i < b.log.len() {
            assert(c.log[i] == b.log[i]);
            assert(is_defined(env, b, x));
        } else {
            assert(!is_defined(env, b, x));
        }
    }
    assert forall|i: int, j: int|
        a.log.len() <= i < j < c.log.len() && (#[trigger] c.log[i]) is Definition implies c.log[i]
        != #[trigger] c.log[j] by {
        if j < b.log.len() {
            assert(c.log[i] == b.log[i]);
            assert(c.log[j] == b.log[j]);
        } else if i < b.log.len() {
            assert(c.log[i] == b.log[i]);
            assert(is_defined(env, b, b.log[i]->Definition_0 as int));
        }
    }
    assert forall|x: int|
        0 <= x < a.emit.len() && #[trigger] c.emit[x] == EmitState::Emitted && a.emit[x]
            != EmitState::Emitted && is_named_definition(env.node(x))
            && !env.skip[x] implies has_definition(c.log, x) || (env.node(x) is Typedef
        && a.fwd[x]) by {
        if b.emit[x] == EmitState::Emitted {
            if !(env.node(x) is Typedef && a.fwd[x]) {
                let q = choose|q: int|
                    0 <= q < b.log.len() && #[trigger] b.log[q] == Decl::Definition(x as u32);
                assert(c.log[q] == Decl::Definition(x as u32));
            }
        } else {
            if !has_definition(c.log, x) {
                assert(env.node(x) is Typedef && b.fwd[x]);
                if !a.fwd[x] {
                    assert(has_definition(b.log, x));
                    let q = choose|q: int|
                        0 <= q < b.log.len() && #[trigger] b.log[q] == Decl::Definition(x as u32);
                    assert(c.log[q] == Decl::Definition(x as u32));
                }
            }
        }
    }
    assert forall|x: int|
        0 <= x < a.fwd.len() && #[trigger] c.fwd[x] && !a.fwd[x] && env.node(x) is Typedef
            && !env.skip[x] implies has_definition(c.log, x) by {
        if b.fwd[x] {
            let q = choose|q: int|
                0 <= q < b.log.len() && #[trigger] b.log[q] == Decl::Definition(x as u32);
            assert(c.log[q] == Decl::Definition(x as u32));
        }
    }
}

/// What was forward-declared or defined still is.
pub open spec fn declared_kept(env: Env, before: DumpSt, after: DumpSt) -> bool {
    &&& forall|b: int| 0 <= b < env.len() && before.fwd[b] ==> #[trigger] after.fwd[b]
    &&& forall|b: int|
        0 <= b < env.len() && before.emit[b] == EmitState::Emitted ==> #[trigger] after.emit[b]
            == EmitState::Emitted
}

/// What is covered stays covered.
pub proof fn lemma_covers_kept(env: Env, before: DumpSt, after: DumpSt, x: int, cont: int)
    requires
        covers(env, before, x, cont),
        declared_kept(env, before, after),
    ensures
        covers(env, after, x, cont),
{
    assert forall|p: Seq<int>|
        #[trigger] mention_path(env, p) && p[0] == x && 0 <= p.last() < env.len()
            && is_named_composite(env.node(p.last())) implies declared_in(
        after,
        p.last(),
        cont,
    ) by {
        assert(declared_in(before, p.last(), cont));
    }
}

/// A type is covered if what it spells out is, and it needs no forward
/// declaration itself if it is a named struct or union.
pub proof fn lemma_covers_step(env: Env, st: DumpSt, x: int, cont: int)
    requires
        0 <= x < env.len(),
        forall|y: int| #[trigger] mention_step(env, x, y) ==> covers(env, st, y, cont),
        is_named_composite(env.node(x)) ==> declared_in(st, x, cont),
    ensures
        covers(env, st, x, cont),
{
    assert forall|p: Seq<int>|
        #[trigger] mention_path(env, p) && p[0] == x && 0 <= p.last() < env.len()
            && is_named_composite(env.node(p.last())) implies declared_in(st, p.last(), cont) by {
        if p.len() == 1 {
            assert(p.last() == x);
        } else {
            let q = p.skip(1);
            assert(mention_step(env, p[0int], p[0int + 1]));
            assert forall|i: int| 0 <= i < q.len() - 1 implies #[trigger] mention_step(
                env,
                q[i],
                q[i + 1],
            ) by {
                assert(mention_step(env, p[i + 1], p[(i + 1) + 1]));
            }
            assert(mention_path(env, q));
            assert(q.last() == p.last());
            assert(covers(env, st, p[1], cont));
        }
    }
}

/// Where a type is untouched, at least one is.
pub proof fn lemma_unemitted_positive(emit: Seq<EmitState>, id: int)
    requires
        0 <= id < emit.len(),
        emit[id] == EmitState::NotEmitted,
    ensures
        unemitted(emit) >= 1,
    decreases emit.len(),
{
    if id < emit.len() - 1 {
        lemma_unemitted_positive(emit.drop_last(), id);
    }
}

/// The forward declaration of a named struct or union changes the state as
/// a forward pass may.
pub proof fn lemma_kept_composite_fwd(env: Env, st: DumpSt, id: int)
    requires
        st.emit.len() == env.len(),
        st.fwd.len() == env.len(),
        0 <= id < env.len(),
        env.len() <= u32::MAX,
        is_named_composite(env.node(id)),
    ensures
        fwds_kept(env, st, composite_fwd(env, st, id)),
        composite_fwd(env, st, id).fwd[id],
        composite_fwd(env, st, id).emit == st.emit,
{
    let after = composite_fwd(env, st, id);
    if !env.skip[id] {
        assert(after.log == st.log.push(Decl::Forward(id as u32)));
        assert(after.log[st.log.len() as int] == Decl::Forward(id as u32));
    }
}

/// Writing the definition of a typedef where a forward declaration is
/// needed changes the state as a forward pass may.
pub proof fn lemma_kept_typedef_fwd(env: Env, st: DumpSt, id: int)
    requires
        st.emit.len() == env.len(),
        st.fwd.len() == env.len(),
        0 <= id < env.len(),
        env.len() <= u32::MAX,
        env.node(id) is Typedef,
        st.emit[id] != EmitState::Emitted,
        !st.fwd[id],
    ensures
        fwds_kept(env, st, typedef_fwd(env, st, id)),
        typedef_fwd(env, st, id).emit == st.emit,
        typedef_fwd(env, st, id).fwd[id],
{
    let after = typedef_fwd(env, st, id);
    if !env.skip[id] {
        assert(after.log == st.log.push(Decl::Definition(id as u32)));
        assert(after.log[st.log.len() as int] == Decl::Definition(id as u32));
    }
}

/// Entering a struct, union or typedef, a forward pass inside it, and
/// leaving it again change the state as a forward pass may.
pub proof fn lemma_kept_around(env: Env, st: DumpSt, id: int, inner: DumpSt, s: EmitState)
    requires
        st.emit.len() == env.len(),
        st.fwd.len() == env.len(),
        0 <= id < env.len(),
        st.emit[id] == EmitState::NotEmitted,
        is_emitted_kind(env.node(id)),
        fwds_kept(env, with_emit(st, id, EmitState::Emitting), inner),
        settled(with_emit(st, id, EmitState::Emitting).emit, inner.emit),
        s == EmitState::NotEmitted || (s == EmitState::Emitted && env.node(id) is Typedef
            && inner.fwd[id]),
    ensures
        fwds_kept(env, st, with_emit(inner, id, s)),
        settled(st.emit, with_emit(inner, id, s).emit),
        declared_kept(env, inner, with_emit(inner, id, s)),
{
    let st1 = with_emit(st, id, EmitState::Emitting);
    let after = with_emit(inner, id, s);
    assert(inner.emit[id] == EmitState::Emitting);
    assert forall|b: int|
        0 <= b < st.emit.len() && st.emit[b] == EmitState::Emitted implies #[trigger] after.emit[b]
        == EmitState::Emitted by {
        assert(st1.emit[b] == EmitState::Emitted);
        assert(inner.emit[b] == EmitState::Emitted);
    }
    assert forall|b: int|
        0 <= b < st.emit.len() && st.emit[b] == EmitState::Emitting implies #[trigger] after.emit[b]
        == EmitState::Emitting by {
        assert(st1.emit[b] == EmitState::Emitting);
        assert(inner.emit[b] == EmitState::Emitting);
    }
    assert forall|b: int|
        0 <= b < st.emit.len() && #[trigger] after.emit[b] == EmitState::Emitted && is_composite(
            env.node(b),
        ) implies st.emit[b] == EmitState::Emitted by {
        assert(b != id);
        assert(inner.emit[b] == EmitState::Emitted);
        assert(st1.emit[b] == EmitState::Emitted);
    }
    assert forall|b: int|
        0 <= b < st.emit.len() && #[trigger] after.emit[b] != EmitState::NotEmitted implies st.emit[b]
        != EmitState::NotEmitted || is_emitted_kind(env.node(b)) by {
        if b != id {
            assert(inner.emit[b] != EmitState::NotEmitted);
            if st1.emit[b] != EmitState::NotEmitted {
            }
        }
    }
    assert forall|b: int|
        0 <= b < st.fwd.len() && #[trigger] after.fwd[b] && !st.fwd[b] && is_composite(
            env.node(b),
        ) implies is_named_composite(env.node(b)) && (env.skip[b] || has_forward(after.log, b)) by {
        assert(inner.fwd[b] && !st1.fwd[b]);
    }
    assert forall|j: int|
        0 <= j < st.emit.len() && st.emit[j] != EmitState::NotEmitted implies #[trigger] after.emit[j]
        != EmitState::NotEmitted by {
        assert(j != id);
        assert(st1.emit[j] != EmitState::NotEmitted);
        assert(inner.emit[j] != EmitState::NotEmitted);
    }
    assert forall|b: int|
        0 <= b < env.len() && inner.emit[b] == EmitState::Emitted implies #[trigger] after.emit[b]
        == EmitState::Emitted by {
        assert(b != id);
    }
    assert forall|i: int|
        st.log.len() <= i < after.log.len() && (#[trigger] after.log[i]) is Definition implies !is_defined(
        env,
        st,
        after.log[i]->Definition_0 as int,
    ) && is_defined(env, after, after.log[i]->Definition_0 as int) by {
        let x = after.log[i]->Definition_0 as int;
        assert(inner.log[i] is Definition);
        assert(!is_defined(env, st1, x) && is_defined(env, inner, x));
    }
    assert forall|x: int|
        0 <= x < st.emit.len() && #[trigger] after.emit[x] == EmitState::Emitted && st.emit[x]
            != EmitState::Emitted && is_named_definition(env.node(x))
            && !env.skip[x] implies has_definition(after.log, x) || (env.node(x) is Typedef
        && st.fwd[x]) by {
        if x == id {
            if !st.fwd[id] {
                assert(inner.fwd[id] && !st1.fwd[id]);
            }
        } else {
            assert(inner.emit[x] == EmitState::Emitted);
            assert(st1.emit[x] != EmitState::Emitted);
        }
    }
    assert forall|x: int|
        0 <= x < st.fwd.len() && #[trigger] after.fwd[x] && !st.fwd[x] && env.node(x) is Typedef
            && !env.skip[x] implies has_definition(after.log, x) by {
        assert(inner.fwd[x] && !st1.fwd[x]);
    }
}

/// Writing the definition of an enum or forward declaration during a
/// forward pass changes the state as a forward pass may.
pub proof fn lemma_kept_defined(env: Env, st: DumpSt, id: int, text: (Seq<char>, crate::names::Names), whether: bool)
    requires
        st.emit.len() == env.len(),
        st.fwd.len() == env.len(),
        0 <= id < env.len(),
        env.len() <= u32::MAX,
        st.emit[id] == EmitState::NotEmitted,
        env.node(id) is Enum || env.node(id) is Fwd,
        is_named_definition(env.node(id)) ==> whether,
    ensures
        fwds_kept(
            env,
            st,
            with_emit(
                if whether {
                    defined(env, written(st, text, !env.skip[id]), id)
                } else {
                    st
                },
                id,
                EmitState::Emitted,
            ),
        ),
        settled(
            st.emit,
            with_emit(
                if whether {
                    defined(env, written(st, text, !env.skip[id]), id)
                } else {
                    st
                },
                id,
                EmitState::Emitted,
            ).emit,
        ),
{
    let after = with_emit(
        if whether {
            defined(env, written(st, text, !env.skip[id]), id)
        } else {
            st
        },
        id,
        EmitState::Emitted,
    );
    if whether && !env.skip[id] {
        assert(after.log == st.log.push(Decl::Definition(id as u32)));
        assert(after.log[st.log.len() as int] == Decl::Definition(id as u32));
    }
}

/// The state unchanged is a change that a forward pass may make.
pub proof fn lemma_kept_same(env: Env, st: DumpSt)
    ensures
        fwds_kept(env, st, st),
        settled(st.emit, st.emit),
        declared_kept(env, st, st),
{
}

/// What a forward pass may change keeps what was declared.
pub proof fn lemma_kept_declared(env: Env, before: DumpSt, after: DumpSt)
    requires
        fwds_kept(env, before, after),
        before.emit.len() == env.len(),
        before.fwd.len() == env.len(),
    ensures
        declared_kept(env, before, after),
{
}

/// Settledness is transitive.
pub proof fn lemma_settled_trans(a: Seq<EmitState>, b: Seq<EmitState>, c: Seq<EmitState>)
    requires
        settled(a, b),
        settled(b, c),
    ensures
        settled(a, c),
{
    assert forall|j: int|
        0 <= j < a.len() && a[j] != EmitState::NotEmitted implies #[trigger] c[j]
        != EmitState::NotEmitted by {
        assert(b[j] != EmitState::NotEmitted);
    }
}

/// What a successful forward pass leaves: nothing newly under way; what
/// the type spells out covered, or, for the struct or union about to be
/// defined, what its members spell out.
pub open spec fn fwds_done(
    env: Env,
    before: DumpSt,
    id: int,
    cont: int,
    is_def: bool,
    after: DumpSt,
) -> bool {
    &&& forall|x: int|
        0 <= x < env.len() && #[trigger] after.emit[x] == EmitState::Emitting ==> before.emit[x]
            == EmitState::Emitting
    &&& !is_def ==> covers(env, after, id, cont)
    &&& is_def && is_named_composite(env.node(id)) && before.emit[id] == EmitState::NotEmitted
        ==> forall|k: int|
        0 <= k < members_of(env.node(id)).len() ==> covers(
            env,
            after,
            (#[trigger] members_of(env.node(id))[k]).type_id as int,
            id,
        )
}

/// Whether `cont` can be what a forward pass is under way for: in range,
/// and no anonymous struct or union.
pub open spec fn is_container(env: Env, cont: int) -> bool {
    0 <= cont < env.len() && (is_composite(env.node(cont)) ==> is_named_composite(env.node(cont)))
}

/// A forward pass changes the state as it may; where it succeeds, it
/// leaves what the type spells out covered.
pub proof fn lemma_fwds(env: Env, st: DumpSt, id: int, cont: int, is_def: bool, nest: nat)
    requires
        env.btf.wf(),
        emit_inv(env, st),
        0 <= id < env.len(),
        is_container(env, cont),
        unemitted(st.emit) <= nest,
    ensures
        fwds_kept(env, st, fwds_spec(env, st, id, cont, is_def, nest).1),
        settled(st.emit, fwds_spec(env, st, id, cont, is_def, nest).1.emit),
        fwds_spec(env, st, id, cont, is_def, nest).0 is Ok ==> fwds_done(
            env,
            st,
            id,
            cont,
            is_def,
            fwds_spec(env, st, id, cont, is_def, nest).1,
        ),
    decreases nest, 0nat, env.depth(id), 2nat, 0nat,
{
    let btf = &env.btf;
    assert(refs_below(btf@[id], btf@.len()));
    assert(refs_descend(btf@[id], btf.depths(), btf.depths()[id]));
    let out = fwds_spec(env, st, id, cont, is_def, nest);
    lemma_kept_same(env, st);
    match st.emit[id] {
        EmitState::Emitted => {
            assert(is_emitted_kind(env.node(id)));
            lemma_covers_step(env, st, id, cont);
        },
        EmitState::Emitting => {
            assert(is_emitted_kind(env.node(id)));
            match env.node(id) {
                BtfType::Struct(_) | BtfType::Union(_) => {
                    if st.fwd[id] || id == cont {
                        assert(is_named_composite(env.node(id)));
                        lemma_covers_step(env, st, id, cont);
                    } else if is_named_composite(env.node(id)) {
                        lemma_kept_composite_fwd(env, st, id);
                        lemma_covers_step(env, out.1, id, cont);
                    }
                },
                BtfType::Typedef(_) => {
                    if !st.fwd[id] {
                        lemma_kept_typedef_fwd(env, st, id);
                    }
                    lemma_covers_step(env, out.1, id, cont);
                },
                _ => {
                    lemma_covers_step(env, st, id, cont);
                },
            }
        },
        EmitState::NotEmitted => {
            match env.node(id) {
                BtfType::Volatile(t) => {
                    lemma_fwds(env, st, t.type_id as int, cont, false, nest);
                    if out.0 is Ok {
                        lemma_covers_step(env, out.1, id, cont);
                    }
                },
                BtfType::Const(t) => {
                    lemma_fwds(env, st, t.type_id as int, cont, false, nest);
                    if out.0 is Ok {
                        lemma_covers_step(env, out.1, id, cont);
                    }
                },
                BtfType::Restrict(t) => {
                    lemma_fwds(env, st, t.type_id as int, cont, false, nest);
                    if out.0 is Ok {
                        lemma_covers_step(env, out.1, id, cont);
                    }
                },
                BtfType::Ptr(t) => {
                    lemma_fwds(env, st, t.type_id as int, cont, false, nest);
                    if out.0 is Ok {
                        lemma_covers_step(env, out.1, id, cont);
                    }
                },
                BtfType::Array(t) => {
                    lemma_fwds(env, st, t.val_type_id as int, cont, false, nest);
                    if out.0 is Ok {
                        lemma_covers_step(env, out.1, id, cont);
                    }
                },
                BtfType::FuncProto(t) => {
                    lemma_fwds(env, st, t.res_type_id as int, cont, false, nest);
                    let (r, st1) = fwds_spec(env, st, t.res_type_id as int, cont, false, nest);
                    if r is Ok {
                        lemma_fwds_kept_inv(env, st, st1);
                        lemma_unemitted_settled(st.emit, st1.emit);
                        lemma_fwds_params(env, st1, id, 0, cont, nest);
                        let (r2, st2) = fwds_params_spec(env, st1, id, 0, cont, nest);
                        lemma_fwds_kept_trans(env, st, st1, st2);
                        lemma_settled_trans(st.emit, st1.emit, st2.emit);
                        if r2 is Ok {
                            lemma_kept_declared(env, st1, st2);
                            lemma_covers_kept(env, st1, st2, t.res_type_id as int, cont);
                            assert forall|y: int| #[trigger]
                                mention_step(env, id, y) implies covers(env, st2, y, cont) by {
                                if y != t.res_type_id {
                                    let k = choose|k: int|
                                        0 <= k < t.params@.len() && y == (
                                        #[trigger] t.params@[k]).type_id;
                                    assert(params_of(env.node(id))[k] == y);
                                    assert(params_covered(env, st2, id, k, cont));
                                }
                            }
                            lemma_covers_step(env, st2, id, cont);
                        }
                    }
                },
                BtfType::Struct(_) | BtfType::Union(_) => {
                    lemma_unemitted_positive(st.emit, id);
                    let named = is_named_composite(env.node(id));
                    let st1 = with_emit(st, id, EmitState::Emitting);
                    let inner = (nest - 1) as nat;
                    lemma_unemitted_after_mark(st.emit, id, EmitState::Emitting);
                    assert(fwds_kept(env, st, st1));
                    lemma_fwds_kept_inv(env, st, st1);
                    lemma_kept_same(env, st1);
                    if is_def || !named {
                        let inner_cont = if named {
                            id
                        } else {
                            cont
                        };
                        lemma_fwds_members(env, st1, id, 0, inner_cont, inner);
                        let (r, st2) = fwds_members_spec(env, st1, id, 0, inner_cont, inner);
                        lemma_kept_around(env, st, id, st2, EmitState::NotEmitted);
                        if r is Ok {
                            let after = with_emit(st2, id, EmitState::NotEmitted);
                            assert forall|k: int|
                                0 <= k < members_of(env.node(id)).len() implies covers(
                                env,
                                after,
                                (#[trigger] members_of(env.node(id))[k]).type_id as int,
                                inner_cont,
                            ) by {
                                assert(members_covered(env, st2, id, k, inner_cont));
                                lemma_covers_kept(
                                    env,
                                    st2,
                                    after,
                                    members_of(env.node(id))[k].type_id as int,
                                    inner_cont,
                                );
                            }
                            if !named {
                                lemma_covers_step(env, after, id, cont);
                            }
                        } else {
                            lemma_fwds_kept_trans(env, st, st1, st2);
                            lemma_settled_to_inner(st.emit, id, st2.emit);
                        }
                    } else {
                        let st2 = if !st1.fwd[id] && id != cont {
                            composite_fwd(env, st1, id)
                        } else {
                            st1
                        };
                        if !st1.fwd[id] && id != cont {
                            lemma_kept_composite_fwd(env, st1, id);
                        }
                        lemma_kept_around(env, st, id, st2, EmitState::NotEmitted);
                        let after = with_emit(st2, id, EmitState::NotEmitted);
                        lemma_covers_step(env, after, id, cont);
                    }
                },
                BtfType::Enum(t) => {
                    lemma_kept_defined(
                        env,
                        st,
                        id,
                        crate::decl::enum_def_text(env, st.names, id, 0),
                        t.name@.len() != 0,
                    );
                    lemma_covers_step(env, out.1, id, cont);
                },
                BtfType::Fwd(_) => {
                    lemma_kept_defined(
                        env,
                        st,
                        id,
                        crate::decl::decl_text(env, st.names, id, Seq::empty(), 0),
                        true,
                    );
                    lemma_covers_step(env, out.1, id, cont);
                },
                BtfType::Typedef(t) => {
                    lemma_unemitted_positive(st.emit, id);
                    let st1 = with_emit(st, id, EmitState::Emitting);
                    let inner = (nest - 1) as nat;
                    lemma_unemitted_after_mark(st.emit, id, EmitState::Emitting);
                    assert(fwds_kept(env, st, st1));
                    lemma_fwds_kept_inv(env, st, st1);
                    lemma_fwds(env, st1, t.type_id as int, id, false, inner);
                    let (r, st2) = fwds_spec(env, st1, t.type_id as int, id, false, inner);
                    if r is Ok {
                        let st3 = if st2.fwd[id] {
                            st2
                        } else {
                            typedef_fwd(env, st2, id)
                        };
                        lemma_kept_same(env, st2);
                        assert(st1.emit[id] == EmitState::Emitting);
                        assert(st2.emit[id] == EmitState::Emitting);
                        if !st2.fwd[id] {
                            lemma_kept_typedef_fwd(env, st2, id);
                        }
                        lemma_fwds_kept_trans(env, st1, st2, st3);
                        lemma_kept_around(env, st, id, st3, EmitState::Emitted);
                        lemma_covers_step(env, out.1, id, cont);
                    } else {
                        lemma_fwds_kept_trans(env, st, st1, st2);
                        lemma_settled_to_inner(st.emit, id, st2.emit);
                    }
                },
                _ => {
                    lemma_covers_step(env, st, id, cont);
                },
            }
        },
    }
}

/// What was settled before an untouched type was entered is settled after
/// whatever was settled inside.
pub proof fn lemma_settled_to_inner(emit: Seq<EmitState>, id: int, inner: Seq<EmitState>)
    requires
        0 <= id < emit.len(),
        settled(emit.update(id, EmitState::Emitting), inner),
    ensures
        settled(emit, inner),
{
    let st1 = emit.update(id, EmitState::Emitting);
    assert forall|j: int|
        0 <= j < emit.len() && emit[j] != EmitState::NotEmitted implies #[trigger] inner[j]
        != EmitState::NotEmitted by {
        assert(st1[j] != EmitState::NotEmitted);
    }
}

/// Whether what member `k` of `id` spells out is covered.
pub open spec fn members_covered(env: Env, st: DumpSt, id: int, k: int, cont: int) -> bool {
    covers(env, st, members_of(env.node(id))[k].type_id as int, cont)
}

/// Whether what parameter `k` of `id` spells out is covered.
pub open spec fn params_covered(env: Env, st: DumpSt, id: int, k: int, cont: int) -> bool {
    covers(env, st, params_of(env.node(id))[k] as int, cont)
}

/// The forward pass over the members of `id` from the `k`-th on changes
/// the state as it may; where it succeeds, it leaves what they spell out
/// covered.
pub proof fn lemma_fwds_members(env: Env, st: DumpSt, id: int, k: nat, cont: int, nest: nat)
    requires
        env.btf.wf(),
        emit_inv(env, st),
        0 <= id < env.len(),
        is_container(env, cont),
        unemitted(st.emit) <= nest,
    ensures
        fwds_kept(env, st, fwds_members_spec(env, st, id, k, cont, nest).1),
        settled(st.emit, fwds_members_spec(env, st, id, k, cont, nest).1.emit),
        fwds_members_spec(env, st, id, k, cont, nest).0 is Ok ==> {
            &&& forall|x: int|
                0 <= x < env.len() && #[trigger] fwds_members_spec(
                    env,
                    st,
                    id,
                    k,
                    cont,
                    nest,
                ).1.emit[x] == EmitState::Emitting ==> st.emit[x] == EmitState::Emitting
            &&& forall|j: int|
                k <= j < members_of(env.node(id)).len() ==> #[trigger] members_covered(
                    env,
                    fwds_members_spec(env, st, id, k, cont, nest).1,
                    id,
                    j,
                    cont,
                )
        },
    decreases nest, 1nat, 0nat, 0nat, members_of(env.node(id)).len() - k,
{
    let btf = &env.btf;
    let members = members_of(env.node(id));
    assert(refs_below(btf@[id], btf@.len()));
    lemma_kept_same(env, st);
    if k < members.len() {
        let m = members[k as int].type_id as int;
        assert(0 <= m < env.len());
        lemma_fwds(env, st, m, cont, false, nest);
        let (r, st1) = fwds_spec(env, st, m, cont, false, nest);
        if r is Ok {
            lemma_fwds_kept_inv(env, st, st1);
            lemma_unemitted_settled(st.emit, st1.emit);
            lemma_fwds_members(env, st1, id, k + 1, cont, nest);
            let (r2, st2) = fwds_members_spec(env, st1, id, k + 1, cont, nest);
            lemma_fwds_kept_trans(env, st, st1, st2);
            lemma_settled_trans(st.emit, st1.emit, st2.emit);
            if r2 is Ok {
                lemma_kept_declared(env, st1, st2);
                lemma_covers_kept(env, st1, st2, m, cont);
                assert forall|j: int| k <= j < members.len() implies #[trigger] members_covered(
                    env,
                    st2,
                    id,
                    j,
                    cont,
                ) by {
                    if j > k {
                        assert(members_covered(env, st2, id, j, cont));
                    }
                }
            }
        }
    }
}

/// The forward pass over the parameters of `id` from the `k`-th on changes
/// the state as it may; where it succeeds, it leaves what they spell out
/// covered.
pub proof fn lemma_fwds_params(env: Env, st: DumpSt, id: int, k: nat, cont: int, nest: nat)
    requires
        env.btf.wf(),
        emit_inv(env, st),
        0 <= id < env.len(),
        is_container(env, cont),
        unemitted(st.emit) <= nest,
    ensures
        fwds_kept(env, st, fwds_params_spec(env, st, id, k, cont, nest).1),
        settled(st.emit, fwds_params_spec(env, st, id, k, cont, nest).1.emit),
        fwds_params_spec(env, st, id, k, cont, nest).0 is Ok ==> {
            &&& forall|x: int|
                0 <= x < env.len() && #[trigger] fwds_params_spec(
                    env,
                    st,
                    id,
                    k,
                    cont,
                    nest,
                ).1.emit[x] == EmitState::Emitting ==> st.emit[x] == EmitState::Emitting
            &&& forall|j: int|
                k <= j < params_of(env.node(id)).len() ==> #[trigger] params_covered(
                    env,
                    fwds_params_spec(env, st, id, k, cont, nest).1,
                    id,
                    j,
                    cont,
                )
        },
    decreases nest, 0nat, env.depth(id), 1nat, params_of(env.node(id)).len() - k,
{
    let btf = &env.btf;
    let params = params_of(env.node(id));
    assert(refs_below(btf@[id], btf@.len()));
    assert(refs_descend(btf@[id], btf.depths(), btf.depths()[id]));
    lemma_kept_same(env, st);
    if k < params.len() {
        let f = env.node(id)->FuncProto_0;
        assert(params[k as int] == f.params@[k as int].type_id);
        let p = params[k as int] as int;
        lemma_fwds(env, st, p, cont, false, nest);
        let (r, st1) = fwds_spec(env, st, p, cont, false, nest);
        if r is Ok {
            lemma_fwds_kept_inv(env, st, st1);
            lemma_unemitted_settled(st.emit, st1.emit);
            lemma_fwds_params(env, st1, id, k + 1, cont, nest);
            let (r2, st2) = fwds_params_spec(env, st1, id, k + 1, cont, nest);
            lemma_fwds_kept_trans(env, st, st1, st2);
            lemma_settled_trans(st.emit, st1.emit, st2.emit);
            if r2 is Ok {
                lemma_kept_declared(env, st1, st2);
                lemma_covers_kept(env, st1, st2, p, cont);
                assert forall|j: int| k <= j < params.len() implies #[trigger] params_covered(
                    env,
                    st2,
                    id,
                    j,
                    cont,
                ) by {
                    if j > k {
                        assert(params_covered(env, st2, id, j, cont));
                    }
                }
            }
        }
    }
}

/// No forward pass is under way.
pub open spec fn none_emitting(env: Env, st: DumpSt) -> bool {
    forall|x: int| 0 <= x < env.len() ==> #[trigger] st.emit[x] != EmitState::Emitting
}

/// Writing a definition keeps the invariant, if what the members of the
/// struct or union spell out is covered.
pub proof fn lemma_def(env: Env, st: DumpSt, id: int)
    requires
        env.btf.wf(),
        emit_inv(env, st),
        none_emitting(env, st),
        forwards_are_named(env, st.log),
        0 <= id < env.len(),
        is_composite(env.node(id)) && st.emit[id] == EmitState::NotEmitted ==> forall|k: int|
            0 <= k < members_of(env.node(id)).len() ==> covers(
                env,
                st,
                (#[trigger] members_of(env.node(id))[k]).type_id as int,
                id,
            ),
    ensures
        forwards_are_named(env, def_spec(env, st, id).1.log),
        def_spec(env, st, id).0 is Ok ==> emit_inv(env, def_spec(env, st, id).1) && none_emitting(
            env,
            def_spec(env, st, id).1,
        ),
{
    let out = def_spec(env, st, id);
    let after = out.1;
    if st.emit[id] == EmitState::NotEmitted && is_named_definition(env.node(id)) {
        let n = st.log.len() as int;
        assert forall|i: int| 0 <= i < st.log.len() implies #[trigger] after.log[i] == st.log[i] by {}
        assert(forwards_are_named(env, after.log)) by {
            assert forall|i: int|
                0 <= i < after.log.len() && (#[trigger] after.log[i]) is Forward implies after.log[i]->Forward_0
                < env.len() && is_named_composite(env.node(after.log[i]->Forward_0 as int)) by {
                if i < n {
                    assert(st.log[i] is Forward);
                }
            }
        }
        assert forall|b: int|
            0 <= b < env.len() && #[trigger] after.fwd[b] && is_composite(env.node(b))
                && !env.skip[b] implies has_forward(after.log, b) by {
            assert(st.fwd[b]);
            let q = choose|q: int|
                0 <= q < st.log.len() && #[trigger] st.log[q] == Decl::Forward(b as u32);
            assert(after.log[q] == Decl::Forward(b as u32));
        }
        let logs = !env.skip[id] && !(env.node(id) is Typedef && st.fwd[id]);
        assert(after.log == if logs {
            st.log.push(Decl::Definition(id as u32))
        } else {
            st.log
        });
        assert forall|b: int|
            0 <= b < env.len() && #[trigger] after.emit[b] == EmitState::Emitted
                && is_named_definition(env.node(b)) && !env.skip[b] implies has_definition(
            after.log,
            b,
        ) by {
            if b == id && logs {
                assert(after.log[n] == Decl::Definition(id as u32));
            } else {
                if b != id {
                    assert(st.emit[b] == EmitState::Emitted);
                } else {
                    assert(st.fwd[b] && env.node(b) is Typedef);
                }
                let q = choose|q: int|
                    0 <= q < st.log.len() && #[trigger] st.log[q] == Decl::Definition(b as u32);
                assert(after.log[q] == Decl::Definition(b as u32));
            }
        }
        assert forall|b: int|
            0 <= b < env.len() && #[trigger] after.fwd[b] && env.node(b) is Typedef
                && !env.skip[b] implies has_definition(after.log, b) by {
            assert(st.fwd[b]);
            let q = choose|q: int|
                0 <= q < st.log.len() && #[trigger] st.log[q] == Decl::Definition(b as u32);
            assert(after.log[q] == Decl::Definition(b as u32));
        }
        assert forall|q: int|
            0 <= q < after.log.len() && (#[trigger] after.log[q]) is Definition implies is_defined(
            env,
            after,
            after.log[q]->Definition_0 as int,
        ) by {
            if q < n {
                assert(after.log[q] == st.log[q]);
                assert(is_defined(env, st, st.log[q]->Definition_0 as int));
            }
        }
        assert forall|q: int, r: int|
            0 <= q < r < after.log.len() && (#[trigger] after.log[q]) is Definition implies after.log[q]
            != #[trigger] after.log[r] by {
            assert(after.log[q] == st.log[q]);
            if r < n {
                assert(after.log[r] == st.log[r]);
            } else {
                assert(is_defined(env, st, st.log[q]->Definition_0 as int));
            }
        }
        assert forall|p: int, b: int|
            0 <= p < after.log.len() && (#[trigger] after.log[p]) is Definition
                && #[trigger] mentions(env, after.log[p]->Definition_0 as int, b) && b
                != after.log[p]->Definition_0 && !env.skip[b] implies declared_before(
            after.log,
            b,
            p,
        ) by {
            if p < n {
                assert(after.log[p] == st.log[p]);
                assert(declared_before(st.log, b, p));
                let q = choose|q: int|
                    0 <= q < p && q < st.log.len() && (#[trigger] st.log[q] == Decl::Forward(
                        b as u32,
                    ) || st.log[q] == Decl::Definition(b as u32));
                assert(after.log[q] == st.log[q]);
            } else {
                assert(after.log[p] == Decl::Definition(id as u32));
                let (k, path) = choose|k: int, path: Seq<int>|
                    0 <= k < members_of(env.node(id)).len() && #[trigger] mention_path(env, path)
                        && path[0] == (#[trigger] members_of(env.node(id))[k]).type_id
                        && path.last() == b;
                assert(covers(env, st, members_of(env.node(id))[k].type_id as int, id));
                assert(declared_in(st, b, id));
                if st.fwd[b] {
                    let q = choose|q: int|
                        0 <= q < st.log.len() && #[trigger] st.log[q] == Decl::Forward(b as u32);
                    assert(after.log[q] == st.log[q]);
                } else {
                    let q = choose|q: int|
                        0 <= q < st.log.len() && #[trigger] st.log[q] == Decl::Definition(b as u32);
                    assert(after.log[q] == st.log[q]);
                }
            }
        }
        assert forall|x: int|
            0 <= x < env.len() && #[trigger] after.emit[x] != EmitState::NotEmitted implies is_emitted_kind(
            env.node(x),
        ) by {
            if x != id {
                assert(st.emit[x] != EmitState::NotEmitted);
            }
        }
        assert forall|x: int|
            0 <= x < env.len() && #[trigger] after.emit[x] == EmitState::Emitted && is_composite(
                env.node(x),
            ) implies is_named_composite(env.node(x)) by {
            if x != id {
                assert(st.emit[x] == EmitState::Emitted);
            }
        }
        assert forall|x: int| 0 <= x < env.len() implies #[trigger] after.emit[x]
            != EmitState::Emitting by {
            if x != id {
                assert(st.emit[x] != EmitState::Emitting);
            }
        }
    }
}

/// Writing the entries of the order from the `k`-th on keeps the
/// invariant; whether it succeeds or not, every forward declaration in the
/// log is that of a struct or union with a name.
pub proof fn lemma_emit_ordered(env: Env, order: Seq<u32>, st: DumpSt, k: nat)
    requires
        env.btf.wf(),
        emit_inv(env, st),
        none_emitting(env, st),
        forwards_are_named(env, st.log),
        crate::order::ids_below(order, env.len()),
    ensures
        forwards_are_named(env, crate::pass::emit_ordered_spec(env, order, st, k).1.log),
        crate::pass::emit_ordered_spec(env, order, st, k).0 is Ok ==> {
            &&& emit_inv(env, crate::pass::emit_ordered_spec(env, order, st, k).1)
            &&& forall|x: int|
                0 <= x < env.len() && st.emit[x] == EmitState::Emitted
                    ==> #[trigger] crate::pass::emit_ordered_spec(env, order, st, k).1.emit[x]
                    == EmitState::Emitted
            &&& forall|j: int|
                k <= j < order.len() && is_named_definition(env.node(order[j] as int))
                    ==> crate::pass::emit_ordered_spec(env, order, st, k).1.emit[(
                #[trigger] order[j]) as int] == EmitState::Emitted
        },
    decreases order.len() - k,
{
    if k < order.len() {
        let id = order[k as int] as int;
        if is_named_definition(env.node(id)) {
            crate::pass::lemma_unemitted_bound(st.emit);
            lemma_fwds(env, st, id, id, true, env.len());
            let (r, st1) = fwds_spec(env, st, id, id, true, env.len());
            assert(forwards_are_named(env, st1.log)) by {
                assert forall|i: int|
                    0 <= i < st1.log.len() && (#[trigger] st1.log[i]) is Forward implies st1.log[i]->Forward_0
                    < env.len() && is_named_composite(env.node(st1.log[i]->Forward_0 as int)) by {
                    if i < st.log.len() {
                        assert(st1.log[i] == st.log[i]);
                    }
                }
            }
            if r is Ok {
                lemma_fwds_kept_inv(env, st, st1);
                assert(none_emitting(env, st1)) by {
                    assert forall|x: int| 0 <= x < env.len() implies #[trigger] st1.emit[x]
                        != EmitState::Emitting by {
                        if st1.emit[x] == EmitState::Emitting {
                            assert(st.emit[x] == EmitState::Emitting);
                        }
                    }
                }
                if is_composite(env.node(id)) && st1.emit[id] == EmitState::NotEmitted {
                    if st.emit[id] != EmitState::NotEmitted {
                        assert(st1.emit[id] != EmitState::NotEmitted);
                    }
                }
                lemma_def(env, st1, id);
                let (r2, st2) = def_spec(env, st1, id);
                if r2 is Ok {
                    lemma_emit_ordered(env, order, st2, k + 1);
                    let last = crate::pass::emit_ordered_spec(env, order, st2, k + 1).1;
                    assert(st2.emit[id] == EmitState::Emitted);
                    if crate::pass::emit_ordered_spec(env, order, st2, k + 1).0 is Ok {
                    assert forall|x: int|
                        0 <= x < env.len() && st.emit[x]
                            == EmitState::Emitted implies #[trigger] last.emit[x]
                        == EmitState::Emitted by {
                        assert(st1.emit[x] == EmitState::Emitted);
                        assert(st2.emit[x] == EmitState::Emitted);
                    }
                    assert forall|j: int|
                        k <= j < order.len() && is_named_definition(
                            env.node(order[j] as int),
                        ) implies last.emit[(#[trigger] order[j]) as int]
                        == EmitState::Emitted by {
                        if j == k {
                            assert(last.emit[id] == EmitState::Emitted);
                        }
                    }
                    }
                }
            }
        } else {
            lemma_emit_ordered(env, order, st, k + 1);
        }
    }
}

/// Every named definition that was selected, and that is not left out, has
/// been written by a successful dump from a fresh state.
pub proof fn law_selected_definitions_are_written(env: Env, accepted: Seq<bool>, id: int)
    requires
        env.btf.wf(),
        env.skip.len() == env.len(),
        crate::pass::dump_spec(env, accepted, crate::c_dumper::fresh_state(env.len())).0 is Ok,
        0 <= id < env.len(),
        is_named_definition(env.node(id)),
        accepted[id],
        !env.skip[id],
    ensures
        has_definition(
            crate::pass::dump_spec(
                env,
                accepted,
                crate::c_dumper::fresh_state(env.len()),
            ).1.dump.log,
            id,
        ),
{
    let start = crate::c_dumper::fresh_state(env.len());
    let ost = crate::order::OrderSt { states: start.states, order: Seq::empty() };
    assert(ost == crate::order_laws::fresh_order(env.len()));
    crate::order_laws::lemma_fresh_order_inv(&env.btf);
    crate::order_laws::lemma_order_roots(env, accepted, ost, 0);
    let (r, ordered) = crate::pass::order_roots_spec(env, accepted, ost, 0);
    assert(ordered.states[id] == crate::order::OrderState::Ordered);
    assert(crate::order_laws::occurs_before(ordered.order, id, ordered.order.len() as int));
    let j = choose|j: int|
        0 <= j < ordered.order.len() && j < ordered.order.len() && #[trigger] ordered.order[j]
            == id;
    lemma_emit_ordered(env, ordered.order, start.dump, 0);
    let last = crate::pass::emit_ordered_spec(env, ordered.order, start.dump, 0).1;
    assert(last.emit[ordered.order[j] as int] == EmitState::Emitted);
}

/// No definition is written twice by a successful dump from a fresh state.
pub proof fn law_definitions_are_written_once(env: Env, accepted: Seq<bool>, q: int, r: int)
    requires
        env.btf.wf(),
        env.skip.len() == env.len(),
        crate::pass::dump_spec(env, accepted, crate::c_dumper::fresh_state(env.len())).0 is Ok,
        0 <= q < r < crate::pass::dump_spec(
            env,
            accepted,
            crate::c_dumper::fresh_state(env.len()),
        ).1.dump.log.len(),
        crate::pass::dump_spec(
            env,
            accepted,
            crate::c_dumper::fresh_state(env.len()),
        ).1.dump.log[q] is Definition,
    ensures
        crate::pass::dump_spec(env, accepted, crate::c_dumper::fresh_state(env.len())).1.dump.log[q]
            != crate::pass::dump_spec(
            env,
            accepted,
            crate::c_dumper::fresh_state(env.len()),
        ).1.dump.log[r],
{
    lemma_dump(env, accepted);
}

/// Idempotence: what a dump comes to is determined by the graph, the
/// blacklist, the choice of definitions and the state it starts from. Two
/// dumps that agree in these end with the same outcome and the same text.
pub proof fn law_same_dump_same_text(
    env: Env,
    accepted: Seq<bool>,
    start: crate::pass::DumperSt,
    first: (Result<(), (crate::error::BtfErrorKind, u32)>, crate::pass::DumperSt),
    second: (Result<(), (crate::error::BtfErrorKind, u32)>, crate::pass::DumperSt),
)
    requires
        first == crate::pass::dump_spec(env, accepted, start),
        second == crate::pass::dump_spec(env, accepted, start),
    ensures
        first.0 == second.0,
        first.1.dump.out == second.1.dump.out,
{
}

/// No forward declaration of an anonymous struct or union is ever written:
/// every forward declaration that a dump from a fresh state has written,
/// whether it succeeded or not, is that of a struct or union with a name.
pub proof fn law_forward_declarations_are_named(env: Env, accepted: Seq<bool>, i: int)
    requires
        env.btf.wf(),
        env.skip.len() == env.len(),
        0 <= i < crate::pass::dump_spec(
            env,
            accepted,
            crate::c_dumper::fresh_state(env.len()),
        ).1.dump.log.len(),
        crate::pass::dump_spec(
            env,
            accepted,
            crate::c_dumper::fresh_state(env.len()),
        ).1.dump.log[i] is Forward,
    ensures
        is_named_composite(
            env.node(
                crate::pass::dump_spec(
                    env,
                    accepted,
                    crate::c_dumper::fresh_state(env.len()),
                ).1.dump.log[i]->Forward_0 as int,
            ),
        ),
{
    lemma_dump(env, accepted);
}

/// A forward pass never declares an anonymous struct or union, whatever
/// state emission is in and whether the pass succeeds or not: the forward
/// declarations that it adds to the log are those of structs and unions
/// with a name, and afterwards no anonymous struct or union is recorded as
/// forward-declared.
pub proof fn law_forward_pass_declares_named_only(
    env: Env,
    st: DumpSt,
    id: int,
    cont: int,
    is_def: bool,
    nest: nat,
)
    requires
        env.btf.wf(),
        emit_inv(env, st),
        0 <= id < env.len(),
        is_container(env, cont),
        unemitted(st.emit) <= nest,
    ensures
        forall|i: int|
            st.log.len() <= i < fwds_spec(env, st, id, cont, is_def, nest).1.log.len() && (
            #[trigger] fwds_spec(env, st, id, cont, is_def, nest).1.log[i]) is Forward
                ==> is_named_composite(
                env.node(fwds_spec(env, st, id, cont, is_def, nest).1.log[i]->Forward_0 as int),
            ),
        forall|x: int|
            0 <= x < env.len() && is_composite(env.node(x)) && !is_named_composite(env.node(x))
                ==> !(#[trigger] fwds_spec(env, st, id, cont, is_def, nest).1.fwd[x]),
{
    lemma_fwds(env, st, id, cont, is_def, nest);
    lemma_fwds_kept_inv(env, st, fwds_spec(env, st, id, cont, is_def, nest).1);
}

/// Weak-edge tolerance: in the log of a successful dump from a fresh
/// state, every named struct or union that a definition mentions, other
/// than the defined one itself and unless it is left out, has been
/// declared before that definition: forward, or by its own definition.
pub proof fn law_mentions_are_declared(env: Env, accepted: Seq<bool>, p: int, b: int)
    requires
        env.btf.wf(),
        env.skip.len() == env.len(),
        crate::pass::dump_spec(env, accepted, crate::c_dumper::fresh_state(env.len())).0 is Ok,
        0 <= p < crate::pass::dump_spec(
            env,
            accepted,
            crate::c_dumper::fresh_state(env.len()),
        ).1.dump.log.len(),
        crate::pass::dump_spec(
            env,
            accepted,
            crate::c_dumper::fresh_state(env.len()),
        ).1.dump.log[p] is Definition,
        mentions(
            env,
            crate::pass::dump_spec(
                env,
                accepted,
                crate::c_dumper::fresh_state(env.len()),
            ).1.dump.log[p]->Definition_0 as int,
            b,
        ),
        b != crate::pass::dump_spec(
            env,
            accepted,
            crate::c_dumper::fresh_state(env.len()),
        ).1.dump.log[p]->Definition_0,
        !env.skip[b],
    ensures
        declared_before(
            crate::pass::dump_spec(
                env,
                accepted,
                crate::c_dumper::fresh_state(env.len()),
            ).1.dump.log,
            b,
            p,
        ),
{
    lemma_dump(env, accepted);
}

/// A dump from a fresh state leaves the invariant if it succeeds, and
/// only forward declarations of named structs and unions in any case.
pub proof fn lemma_dump(env: Env, accepted: Seq<bool>)
    requires
        env.btf.wf(),
        env.skip.len() == env.len(),
    ensures
        forwards_are_named(
            env,
            crate::pass::dump_spec(env, accepted, crate::c_dumper::fresh_state(env.len())).1.dump.log,
        ),
        crate::pass::dump_spec(env, accepted, crate::c_dumper::fresh_state(env.len())).0 is Ok
            ==> emit_inv(
            env,
            crate::pass::dump_spec(env, accepted, crate::c_dumper::fresh_state(env.len())).1.dump,
        ),
{
    let start = crate::c_dumper::fresh_state(env.len());
    let ost = crate::order::OrderSt { states: start.states, order: Seq::empty() };
    assert(ost == crate::order_laws::fresh_order(env.len()));
    crate::order_laws::lemma_fresh_order_inv(&env.btf);
    crate::order_laws::lemma_order_roots(env, accepted, ost, 0);
    let (r, ordered) = crate::pass::order_roots_spec(env, accepted, ost, 0);
    if r is Ok {
        lemma_emit_ordered(env, ordered.order, start.dump, 0);
    }
}

/// The bound on how deep structs, unions and typedefs are entered does not
/// show: a forward pass comes to the same with any bound that is at least
/// the number of untouched types. (And it does not go back behind a mark.)
pub proof fn law_fwds_any_bound(
    env: Env,
    st: DumpSt,
    id: int,
    cont: int,
    is_def: bool,
    n1: nat,
    n2: nat,
)
    requires
        env.linked(),
        0 <= id < env.len(),
        st.emit.len() == env.len(),
        unemitted(st.emit) <= n1,
        unemitted(st.emit) <= n2,
    ensures
        fwds_spec(env, st, id, cont, is_def, n1) == fwds_spec(env, st, id, cont, is_def, n2),
        settled(st.emit, fwds_spec(env, st, id, cont, is_def, n1).1.emit),
    decreases n1, 0nat, env.depth(id), 2nat, 0nat,
{
    let btf = &env.btf;
    assert(refs_below(btf@[id], btf@.len()));
    assert(refs_descend(btf@[id], btf.depths(), btf.depths()[id]));
    match st.emit[id] {
        EmitState::NotEmitted => {
            match env.node(id) {
                BtfType::Volatile(t) => {
                    law_fwds_any_bound(env, st, t.type_id as int, cont, false, n1, n2);
                },
                BtfType::Const(t) => {
                    law_fwds_any_bound(env, st, t.type_id as int, cont, false, n1, n2);
                },
                BtfType::Restrict(t) => {
                    law_fwds_any_bound(env, st, t.type_id as int, cont, false, n1, n2);
                },
                BtfType::Ptr(t) => {
                    law_fwds_any_bound(env, st, t.type_id as int, cont, false, n1, n2);
                },
                BtfType::Array(t) => {
                    law_fwds_any_bound(env, st, t.val_type_id as int, cont, false, n1, n2);
                },
                BtfType::FuncProto(t) => {
                    law_fwds_any_bound(env, st, t.res_type_id as int, cont, false, n1, n2);
                    let (r, st1) = fwds_spec(env, st, t.res_type_id as int, cont, false, n1);
                    if r is Ok {
                        lemma_unemitted_settled(st.emit, st1.emit);
                        lemma_fwds_params_any_bound(env, st1, id, 0, cont, n1, n2);
                        lemma_settled_trans(
                            st.emit,
                            st1.emit,
                            fwds_params_spec(env, st1, id, 0, cont, n1).1.emit,
                        );
                    }
                },
                BtfType::Struct(_) | BtfType::Union(_) => {
                    lemma_unemitted_positive(st.emit, id);
                    let named = is_named_composite(env.node(id));
                    let st1 = with_emit(st, id, EmitState::Emitting);
                    lemma_unemitted_after_mark(st.emit, id, EmitState::Emitting);
                    let last = fwds_spec(env, st, id, cont, is_def, n1).1;
                    if is_def || !named {
                        let inner_cont = if named {
                            id
                        } else {
                            cont
                        };
                        lemma_fwds_members_any_bound(
                            env,
                            st1,
                            id,
                            0,
                            inner_cont,
                            (n1 - 1) as nat,
                            (n2 - 1) as nat,
                        );
                        let st2 = fwds_members_spec(env, st1, id, 0, inner_cont, (n1 - 1) as nat).1;
                        assert forall|j: int|
                            0 <= j < st.emit.len() && st.emit[j]
                                != EmitState::NotEmitted implies #[trigger] last.emit[j]
                            != EmitState::NotEmitted by {
                            assert(st1.emit[j] != EmitState::NotEmitted);
                            assert(st2.emit[j] != EmitState::NotEmitted);
                        }
                    }
                },
                BtfType::Typedef(t) => {
                    lemma_unemitted_positive(st.emit, id);
                    let st1 = with_emit(st, id, EmitState::Emitting);
                    lemma_unemitted_after_mark(st.emit, id, EmitState::Emitting);
                    law_fwds_any_bound(
                        env,
                        st1,
                        t.type_id as int,
                        id,
                        false,
                        (n1 - 1) as nat,
                        (n2 - 1) as nat,
                    );
                    let st2 = fwds_spec(env, st1, t.type_id as int, id, false, (n1 - 1) as nat).1;
                    let last = fwds_spec(env, st, id, cont, is_def, n1).1;
                    assert forall|j: int|
                        0 <= j < st.emit.len() && st.emit[j]
                            != EmitState::NotEmitted implies #[trigger] last.emit[j]
                        != EmitState::NotEmitted by {
                        assert(st1.emit[j] != EmitState::NotEmitted);
                        assert(st2.emit[j] != EmitState::NotEmitted);
                    }
                },
                _ => {},
            }
        },
        _ => {},
    }
}

/// The forward pass over the members of `id` comes to the same with any
/// bound that is at least the number of untouched types.
pub proof fn lemma_fwds_members_any_bound(
    env: Env,
    st: DumpSt,
    id: int,
    k: nat,
    cont: int,
    n1: nat,
    n2: nat,
)
    requires
        env.linked(),
        0 <= id < env.len(),
        st.emit.len() == env.len(),
        unemitted(st.emit) <= n1,
        unemitted(st.emit) <= n2,
    ensures
        fwds_members_spec(env, st, id, k, cont, n1) == fwds_members_spec(env, st, id, k, cont, n2),
        settled(st.emit, fwds_members_spec(env, st, id, k, cont, n1).1.emit),
    decreases n1, 1nat, 0nat, 0nat, members_of(env.node(id)).len() - k,
{
    let btf = &env.btf;
    let members = members_of(env.node(id));
    assert(refs_below(btf@[id], btf@.len()));
    if k < members.len() {
        let m = members[k as int].type_id as int;
        assert(0 <= m < env.len());
        law_fwds_any_bound(env, st, m, cont, false, n1, n2);
        let (r, st1) = fwds_spec(env, st, m, cont, false, n1);
        if r is Ok {
            lemma_unemitted_settled(st.emit, st1.emit);
            lemma_fwds_members_any_bound(env, st1, id, k + 1, cont, n1, n2);
            lemma_settled_trans(
                st.emit,
                st1.emit,
                fwds_members_spec(env, st1, id, k + 1, cont, n1).1.emit,
            );
        }
    }
}

/// The forward pass over the parameters of `id` comes to the same with any
/// bound that is at least the number of untouched types.
pub proof fn lemma_fwds_params_any_bound(
    env: Env,
    st: DumpSt,
    id: int,
    k: nat,
    cont: int,
    n1: nat,
    n2: nat,
)
    requires
        env.linked(),
        0 <= id < env.len(),
        st.emit.len() == env.len(),
        unemitted(st.emit) <= n1,
        unemitted(st.emit) <= n2,
    ensures
        fwds_params_spec(env, st, id, k, cont, n1) == fwds_params_spec(env, st, id, k, cont, n2),
        settled(st.emit, fwds_params_spec(env, st, id, k, cont, n1).1.emit),
    decreases n1, 0nat, env.depth(id), 1nat, params_of(env.node(id)).len() - k,
{
    let btf = &env.btf;
    let params = params_of(env.node(id));
    assert(refs_below(btf@[id], btf@.len()));
    assert(refs_descend(btf@[id], btf.depths(), btf.depths()[id]));
    if k < params.len() {
        let f = env.node(id)->FuncProto_0;
        assert(params[k as int] == f.params@[k as int].type_id);
        let p = params[k as int] as int;
        law_fwds_any_bound(env, st, p, cont, false, n1, n2);
        let (r, st1) = fwds_spec(env, st, p, cont, false, n1);
        if r is Ok {
            lemma_unemitted_settled(st.emit, st1.emit);
            lemma_fwds_params_any_bound(env, st1, id, k + 1, cont, n1, n2);
            lemma_settled_trans(
                st.emit,
                st1.emit,
                fwds_params_spec(env, st1, id, k + 1, cont, n1).1.emit,
            );
        }
    }
}

/// Whether every anonymous struct or union whose forward pass is under way
/// was entered with a rank above `bound`.
pub open spec fn emitting_above(env: Env, r: WalkRanks, st: DumpSt, bound: nat) -> bool {
    forall|c: int|
        0 <= c < env.len() && #[trigger] st.emit[c] == EmitState::Emitting && is_composite(
            env.node(c),
        ) && !is_named_composite(env.node(c)) ==> visiting_floor(&env.btf, r, c) > bound
}

/// Whether the forward pass of the same types is under way in both states.
pub open spec fn same_emitting(before: DumpSt, after: DumpSt) -> bool {
    forall|x: int|
        0 <= x < before.emit.len() ==> (#[trigger] after.emit[x] == EmitState::Emitting
            <==> before.emit[x] == EmitState::Emitting)
}

/// Where ranks show that the walk meets no cycle, a forward pass succeeds,
/// and leaves under way what was.
pub proof fn lemma_fwds_succeeds(
    env: Env,
    r: WalkRanks,
    st: DumpSt,
    id: int,
    cont: int,
    is_def: bool,
    nest: nat,
    has_ptr: bool,
)
    requires
        env.linked(),
        walk_ranked(&env.btf, r),
        0 <= id < env.len(),
        st.emit.len() == env.len(),
        unemitted(st.emit) <= nest,
        emitting_above(env, r, st, walk_rank(r, id, has_ptr)),
        is_def ==> !has_ptr,
    ensures
        fwds_spec(env, st, id, cont, is_def, nest).0 is Ok,
        same_emitting(st, fwds_spec(env, st, id, cont, is_def, nest).1),
        settled(st.emit, fwds_spec(env, st, id, cont, is_def, nest).1.emit),
    decreases nest, 0nat, env.depth(id), 2nat, 0nat,
{
    let btf = &env.btf;
    assert(refs_below(btf@[id], btf@.len()));
    assert(refs_descend(btf@[id], btf.depths(), btf.depths()[id]));
    assert(walk_descends(btf, r, id));
    match st.emit[id] {
        EmitState::NotEmitted => {
            match env.node(id) {
                BtfType::Volatile(t) => {
                    lemma_fwds_succeeds(env, r, st, t.type_id as int, cont, false, nest, has_ptr);
                },
                BtfType::Const(t) => {
                    lemma_fwds_succeeds(env, r, st, t.type_id as int, cont, false, nest, has_ptr);
                },
                BtfType::Restrict(t) => {
                    lemma_fwds_succeeds(env, r, st, t.type_id as int, cont, false, nest, has_ptr);
                },
                BtfType::Ptr(t) => {
                    lemma_fwds_succeeds(env, r, st, t.type_id as int, cont, false, nest, true);
                },
                BtfType::Array(t) => {
                    lemma_fwds_succeeds(
                        env,
                        r,
                        st,
                        t.val_type_id as int,
                        cont,
                        false,
                        nest,
                        has_ptr,
                    );
                },
                BtfType::FuncProto(t) => {
                    lemma_fwds_succeeds(
                        env,
                        r,
                        st,
                        t.res_type_id as int,
                        cont,
                        false,
                        nest,
                        has_ptr,
                    );
                    let st1 = fwds_spec(env, st, t.res_type_id as int, cont, false, nest).1;
                    lemma_unemitted_settled(st.emit, st1.emit);
                    assert forall|c: int|
                        0 <= c < env.len() && #[trigger] st1.emit[c] == EmitState::Emitting
                            && is_composite(env.node(c)) && !is_named_composite(
                            env.node(c),
                        ) implies visiting_floor(btf, r, c) > walk_rank(r, id, has_ptr) by {
                        assert(st.emit[c] == EmitState::Emitting);
                    }
                    lemma_fwds_params_succeed(env, r, st1, id, 0, cont, nest, has_ptr);
                    let st2 = fwds_params_spec(env, st1, id, 0, cont, nest).1;
                    lemma_settled_trans(st.emit, st1.emit, st2.emit);
                    assert forall|x: int| 0 <= x < st.emit.len() implies (#[trigger] st2.emit[x]
                        == EmitState::Emitting <==> st.emit[x] == EmitState::Emitting) by {
                        assert(st1.emit[x] == EmitState::Emitting <==> st.emit[x]
                            == EmitState::Emitting);
                    }
                },
                BtfType::Struct(_) | BtfType::Union(_) => {
                    lemma_unemitted_positive(st.emit, id);
                    let named = is_named_composite(env.node(id));
                    let st1 = with_emit(st, id, EmitState::Emitting);
                    lemma_unemitted_after_mark(st.emit, id, EmitState::Emitting);
                    let last = fwds_spec(env, st, id, cont, is_def, nest).1;
                    if is_def || !named {
                        let inner_cont = if named {
                            id
                        } else {
                            cont
                        };
                        assert forall|j: int|
                            0 <= j < members_of(env.node(id)).len() implies emitting_above(
                            env,
                            r,
                            st1,
                            r.embedded[(#[trigger] members_of(env.node(id))[j]).type_id as int],
                        ) by {
                            let m = members_of(env.node(id))[j].type_id as int;
                            assert forall|c: int|
                                0 <= c < env.len() && #[trigger] st1.emit[c]
                                    == EmitState::Emitting && is_composite(env.node(c))
                                    && !is_named_composite(env.node(c)) implies visiting_floor(
                                btf,
                                r,
                                c,
                            ) > r.embedded[m] by {
                                if c != id {
                                    assert(st.emit[c] == EmitState::Emitting);
                                }
                            }
                        }
                        lemma_fwds_members_succeed(
                            env,
                            r,
                            st1,
                            id,
                            0,
                            inner_cont,
                            (nest - 1) as nat,
                        );
                        let st2 = fwds_members_spec(env, st1, id, 0, inner_cont, (nest - 1) as nat).1;
                        assert forall|j: int|
                            0 <= j < st.emit.len() && st.emit[j]
                                != EmitState::NotEmitted implies #[trigger] last.emit[j]
                            != EmitState::NotEmitted by {
                            assert(st1.emit[j] != EmitState::NotEmitted);
                            assert(st2.emit[j] != EmitState::NotEmitted);
                        }
                        assert forall|x: int| 0 <= x < st.emit.len() implies (
                        #[trigger] last.emit[x] == EmitState::Emitting <==> st.emit[x]
                            == EmitState::Emitting) by {
                            if x != id {
                                assert(st2.emit[x] == EmitState::Emitting <==> st1.emit[x]
                                    == EmitState::Emitting);
                            }
                        }
                    }
                },
                BtfType::Typedef(t) => {
                    lemma_unemitted_positive(st.emit, id);
                    let st1 = with_emit(st, id, EmitState::Emitting);
                    lemma_unemitted_after_mark(st.emit, id, EmitState::Emitting);
                    assert forall|c: int|
                        0 <= c < env.len() && #[trigger] st1.emit[c] == EmitState::Emitting
                            && is_composite(env.node(c)) && !is_named_composite(
                            env.node(c),
                        ) implies visiting_floor(btf, r, c) > walk_rank(
                        r,
                        t.type_id as int,
                        has_ptr,
                    ) by {
                        assert(st.emit[c] == EmitState::Emitting);
                    }
                    lemma_fwds_succeeds(
                        env,
                        r,
                        st1,
                        t.type_id as int,
                        id,
                        false,
                        (nest - 1) as nat,
                        has_ptr,
                    );
                    let st2 = fwds_spec(env, st1, t.type_id as int, id, false, (nest - 1) as nat).1;
                    let last = fwds_spec(env, st, id, cont, is_def, nest).1;
                    assert forall|j: int|
                        0 <= j < st.emit.len() && st.emit[j]
                            != EmitState::NotEmitted implies #[trigger] last.emit[j]
                        != EmitState::NotEmitted by {
                        assert(st1.emit[j] != EmitState::NotEmitted);
                        assert(st2.emit[j] != EmitState::NotEmitted);
                    }
                    assert forall|x: int| 0 <= x < st.emit.len() implies (#[trigger] last.emit[x]
                        == EmitState::Emitting <==> st.emit[x] == EmitState::Emitting) by {
                        if x != id {
                            assert(st2.emit[x] == EmitState::Emitting <==> st1.emit[x]
                                == EmitState::Emitting);
                        }
                    }
                },
                _ => {},
            }
        },
        _ => {},
    }
}

/// Where ranks show that the walk meets no cycle, the forward pass over
/// the members of `id` succeeds.
pub proof fn lemma_fwds_members_succeed(
    env: Env,
    r: WalkRanks,
    st: DumpSt,
    id: int,
    k: nat,
    cont: int,
    nest: nat,
)
    requires
        env.linked(),
        walk_ranked(&env.btf, r),
        0 <= id < env.len(),
        st.emit.len() == env.len(),
        unemitted(st.emit) <= nest,
        forall|j: int|
            0 <= j < members_of(env.node(id)).len() ==> emitting_above(
                env,
                r,
                st,
                r.embedded[(#[trigger] members_of(env.node(id))[j]).type_id as int],
            ),
    ensures
        fwds_members_spec(env, st, id, k, cont, nest).0 is Ok,
        same_emitting(st, fwds_members_spec(env, st, id, k, cont, nest).1),
        settled(st.emit, fwds_members_spec(env, st, id, k, cont, nest).1.emit),
    decreases nest, 1nat, 0nat, 0nat, members_of(env.node(id)).len() - k,
{
    let btf = &env.btf;
    let members = members_of(env.node(id));
    assert(refs_below(btf@[id], btf@.len()));
    if k < members.len() {
        let m = members[k as int].type_id as int;
        assert(0 <= m < env.len());
        assert(emitting_above(env, r, st, r.embedded[members[k as int].type_id as int]));
        lemma_fwds_succeeds(env, r, st, m, cont, false, nest, false);
        let st1 = fwds_spec(env, st, m, cont, false, nest).1;
        lemma_unemitted_settled(st.emit, st1.emit);
        assert forall|j: int| 0 <= j < members.len() implies emitting_above(
            env,
            r,
            st1,
            r.embedded[(#[trigger] members[j]).type_id as int],
        ) by {
            assert(emitting_above(env, r, st, r.embedded[members[j].type_id as int]));
            assert forall|c: int|
                0 <= c < env.len() && #[trigger] st1.emit[c] == EmitState::Emitting
                    && is_composite(env.node(c)) && !is_named_composite(
                    env.node(c),
                ) implies visiting_floor(btf, r, c) > r.embedded[members[j].type_id as int] by {
                assert(st.emit[c] == EmitState::Emitting);
            }
        }
        lemma_fwds_members_succeed(env, r, st1, id, k + 1, cont, nest);
        let st2 = fwds_members_spec(env, st1, id, k + 1, cont, nest).1;
        lemma_settled_trans(st.emit, st1.emit, st2.emit);
        assert forall|x: int| 0 <= x < st.emit.len() implies (#[trigger] st2.emit[x]
            == EmitState::Emitting <==> st.emit[x] == EmitState::Emitting) by {
            assert(st1.emit[x] == EmitState::Emitting <==> st.emit[x] == EmitState::Emitting);
        }
    }
}

/// Where ranks show that the walk meets no cycle, the forward pass over
/// the parameters of `id` succeeds.
pub proof fn lemma_fwds_params_succeed(
    env: Env,
    r: WalkRanks,
    st: DumpSt,
    id: int,
    k: nat,
    cont: int,
    nest: nat,
    has_ptr: bool,
)
    requires
        env.linked(),
        walk_ranked(&env.btf, r),
        0 <= id < env.len(),
        st.emit.len() == env.len(),
        unemitted(st.emit) <= nest,
        emitting_above(env, r, st, walk_rank(r, id, has_ptr)),
    ensures
        fwds_params_spec(env, st, id, k, cont, nest).0 is Ok,
        same_emitting(st, fwds_params_spec(env, st, id, k, cont, nest).1),
        settled(st.emit, fwds_params_spec(env, st, id, k, cont, nest).1.emit),
    decreases nest, 0nat, env.depth(id), 1nat, params_of(env.node(id)).len() - k,
{
    let btf = &env.btf;
    let params = params_of(env.node(id));
    assert(refs_below(btf@[id], btf@.len()));
    assert(refs_descend(btf@[id], btf.depths(), btf.depths()[id]));
    assert(walk_descends(btf, r, id));
    if k < params.len() {
        let f = env.node(id)->FuncProto_0;
        assert(params[k as int] == f.params@[k as int].type_id);
        let p = params[k as int] as int;
        assert(crate::order_laws::no_higher(r, f.params@[k as int].type_id as int, id));
        lemma_fwds_succeeds(env, r, st, p, cont, false, nest, has_ptr);
        let st1 = fwds_spec(env, st, p, cont, false, nest).1;
        lemma_unemitted_settled(st.emit, st1.emit);
        assert forall|c: int|
            0 <= c < env.len() && #[trigger] st1.emit[c] == EmitState::Emitting && is_composite(
                env.node(c),
            ) && !is_named_composite(env.node(c)) implies visiting_floor(btf, r, c) > walk_rank(
            r,
            id,
            has_ptr,
        ) by {
            assert(st.emit[c] == EmitState::Emitting);
        }
        lemma_fwds_params_succeed(env, r, st1, id, k + 1, cont, nest, has_ptr);
        let st2 = fwds_params_spec(env, st1, id, k + 1, cont, nest).1;
        lemma_settled_trans(st.emit, st1.emit, st2.emit);
        assert forall|x: int| 0 <= x < st.emit.len() implies (#[trigger] st2.emit[x]
            == EmitState::Emitting <==> st.emit[x] == EmitState::Emitting) by {
            assert(st1.emit[x] == EmitState::Emitting <==> st.emit[x] == EmitState::Emitting);
        }
    }
}

/// Where ranks show that the walk meets no cycle, writing the entries of
/// the order from the `k`-th on succeeds.
pub proof fn lemma_emit_ordered_succeeds(
    env: Env,
    r: WalkRanks,
    order: Seq<u32>,
    st: DumpSt,
    k: nat,
)
    requires
        env.linked(),
        walk_ranked(&env.btf, r),
        st.emit.len() == env.len(),
        none_emitting(env, st),
        crate::order::ids_below(order, env.len()),
    ensures
        crate::pass::emit_ordered_spec(env, order, st, k).0 is Ok,
    decreases order.len() - k,
{
    if k < order.len() {
        let id = order[k as int] as int;
        if is_named_definition(env.node(id)) {
            crate::pass::lemma_unemitted_bound(st.emit);
            lemma_fwds_succeeds(env, r, st, id, id, true, env.len(), false);
            let st1 = fwds_spec(env, st, id, id, true, env.len()).1;
            assert forall|x: int| 0 <= x < env.len() implies #[trigger] st1.emit[x]
                != EmitState::Emitting by {
                assert(st.emit[x] != EmitState::Emitting);
            }
            let st2 = def_spec(env, st1, id).1;
            assert forall|x: int| 0 <= x < env.len() implies #[trigger] st2.emit[x]
                != EmitState::Emitting by {
                assert(st1.emit[x] != EmitState::Emitting);
            }
            lemma_emit_ordered_succeeds(env, r, order, st2, k + 1);
        } else {
            lemma_emit_ordered_succeeds(env, r, order, st, k + 1);
        }
    }
}

/// Success is owed where there is no cycle: where ranks show that the walk
/// meets none, a dump from a fresh state succeeds, whatever is selected.
pub proof fn law_dump_succeeds_without_cycles(env: Env, r: WalkRanks, accepted: Seq<bool>)
    requires
        env.btf.wf(),
        walk_ranked(&env.btf, r),
    ensures
        crate::pass::dump_spec(env, accepted, crate::c_dumper::fresh_state(env.len())).0 is Ok,
{
    let start = crate::c_dumper::fresh_state(env.len());
    let ost = crate::order::OrderSt { states: start.states, order: Seq::empty() };
    assert(ost == crate::order_laws::fresh_order(env.len()));
    crate::order_laws::lemma_fresh_order_inv(&env.btf);
    crate::order_laws::lemma_order_roots(env, accepted, ost, 0);
    crate::order_laws::law_ordering_succeeds_without_cycles(env, r, accepted);
    let ordered = crate::pass::order_roots_spec(env, accepted, ost, 0).1;
    lemma_emit_ordered_succeeds(env, r, ordered.order, start.dump, 0);
}

} // verus!
