//! What a dump writes: the forward-declaration pass and the definition of
//! each ordered type, as functions from state to state.
use vstd::prelude::*;
use crate::decl::decl_text;
use crate::decl::enum_def_text;
use crate::decl::fwd_def_text;
use crate::decl::struct_def_text;
use crate::decl::struct_fwd_text;
use crate::decl::typedef_def_text;
use crate::decl::union_def_text;
use crate::decl::union_fwd_text;
use crate::decl::Env;
use crate::error::BtfErrorKind;
use crate::names::Names;
use crate::order::is_named_composite;
use crate::order::is_named_definition;
use crate::order::members_of;
use crate::order::order_type_spec;
use crate::order::params_of;
use crate::order::OrderSt;
use crate::order::OrderState;
use crate::types::BtfType;

verus! {

/// Where emission stands with a type: nothing written, its forward pass
/// under way, or written.
#[derive(Debug, Clone, Copy, PartialEq, Eq, Structural)]
pub enum EmitState {
    NotEmitted,
    Emitting,
    Emitted,
}

/// A declaration at the top level of the output: the forward declaration
/// of a struct or union, or the definition of a type.
pub enum Decl {
    Forward(u32),
    Definition(u32),
}

/// The state of emission: where it stands with each type, for which types
/// a forward declaration (for a typedef: its definition) has been written,
/// the state of name resolution, everything written so far, and the
/// declarations that were written at the top level, in their order.
pub struct DumpSt {
    pub emit: Seq<EmitState>,
    pub fwd: Seq<bool>,
    pub names: Names,
    pub out: Seq<char>,
    pub log: Seq<Decl>,
}

/// What ends every declaration at the top level.
pub open spec fn terminator() -> Seq<char> {
    ";\n\n"@
}

/// The state with the emission state of `id` set to `s`.
pub open spec fn with_emit(st: DumpSt, id: int, s: EmitState) -> DumpSt {
    DumpSt { emit: st.emit.update(id, s), fwd: st.fwd, names: st.names, out: st.out, log: st.log }
}

/// The state after writing `result`'s text, followed by the terminator if
/// `terminated`, with the names that `result` leaves.
pub open spec fn written(st: DumpSt, result: (Seq<char>, Names), terminated: bool) -> DumpSt {
    DumpSt {
        emit: st.emit,
        fwd: st.fwd,
        names: result.1,
        out: st.out + result.0 + (if terminated {
            terminator()
        } else {
            Seq::empty()
        }),
        log: st.log,
    }
}

/// The state with `decl` recorded as written, if it was.
pub open spec fn logged(st: DumpSt, decl: Decl, present: bool) -> DumpSt {
    DumpSt {
        emit: st.emit,
        fwd: st.fwd,
        names: st.names,
        out: st.out,
        log: if present {
            st.log.push(decl)
        } else {
            st.log
        },
    }
}

/// The state with `id` recorded as forward-declared.
pub open spec fn with_fwd(st: DumpSt, id: int) -> DumpSt {
    DumpSt {
        emit: st.emit,
        fwd: st.fwd.update(id, true),
        names: st.names,
        out: st.out,
        log: st.log,
    }
}

/// The state after the forward declaration of the struct or union `id`:
/// `struct name;` or `union name;`, unless the name is left out, and `id`
/// recorded as forward-declared either way.
pub open spec fn composite_fwd(env: Env, st: DumpSt, id: int) -> DumpSt {
    let (printed, text, names) = if env.node(id) is Union {
        union_fwd_text(env, st.names, id)
    } else {
        struct_fwd_text(env, st.names, id)
    };
    with_fwd(logged(written(st, (text, names), printed), Decl::Forward(id as u32), printed), id)
}

/// The state after writing the definition of the typedef `id` where a
/// forward declaration is needed: a typedef only introduces a name, so its
/// definition can serve as one. If the typedef is left out, no terminator
/// is written either.
pub open spec fn typedef_fwd(env: Env, st: DumpSt, id: int) -> DumpSt {
    with_fwd(
        defined(env, written(st, typedef_def_text(env, st.names, id, 0), !env.skip[id]), id),
        id,
    )
}

/// The state with the definition of `id` recorded as written, unless `id`
/// is left out.
pub open spec fn defined(env: Env, st: DumpSt, id: int) -> DumpSt {
    logged(st, Decl::Definition(id as u32), !env.skip[id])
}

/// The forward pass for the type `id`, met while the forward pass of the
/// named struct, union or typedef `cont_id` is under way; `is_def` says
/// that `id` is the type whose definition is about to be written. The
/// result is the id of an anonymous struct or union that would need a
/// forward declaration, if one was met, and the state afterwards.
///
/// `nest` bounds how deep structs, unions and typedefs are entered; with a
/// bound of at least the number of types not yet emitted it is never met.
pub open spec fn fwds_spec(
    env: Env,
    st: DumpSt,
    id: int,
    cont_id: int,
    is_def: bool,
    nest: nat,
) -> (Result<(), u32>, DumpSt)
    decreases nest, 0nat, env.depth(id), 2nat, 0nat,
    when env.linked() && 0 <= id < env.len()
{
    match st.emit[id] {
        EmitState::Emitted => (Ok(()), st),
        EmitState::Emitting => match env.node(id) {
            BtfType::Struct(_) | BtfType::Union(_) => if st.fwd[id] || id == cont_id {
                (Ok(()), st)
            } else if is_named_composite(env.node(id)) {
                (Ok(()), composite_fwd(env, st, id))
            } else {
                (Err(id as u32), st)
            },
            BtfType::Typedef(_) => if st.fwd[id] {
                (Ok(()), st)
            } else {
                (Ok(()), typedef_fwd(env, st, id))
            },
            _ => (Ok(()), st),
        },
        EmitState::NotEmitted => match env.node(id) {
            BtfType::Volatile(t) => fwds_spec(env, st, t.type_id as int, cont_id, false, nest),
            BtfType::Const(t) => fwds_spec(env, st, t.type_id as int, cont_id, false, nest),
            BtfType::Restrict(t) => fwds_spec(env, st, t.type_id as int, cont_id, false, nest),
            BtfType::Ptr(t) => fwds_spec(env, st, t.type_id as int, cont_id, false, nest),
            BtfType::Array(t) => fwds_spec(env, st, t.val_type_id as int, cont_id, false, nest),
            BtfType::FuncProto(t) => {
                let (r, st1) = fwds_spec(env, st, t.res_type_id as int, cont_id, false, nest);
                match r {
                    Err(e) => (Err(e), st1),
                    Ok(_) => fwds_params_spec(env, st1, id, 0, cont_id, nest),
                }
            },
            BtfType::Struct(_) | BtfType::Union(_) => {
                if nest == 0 {
                    (Ok(()), st)
                } else {
                    let named = is_named_composite(env.node(id));
                    let st1 = with_emit(st, id, EmitState::Emitting);
                    let (r, st2) = if is_def || !named {
                        fwds_members_spec(
                            env,
                            st1,
                            id,
                            0,
                            if named {
                                id
                            } else {
                                cont_id
                            },
                            (nest - 1) as nat,
                        )
                    } else if !st1.fwd[id] && id != cont_id {
                        (Ok(()), composite_fwd(env, st1, id))
                    } else {
                        (Ok(()), st1)
                    };
                    match r {
                        Err(e) => (Err(e), st2),
                        Ok(_) => (Ok(()), with_emit(st2, id, EmitState::NotEmitted)),
                    }
                }
            },
            BtfType::Enum(t) => {
                let st1 = if t.name@.len() != 0 {
                    defined(
                        env,
                        written(st, enum_def_text(env, st.names, id, 0), !env.skip[id]),
                        id,
                    )
                } else {
                    st
                };
                (Ok(()), with_emit(st1, id, EmitState::Emitted))
            },
            BtfType::Fwd(_) => (
                Ok(()),
                with_emit(
                    defined(
                        env,
                        written(
                            st,
                            decl_text(env, st.names, id, Seq::empty(), 0),
                            !env.skip[id],
                        ),
                        id,
                    ),
                    id,
                    EmitState::Emitted,
                ),
            ),
            BtfType::Typedef(t) => {
                if nest == 0 {
                    (Ok(()), st)
                } else {
                    let (r, st1) = fwds_spec(
                        env,
                        with_emit(st, id, EmitState::Emitting),
                        t.type_id as int,
                        id,
                        false,
                        (nest - 1) as nat,
                    );
                    match r {
                        Err(e) => (Err(e), st1),
                        Ok(_) => (
                            Ok(()),
                            with_emit(
                                if st1.fwd[id] {
                                    st1
                                } else {
                                    typedef_fwd(env, st1, id)
                                },
                                id,
                                EmitState::Emitted,
                            ),
                        ),
                    }
                }
            },
            _ => (Ok(()), st),
        },
    }
}

/// The forward pass for the parameters of the function prototype `id` from
/// the `k`-th on.
pub open spec fn fwds_params_spec(env: Env, st: DumpSt, id: int, k: nat, cont_id: int, nest: nat) -> (
    Result<(), u32>,
    DumpSt,
)
    decreases nest, 0nat, env.depth(id), 1nat, params_of(env.node(id)).len() - k,
    when env.linked() && 0 <= id < env.len()
{
    let params = params_of(env.node(id));
    if k >= params.len() {
        (Ok(()), st)
    } else {
        let (r, st1) = fwds_spec(env, st, params[k as int] as int, cont_id, false, nest);
        match r {
            Err(e) => (Err(e), st1),
            Ok(_) => fwds_params_spec(env, st1, id, k + 1, cont_id, nest),
        }
    }
}

/// The forward pass for the types of the members of the struct or union
/// `id` from the `k`-th on.
pub open spec fn fwds_members_spec(env: Env, st: DumpSt, id: int, k: nat, cont_id: int, nest: nat) -> (
    Result<(), u32>,
    DumpSt,
)
    decreases nest, 1nat, 0nat, 0nat, members_of(env.node(id)).len() - k,
    when env.linked() && 0 <= id < env.len()
{
    let members = members_of(env.node(id));
    if k >= members.len() {
        (Ok(()), st)
    } else {
        let (r, st1) = fwds_spec(env, st, members[k as int].type_id as int, cont_id, false, nest);
        match r {
            Err(e) => (Err(e), st1),
            Ok(_) => fwds_members_spec(env, st1, id, k + 1, cont_id, nest),
        }
    }
}

/// Writes the definition of the named definition `id` and its terminator,
/// unless it has been written or is left out: the kind and id of the error
/// if `id` is in the middle of its forward pass or is no named definition,
/// and the state afterwards.
pub open spec fn def_spec(env: Env, st: DumpSt, id: int) -> (Result<(), (BtfErrorKind, u32)>, DumpSt) {
    match st.emit[id] {
        EmitState::Emitted => (Ok(()), st),
        EmitState::Emitting => (Err((BtfErrorKind::DefinitionLoop, id as u32)), st),
        EmitState::NotEmitted => {
            if !is_named_definition(env.node(id)) {
                (Err((BtfErrorKind::UnexpectedDefinition, id as u32)), st)
            } else {
                let st1 = match env.node(id) {
                    BtfType::Struct(_) => defined(
                        env,
                        written(st, struct_def_text(env, st.names, id, 0), !env.skip[id]),
                        id,
                    ),
                    BtfType::Union(_) => defined(
                        env,
                        written(st, union_def_text(env, st.names, id, 0), !env.skip[id]),
                        id,
                    ),
                    BtfType::Enum(_) => defined(
                        env,
                        written(st, enum_def_text(env, st.names, id, 0), !env.skip[id]),
                        id,
                    ),
                    BtfType::Fwd(_) => defined(
                        env,
                        written(st, fwd_def_text(env, st.names, id), !env.skip[id]),
                        id,
                    ),
                    _ => if st.fwd[id] {
                        st
                    } else {
                        defined(
                            env,
                            written(st, typedef_def_text(env, st.names, id, 0), !env.skip[id]),
                            id,
                        )
                    },
                };
                (Ok(()), with_emit(st1, id, EmitState::Emitted))
            }
        },
    }
}

/// The number of types of which nothing has been written.
pub open spec fn unemitted(emit: Seq<EmitState>) -> nat
    decreases emit.len(),
{
    if emit.len() == 0 {
        0
    } else {
        unemitted(emit.drop_last()) + if emit.last() == EmitState::NotEmitted {
            1nat
        } else {
            0nat
        }
    }
}

/// Emission does not go back behind a mark: what was under way or written
/// is not found untouched afterwards.
pub open spec fn settled(before: Seq<EmitState>, after: Seq<EmitState>) -> bool {
    &&& after.len() == before.len()
    &&& forall|j: int|
        0 <= j < before.len() && before[j] != EmitState::NotEmitted ==> #[trigger] after[j]
            != EmitState::NotEmitted
}

/// Marking an untouched type leaves one untouched type less.
pub proof fn lemma_unemitted_after_mark(emit: Seq<EmitState>, id: int, s: EmitState)
    requires
        0 <= id < emit.len(),
        emit[id] == EmitState::NotEmitted,
        s != EmitState::NotEmitted,
    ensures
        unemitted(emit.update(id, s)) + 1 == unemitted(emit),
    decreases emit.len(),
{
    let after = emit.update(id, s);
    if id == emit.len() - 1 {
        assert(after.drop_last() =~= emit.drop_last());
    } else {
        lemma_unemitted_after_mark(emit.drop_last(), id, s);
        assert(after.drop_last() =~= emit.drop_last().update(id, s));
    }
}

/// Emission that does not go back leaves no more types untouched.
pub proof fn lemma_unemitted_settled(before: Seq<EmitState>, after: Seq<EmitState>)
    requires
        settled(before, after),
    ensures
        unemitted(after) <= unemitted(before),
    decreases before.len(),
{
    if before.len() > 0 {
        assert(settled(before.drop_last(), after.drop_last())) by {
            assert forall|j: int|
                0 <= j < before.drop_last().len() && before.drop_last()[j]
                    != EmitState::NotEmitted implies #[trigger] after.drop_last()[j]
                != EmitState::NotEmitted by {
                assert(after[j] != EmitState::NotEmitted);
            }
        }
        lemma_unemitted_settled(before.drop_last(), after.drop_last());
        assert(after[before.len() - 1] == after.last());
    }
}

/// No more types are untouched than there are types.
pub proof fn lemma_unemitted_bound(emit: Seq<EmitState>)
    ensures
        unemitted(emit) <= emit.len(),
    decreases emit.len(),
{
    if emit.len() > 0 {
        lemma_unemitted_bound(emit.drop_last());
    }
}

/// Orders the named definitions among the types from `id` on that
/// `accepted` selects, each as a root of the walk: the id on which an
/// unsatisfiable cycle closed, if one did, and the state of the walk
/// afterwards.
pub open spec fn order_roots_spec(env: Env, accepted: Seq<bool>, st: OrderSt, id: nat) -> (
    Result<(), u32>,
    OrderSt,
)
    decreases env.len() - id,
{
    if id >= env.len() {
        (Ok(()), st)
    } else if is_named_definition(env.node(id as int)) && accepted[id as int] {
        let (r, st1) = order_type_spec(&env.btf, st, id as int, false, env.len());
        match r {
            Err(e) => (Err(e), st1),
            Ok(_) => order_roots_spec(env, accepted, st1, id + 1),
        }
    } else {
        order_roots_spec(env, accepted, st, id + 1)
    }
}

/// Writes the entries of `order` from the `k`-th on: for each that is a
/// named definition, its forward pass and then its definition.
pub open spec fn emit_ordered_spec(env: Env, order: Seq<u32>, st: DumpSt, k: nat) -> (
    Result<(), (BtfErrorKind, u32)>,
    DumpSt,
)
    decreases order.len() - k,
{
    if k >= order.len() {
        (Ok(()), st)
    } else {
        let id = order[k as int] as int;
        if is_named_definition(env.node(id)) {
            let (r, st1) = fwds_spec(env, st, id, id, true, env.len());
            match r {
                Err(e) => (Err((BtfErrorKind::AnonymousLoop, e)), st1),
                Ok(_) => {
                    let (r2, st2) = def_spec(env, st1, id);
                    match r2 {
                        Err(e) => (Err(e), st2),
                        Ok(_) => emit_ordered_spec(env, order, st2, k + 1),
                    }
                },
            }
        } else {
            emit_ordered_spec(env, order, st, k + 1)
        }
    }
}

/// The whole state of a dumper: the walk that orders, and emission.
pub struct DumperSt {
    pub states: Seq<OrderState>,
    pub dump: DumpSt,
}

/// A dump of the named definitions that `accepted` selects: they are
/// ordered, then the order is written. The result is the kind and id of
/// the error if there was one, and the state afterwards. The order found is
/// not kept.
pub open spec fn dump_spec(env: Env, accepted: Seq<bool>, st: DumperSt) -> (
    Result<(), (BtfErrorKind, u32)>,
    DumperSt,
) {
    let (r, ost) = order_roots_spec(
        env,
        accepted,
        OrderSt { states: st.states, order: Seq::empty() },
        0,
    );
    match r {
        Err(e) => (
            Err((BtfErrorKind::UnsatisfiableCycle, e)),
            DumperSt { states: ost.states, dump: st.dump },
        ),
        Ok(_) => {
            let (r2, dst) = emit_ordered_spec(env, ost.order, st.dump, 0);
            (r2, DumperSt { states: ost.states, dump: dst })
        },
    }
}

} // verus!
