//! The dependency order of definitions: a depth-first walk that appends a
//! definition after everything it embeds, and treats what is only pointed
//! to as something a forward declaration can satisfy.
use vstd::prelude::*;
use crate::btf::linked;
use crate::btf::refs_below;
use crate::btf::refs_descend;
use crate::btf::Btf;
use crate::error::error_about;
use crate::error::BtfError;
use crate::error::BtfErrorKind;
use crate::types::BtfFuncProto;
use crate::types::BtfMember;
use crate::types::BtfType;

verus! {

/// Where the walk stands with a type: not seen as a definition yet, being
/// walked, or done.
#[derive(Debug, Clone, Copy, PartialEq, Eq, Structural)]
pub enum OrderState {
    NotOrdered,
    Visiting,
    Ordered,
}

/// The state of the walk: where it stands with each type, and the order
/// found so far.
pub struct OrderSt {
    pub states: Seq<OrderState>,
    pub order: Seq<u32>,
}

/// Whether `t` is a struct or union with a name.
pub open spec fn is_named_composite(t: BtfType) -> bool {
    match t {
        BtfType::Struct(s) => s.name@.len() != 0,
        BtfType::Union(u) => u.name@.len() != 0,
        _ => false,
    }
}

/// The members of a struct or union; none for other nodes.
pub open spec fn members_of(t: BtfType) -> Seq<BtfMember> {
    match t {
        BtfType::Struct(s) => s.members@,
        BtfType::Union(u) => u.members@,
        _ => Seq::empty(),
    }
}

/// Whether `t` is a definition that can stand on its own: a struct, union,
/// enum, forward declaration or typedef.
pub open spec fn is_definition(t: BtfType) -> bool {
    t is Struct || t is Union || t is Enum || t is Fwd || t is Typedef
}

/// Whether `t` is a definition with a name.
pub open spec fn is_named_definition(t: BtfType) -> bool {
    is_definition(t) && t.spec_name().len() != 0
}

/// The state with `id` set to `s`.
pub open spec fn marked(st: OrderSt, id: int, s: OrderState) -> OrderSt {
    OrderSt { states: st.states.update(id, s), order: st.order }
}

/// The state with `id` done and appended to the order.
pub open spec fn appended(st: OrderSt, id: int) -> OrderSt {
    OrderSt { states: st.states.update(id, OrderState::Ordered), order: st.order.push(id as u32) }
}

/// Orders the type `id`, reached through a pointer or not: whether a
/// definition was found that the caller can rely on being in the order (or
/// the id on which an unsatisfiable cycle closed), and the state afterwards.
///
/// `nest` bounds how deep structs and unions are entered. Each one entered
/// is marked first, so with a bound of at least the number of unmarked
/// types the bound is never met.
pub open spec fn order_type_spec(btf: &Btf, st: OrderSt, id: int, has_ptr: bool, nest: nat) -> (
    Result<bool, u32>,
    OrderSt,
)
    decreases nest, 0nat, btf.depths()[id], 2nat, 0nat,
    when linked(btf@, btf.depths()) && 0 <= id < btf@.len()
{
    match st.states[id] {
        OrderState::Ordered => (Ok(true), st),
        OrderState::Visiting => if has_ptr && is_named_composite(btf@[id]) {
            (Ok(false), st)
        } else {
            (Err(id as u32), st)
        },
        OrderState::NotOrdered => match btf@[id] {
            BtfType::Volatile(t) => order_type_spec(btf, st, t.type_id as int, has_ptr, nest),
            BtfType::Const(t) => order_type_spec(btf, st, t.type_id as int, has_ptr, nest),
            BtfType::Restrict(t) => order_type_spec(btf, st, t.type_id as int, has_ptr, nest),
            BtfType::Ptr(t) => order_type_spec(btf, st, t.type_id as int, true, nest),
            BtfType::Array(t) => order_type_spec(btf, st, t.val_type_id as int, has_ptr, nest),
            BtfType::FuncProto(t) => {
                let (r, st1) = order_type_spec(btf, st, t.res_type_id as int, has_ptr, nest);
                match r {
                    Err(e) => (Err(e), st1),
                    Ok(strong) => order_params_spec(btf, st1, id, 0, has_ptr, strong, nest),
                }
            },
            BtfType::Struct(_) | BtfType::Union(_) => {
                if (!has_ptr || !is_named_composite(btf@[id])) && nest > 0 {
                    let (r, st1) = order_members_spec(
                        btf,
                        marked(st, id, OrderState::Visiting),
                        id,
                        0,
                        (nest - 1) as nat,
                    );
                    match r {
                        Err(e) => (Err(e), st1),
                        Ok(_) => (
                            Ok(true),
                            if is_named_composite(btf@[id]) {
                                appended(st1, id)
                            } else {
                                marked(st1, id, OrderState::Ordered)
                            },
                        ),
                    }
                } else {
                    (Ok(false), st)
                }
            },
            BtfType::Enum(_) | BtfType::Fwd(_) => (Ok(true), appended(st, id)),
            BtfType::Typedef(t) => {
                let (r, st1) = order_type_spec(btf, st, t.type_id as int, has_ptr, nest);
                match r {
                    Err(e) => (Err(e), st1),
                    Ok(strong) => if !has_ptr || strong {
                        (Ok(true), appended(st1, id))
                    } else {
                        (Ok(false), st1)
                    },
                }
            },
            _ => (Ok(false), st),
        },
    }
}

/// Orders the parameters of the function prototype `id` from the `k`-th
/// on. The result is strong if `strong` is, or if a parameter's is.
pub open spec fn order_params_spec(
    btf: &Btf,
    st: OrderSt,
    id: int,
    k: nat,
    has_ptr: bool,
    strong: bool,
    nest: nat,
) -> (Result<bool, u32>, OrderSt)
    decreases nest, 0nat, btf.depths()[id], 1nat, params_of(btf@[id]).len() - k,
    when linked(btf@, btf.depths()) && 0 <= id < btf@.len()
{
    let params = params_of(btf@[id]);
    if k >= params.len() {
        (Ok(strong), st)
    } else {
        let (r, st1) = order_type_spec(btf, st, params[k as int] as int, has_ptr, nest);
        match r {
            Err(e) => (Err(e), st1),
            Ok(s) => order_params_spec(btf, st1, id, k + 1, has_ptr, strong || s, nest),
        }
    }
}

/// The type ids of the parameters of a function prototype; none for other
/// nodes.
pub open spec fn params_of(t: BtfType) -> Seq<u32> {
    match t {
        BtfType::FuncProto(f) => Seq::new(f.params@.len(), |k: int| f.params@[k].type_id),
        _ => Seq::empty(),
    }
}

/// Orders the types of the members of the struct or union `id` from the
/// `k`-th on, each as embedded.
pub open spec fn order_members_spec(btf: &Btf, st: OrderSt, id: int, k: nat, nest: nat) -> (
    Result<bool, u32>,
    OrderSt,
)
    decreases nest, 1nat, 0nat, 0nat, members_of(btf@[id]).len() - k,
    when linked(btf@, btf.depths()) && 0 <= id < btf@.len()
{
    let members = members_of(btf@[id]);
    if k >= members.len() {
        (Ok(true), st)
    } else {
        let (r, st1) = order_type_spec(btf, st, members[k as int].type_id as int, false, nest);
        match r {
            Err(e) => (Err(e), st1),
            Ok(_) => order_members_spec(btf, st1, id, k + 1, nest),
        }
    }
}

/// Every id of the order is below `n`.
pub open spec fn ids_below(order: Seq<u32>, n: nat) -> bool {
    forall|i: int| 0 <= i < order.len() ==> (#[trigger] order[i]) < n
}

/// No more types are unmarked than there are types.
pub proof fn lemma_unmarked_bound(states: Seq<OrderState>)
    ensures
        unmarked(states) <= states.len(),
    decreases states.len(),
{
    if states.len() > 0 {
        lemma_unmarked_bound(states.drop_last());
    }
}

/// The number of types that the walk has not marked.
pub open spec fn unmarked(states: Seq<OrderState>) -> nat
    decreases states.len(),
{
    if states.len() == 0 {
        0
    } else {
        unmarked(states.drop_last()) + if states.last() == OrderState::NotOrdered {
            1nat
        } else {
            0nat
        }
    }
}

/// The walk only moves forward: what was marked stays marked.
pub open spec fn advanced(before: Seq<OrderState>, after: Seq<OrderState>) -> bool {
    &&& after.len() == before.len()
    &&& forall|j: int|
        0 <= j < before.len() && before[j] != OrderState::NotOrdered ==> #[trigger] after[j]
            != OrderState::NotOrdered
}

/// Marking an unmarked type leaves one unmarked type less.
pub proof fn lemma_unmarked_after_mark(states: Seq<OrderState>, id: int, s: OrderState)
    requires
        0 <= id < states.len(),
        states[id] == OrderState::NotOrdered,
        s != OrderState::NotOrdered,
    ensures
        unmarked(states.update(id, s)) + 1 == unmarked(states),
    decreases states.len(),
{
    let after = states.update(id, s);
    if id == states.len() - 1 {
        assert(after.drop_last() =~= states.drop_last());
    } else {
        lemma_unmarked_after_mark(states.drop_last(), id, s);
        assert(after.drop_last() =~= states.drop_last().update(id, s));
    }
}

/// A walk that only moves forward leaves no more types unmarked.
pub proof fn lemma_unmarked_advanced(before: Seq<OrderState>, after: Seq<OrderState>)
    requires
        advanced(before, after),
    ensures
        unmarked(after) <= unmarked(before),
    decreases before.len(),
{
    if before.len() > 0 {
        assert(advanced(before.drop_last(), after.drop_last())) by {
            assert forall|j: int|
                0 <= j < before.drop_last().len() && before.drop_last()[j]
                    != OrderState::NotOrdered implies #[trigger] after.drop_last()[j]
                != OrderState::NotOrdered by {
                assert(after[j] != OrderState::NotOrdered);
            }
        }
        lemma_unmarked_advanced(before.drop_last(), after.drop_last());
        assert(after[before.len() - 1] == after.last());
    }
}

/// Whether the outcome `r` with the state `states` and `order` is what the
/// specification `spec` says: the same state, the same answer, or the
/// error of an unsatisfiable cycle on the same id.
pub open spec fn ordered_as(
    btf: &Btf,
    r: Result<bool, BtfError>,
    states: Seq<OrderState>,
    order: Seq<u32>,
    spec: (Result<bool, u32>, OrderSt),
) -> bool {
    &&& spec.1.states == states
    &&& spec.1.order == order
    &&& match r {
        Ok(strong) => spec.0 == Ok::<bool, u32>(strong),
        Err(e) => spec.0 is Err && error_about(
            BtfErrorKind::UnsatisfiableCycle,
            spec.0->Err_0,
            btf@[spec.0->Err_0 as int],
            e,
        ),
    }
}

/// Orders the type `id`: appends to `order` the definitions that have to
/// precede it, then itself if it is one, and says whether the caller can
/// rely on its definition being in the order.
pub(crate) fn order_type(
    btf: &Btf,
    states: &mut Vec<OrderState>,
    id: u32,
    has_ptr: bool,
    order: &mut Vec<u32>,
    Ghost(nest): Ghost<nat>,
) -> (r: Result<bool, BtfError>)
    requires
        btf.wf(),
        id < btf@.len(),
        old(states)@.len() == btf@.len(),
        unmarked(old(states)@) <= nest,
        ids_below(old(order)@, btf@.len()),
    ensures
        ids_below(final(order)@, btf@.len()),
        ordered_as(
            btf,
            r,
            final(states)@,
            final(order)@,
            order_type_spec(
                btf,
                OrderSt { states: old(states)@, order: old(order)@ },
                id as int,
                has_ptr,
                nest,
            ),
        ),
        advanced(old(states)@, final(states)@),
    decreases nest, 0nat, btf.depths()[id as int], 2nat, 0nat,
{
    assert(refs_below(btf@[id as int], btf@.len()));
    assert(refs_descend(btf@[id as int], btf.depths(), btf.depths()[id as int]));
    match states[id as usize] {
        OrderState::NotOrdered => {},
        OrderState::Visiting => {
            let through_ptr: bool = match btf.type_by_id(id) {
                BtfType::Struct(t) => has_ptr && !t.name.as_str().is_empty(),
                BtfType::Union(t) => has_ptr && !t.name.as_str().is_empty(),
                _ => false,
            };
            if through_ptr {
                return Ok(false);
            }
            return Err(BtfError::about(BtfErrorKind::UnsatisfiableCycle, id, btf.type_by_id(id)));
        },
        OrderState::Ordered => {
            return Ok(true);
        },
    }
    match btf.type_by_id(id) {
        BtfType::Func(_) | BtfType::Var(_) | BtfType::Datasec(_) => Ok(false),
        BtfType::Void | BtfType::Int(_) => Ok(false),
        BtfType::Volatile(t) => order_type(btf, states, t.type_id, has_ptr, order, Ghost(nest)),
        BtfType::Const(t) => order_type(btf, states, t.type_id, has_ptr, order, Ghost(nest)),
        BtfType::Restrict(t) => order_type(btf, states, t.type_id, has_ptr, order, Ghost(nest)),
        BtfType::Ptr(t) => order_type(btf, states, t.type_id, true, order, Ghost(nest)),
        BtfType::Array(t) => order_type(btf, states, t.val_type_id, has_ptr, order, Ghost(nest)),
        BtfType::FuncProto(t) => {
            let ghost before = states@;
            match order_type(btf, states, t.res_type_id, has_ptr, order, Ghost(nest)) {
                Ok(is_strong) => {
                    proof {
                        lemma_unmarked_advanced(before, states@);
                    }
                    order_params(btf, states, id, t, has_ptr, is_strong, order, Ghost(nest))
                },
                Err(e) => Err(e),
            }
        },
        BtfType::Struct(t) => {
            // a struct is part of a strong link only if it is embedded, or
            // if it is anonymous and so has to be defined where it is used
            if !has_ptr || t.name.as_str().is_empty() {
                order_composite(
                    btf,
                    states,
                    id,
                    &t.members,
                    !t.name.as_str().is_empty(),
                    order,
                    Ghost(nest),
                )
            } else {
                Ok(false)
            }
        },
        BtfType::Union(t) => {
            if !has_ptr || t.name.as_str().is_empty() {
                order_composite(
                    btf,
                    states,
                    id,
                    &t.members,
                    !t.name.as_str().is_empty(),
                    order,
                    Ghost(nest),
                )
            } else {
                Ok(false)
            }
        },
        BtfType::Enum(_) | BtfType::Fwd(_) => {
            order.push(id);
            states.set(id as usize, OrderState::Ordered);
            Ok(true)
        },
        BtfType::Typedef(t) => {
            match order_type(btf, states, t.type_id, has_ptr, order, Ghost(nest)) {
                Ok(is_strong) => {
                    if !has_ptr || is_strong {
                        order.push(id);
                        states.set(id as usize, OrderState::Ordered);
                        Ok(true)
                    } else {
                        Ok(false)
                    }
                },
                Err(e) => Err(e),
            }
        },
    }
}

/// Orders what the struct or union `id` embeds, then the struct or union
/// itself.
fn order_composite(
    btf: &Btf,
    states: &mut Vec<OrderState>,
    id: u32,
    members: &Vec<BtfMember>,
    named: bool,
    order: &mut Vec<u32>,
    Ghost(nest): Ghost<nat>,
) -> (r: Result<bool, BtfError>)
    requires
        btf.wf(),
        id < btf@.len(),
        btf@[id as int] is Struct || btf@[id as int] is Union,
        members@ == members_of(btf@[id as int]),
        named == is_named_composite(btf@[id as int]),
        old(states)@.len() == btf@.len(),
        old(states)@[id as int] == OrderState::NotOrdered,
        unmarked(old(states)@) <= nest,
        ids_below(old(order)@, btf@.len()),
    ensures
        ids_below(final(order)@, btf@.len()),
        nest > 0,
        ordered_as(
            btf,
            r,
            final(states)@,
            final(order)@,
            match order_members_spec(
                btf,
                marked(
                    OrderSt { states: old(states)@, order: old(order)@ },
                    id as int,
                    OrderState::Visiting,
                ),
                id as int,
                0,
                (nest - 1) as nat,
            ) {
                (Err(e), st1) => (Err(e), st1),
                (Ok(_), st1) => (
                    Ok(true),
                    if named {
                        appended(st1, id as int)
                    } else {
                        marked(st1, id as int, OrderState::Ordered)
                    },
                ),
            },
        ),
        advanced(old(states)@, final(states)@),
    decreases nest, 0nat, btf.depths()[id as int], 1nat, 0nat,
{
    proof {
        lemma_unmarked_after_mark(states@, id as int, OrderState::Visiting);
    }
    states.set(id as usize, OrderState::Visiting);
    let ghost st1 = OrderSt { states: states@, order: order@ };
    assert(st1.states =~= old(states)@.update(id as int, OrderState::Visiting));
    let ghost inner = (nest - 1) as nat;
    assert(refs_below(btf@[id as int], btf@.len()));
    let mut k: usize = 0;
    while k < members.len()
        invariant
            btf.wf(),
            id < btf@.len(),
            members@ == members_of(btf@[id as int]),
            forall|j: int| 0 <= j < members@.len() ==> (#[trigger] members@[j]).type_id < btf@.len(),
            states@.len() == btf@.len(),
            ids_below(order@, btf@.len()),
            nest > 0,
            inner == nest - 1,
            unmarked(states@) <= inner,
            named == is_named_composite(btf@[id as int]),
            st1 == marked(
                OrderSt { states: old(states)@, order: old(order)@ },
                id as int,
                OrderState::Visiting,
            ),
            advanced(old(states)@, st1.states),
            advanced(st1.states, states@),
            k <= members@.len(),
            order_members_spec(btf, st1, id as int, 0, inner) == order_members_spec(
                btf,
                OrderSt { states: states@, order: order@ },
                id as int,
                k as nat,
                inner,
            ),
        decreases members@.len() - k,
    {
        let ghost before = states@;
        match order_type(btf, states, members[k].type_id, false, order, Ghost(inner)) {
            Ok(_) => {},
            Err(e) => {
                return Err(e);
            },
        }
        proof {
            lemma_unmarked_advanced(before, states@);
        }
        k += 1;
    }
    if named {
        order.push(id);
    }
    states.set(id as usize, OrderState::Ordered);
    Ok(true)
}

/// Orders the parameters of the function prototype `id`.
fn order_params(
    btf: &Btf,
    states: &mut Vec<OrderState>,
    id: u32,
    t: &BtfFuncProto,
    has_ptr: bool,
    strong: bool,
    order: &mut Vec<u32>,
    Ghost(nest): Ghost<nat>,
) -> (r: Result<bool, BtfError>)
    requires
        btf.wf(),
        id < btf@.len(),
        btf@[id as int] == BtfType::FuncProto(*t),
        old(states)@.len() == btf@.len(),
        unmarked(old(states)@) <= nest,
        ids_below(old(order)@, btf@.len()),
    ensures
        ids_below(final(order)@, btf@.len()),
        ordered_as(
            btf,
            r,
            final(states)@,
            final(order)@,
            order_params_spec(
                btf,
                OrderSt { states: old(states)@, order: old(order)@ },
                id as int,
                0,
                has_ptr,
                strong,
                nest,
            ),
        ),
        advanced(old(states)@, final(states)@),
    decreases nest, 0nat, btf.depths()[id as int], 1nat, 0nat,
{
    let ghost st0 = OrderSt { states: states@, order: order@ };
    assert(refs_below(btf@[id as int], btf@.len()));
    assert(refs_descend(btf@[id as int], btf.depths(), btf.depths()[id as int]));
    let mut is_strong: bool = strong;
    let mut k: usize = 0;
    while k < t.params.len()
        invariant
            btf.wf(),
            id < btf@.len(),
            btf@[id as int] == BtfType::FuncProto(*t),
            forall|j: int| 0 <= j < t.params@.len() ==> (#[trigger] t.params@[j]).type_id < btf@.len(),
            forall|j: int|
                0 <= j < t.params@.len() ==> btf.depths()[(#[trigger] t.params@[j]).type_id as int]
                    < btf.depths()[id as int],
            states@.len() == btf@.len(),
            ids_below(order@, btf@.len()),
            unmarked(states@) <= nest,
            st0 == (OrderSt { states: old(states)@, order: old(order)@ }),
            advanced(st0.states, states@),
            k <= t.params@.len(),
            order_params_spec(btf, st0, id as int, 0, has_ptr, strong, nest) == order_params_spec(
                btf,
                OrderSt { states: states@, order: order@ },
                id as int,
                k as nat,
                has_ptr,
                is_strong,
                nest,
            ),
        decreases t.params@.len() - k,
    {
        let ghost before = states@;
        assert(params_of(btf@[id as int])[k as int] == t.params@[k as int].type_id);
        match order_type(btf, states, t.params[k].type_id, has_ptr, order, Ghost(nest)) {
            Ok(s) => {
                if s {
                    is_strong = true;
                }
            },
            Err(e) => {
                return Err(e);
            },
        }
        proof {
            lemma_unmarked_advanced(before, states@);
        }
        k += 1;
    }
    Ok(is_strong)
}

} // verus!
