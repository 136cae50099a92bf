//! What holds of the order that the walk finds.
use vstd::prelude::*;
use crate::btf::linked;
use crate::btf::refs_below;
use crate::btf::refs_descend;
use crate::btf::Btf;
use crate::order::advanced;
use crate::order::appended;
use crate::order::ids_below;
use crate::order::is_named_composite;
use crate::order::is_named_definition;
use crate::order::marked;
use crate::order::members_of;
use crate::order::order_members_spec;
use crate::order::order_params_spec;
use crate::order::order_type_spec;
use crate::order::params_of;
use crate::order::unmarked;
use crate::order::OrderSt;
use crate::order::OrderState;
use crate::types::BtfType;

verus! {

/// What is embedded where the type `id` is: `id` itself, or what it
/// qualifies or is an array of.
pub open spec fn embed_target(btf: &Btf, id: int) -> int
    decreases btf.depths()[id],
    when linked(btf@, btf.depths()) && 0 <= id < btf@.len()
{
    match btf@[id] {
        BtfType::Volatile(t) => embed_target(btf, t.type_id as int),
        BtfType::Const(t) => embed_target(btf, t.type_id as int),
        BtfType::Restrict(t) => embed_target(btf, t.type_id as int),
        BtfType::Array(t) => embed_target(btf, t.val_type_id as int),
        _ => id,
    }
}

/// Whether a node gets a place in the order once the walk is done with it:
/// enums, forward declarations, typedefs, and structs and unions with a
/// name.
pub open spec fn is_recorded(t: BtfType) -> bool {
    t is Enum || t is Fwd || t is Typedef || is_named_composite(t)
}

/// Whether the walk ever marks a node: structs, unions, enums, forward
/// declarations and typedefs.
pub open spec fn is_marking(t: BtfType) -> bool {
    t is Struct || t is Union || t is Enum || t is Fwd || t is Typedef
}

/// A strong edge: `a` is a struct or union that embeds `b` as a member, or
/// a typedef that stands for `b`, in both cases possibly qualified or in
/// an array.
pub open spec fn strong_edge(btf: &Btf, a: int, b: int) -> bool {
    match btf@[a] {
        BtfType::Struct(_) | BtfType::Union(_) => exists|k: int|
            0 <= k < members_of(btf@[a]).len() && b == embed_target(
                btf,
                (#[trigger] members_of(btf@[a])[k]).type_id as int,
            ),
        BtfType::Typedef(t) => b == embed_target(btf, t.type_id as int),
        _ => false,
    }
}

/// Whether a node is a struct or union without a name, which is written
/// where it is used.
pub open spec fn is_anonymous_composite(t: BtfType) -> bool {
    (t is Struct || t is Union) && !is_named_composite(t)
}

/// Whether `a` embeds `b` through `n` anonymous structs or unions: by a
/// strong edge from `a` to `b` if `n` is zero, otherwise by a strong edge
/// from `a` to an anonymous struct or union that embeds `b` through one
/// less.
pub open spec fn embeds(btf: &Btf, a: int, b: int, n: nat) -> bool
    decreases n,
{
    if n == 0 {
        strong_edge(btf, a, b)
    } else {
        exists|x: int|
            0 <= x < btf@.len() && #[trigger] strong_edge(btf, a, x) && is_anonymous_composite(
                btf@[x],
            ) && embeds(btf, x, b, (n - 1) as nat)
    }
}

/// Whether `b` stands in the order before position `i`.
pub open spec fn occurs_before(order: Seq<u32>, b: int, i: int) -> bool {
    exists|j: int| 0 <= j < i && j < order.len() && #[trigger] order[j] == b
}

/// What holds of the state of the walk at all times:
/// only definitions are marked, and only structs and unions are being
/// walked; what is in the order is done; what is done and gets a place has
/// one; whatever an entry of the order has a strong edge to stands before
/// it, if it gets a place at all; nothing but a typedef stands in the
/// order twice; whatever a type that is done has a strong edge to is done,
/// if the walk marks it at all; and whatever an entry of the order embeds
/// through anonymous structs and unions stands before it, if it gets a
/// place at all; and only what gets a place stands in the order.
pub open spec fn order_inv(btf: &Btf, st: OrderSt) -> bool {
    &&& st.states.len() == btf@.len()
    &&& ids_below(st.order, btf@.len())
    &&& forall|x: int|
        0 <= x < btf@.len() && #[trigger] st.states[x] != OrderState::NotOrdered ==> is_marking(
            btf@[x],
        )
    &&& forall|x: int|
        0 <= x < btf@.len() && #[trigger] st.states[x] == OrderState::Visiting ==> (btf@[x] is Struct
            || btf@[x] is Union)
    &&& forall|i: int|
        0 <= i < st.order.len() ==> st.states[(#[trigger] st.order[i]) as int] == OrderState::Ordered
    &&& forall|x: int|
        0 <= x < btf@.len() && #[trigger] st.states[x] == OrderState::Ordered && is_recorded(
            btf@[x],
        ) ==> occurs_before(st.order, x, st.order.len() as int)
    &&& forall|i: int, b: int|
        0 <= i < st.order.len() && #[trigger] strong_edge(btf, st.order[i] as int, b)
            && 0 <= b < btf@.len() && is_recorded(btf@[b]) ==> #[trigger] occurs_before(
            st.order,
            b,
            i,
        )
    &&& forall|i: int, j: int|
        0 <= i < j < st.order.len() && #[trigger] st.order[i] == #[trigger] st.order[j]
            ==> btf@[st.order[i] as int] is Typedef
    &&& forall|x: int, b: int|
        0 <= x < btf@.len() && st.states[x] == OrderState::Ordered && #[trigger] strong_edge(
            btf,
            x,
            b,
        ) && 0 <= b < btf@.len() && is_marking(btf@[b]) ==> st.states[b] == OrderState::Ordered
    &&& forall|i: int, b: int, n: nat|
        0 <= i < st.order.len() && #[trigger] embeds(btf, st.order[i] as int, b, n) && 0 <= b
            < btf@.len() && is_recorded(btf@[b]) ==> occurs_before(st.order, b, i)
    &&& forall|i: int| 0 <= i < st.order.len() ==> is_recorded(btf@[(#[trigger] st.order[i]) as int])
}

/// The walk has gone on from `before` to `after`: what was marked is still
/// marked, what was done is still done, and the order has only grown.
pub open spec fn went_on(before: OrderSt, after: OrderSt) -> bool {
    &&& advanced(before.states, after.states)
    &&& forall|x: int|
        0 <= x < before.states.len() && before.states[x] == OrderState::Ordered
            ==> #[trigger] after.states[x] == OrderState::Ordered
    &&& before.order.len() <= after.order.len()
    &&& forall|j: int| 0 <= j < before.order.len() ==> #[trigger] after.order[j] == before.order[j]
}

/// What was being walked before still is.
pub open spec fn kept_visiting(before: OrderSt, after: OrderSt) -> bool {
    forall|x: int|
        0 <= x < before.states.len() && before.states[x] == OrderState::Visiting
            ==> #[trigger] after.states[x] == OrderState::Visiting
}

/// What a successful step of the walk leaves: the invariant, and the type
/// that is embedded where `id` is done if the walk marks it at all and the
/// step was not through a pointer, or answered that its definition can be
/// relied on.
pub open spec fn step_done(
    btf: &Btf,
    id: int,
    has_ptr: bool,
    r: Result<bool, u32>,
    after: OrderSt,
) -> bool {
    r is Ok ==> {
        &&& order_inv(btf, after)
        &&& (!has_ptr || r == Ok::<bool, u32>(true)) && is_marking(
            btf@[embed_target(btf, id)],
        ) ==> after.states[embed_target(btf, id)] == OrderState::Ordered
    }
}

/// What is embedded is in range.
pub proof fn lemma_embed_target_in_range(btf: &Btf, id: int)
    requires
        linked(btf@, btf.depths()),
        0 <= id < btf@.len(),
    ensures
        0 <= embed_target(btf, id) < btf@.len(),
    decreases btf.depths()[id],
{
    assert(refs_below(btf@[id], btf@.len()));
    assert(refs_descend(btf@[id], btf.depths(), btf.depths()[id]));
    match btf@[id] {
        BtfType::Volatile(t) => lemma_embed_target_in_range(btf, t.type_id as int),
        BtfType::Const(t) => lemma_embed_target_in_range(btf, t.type_id as int),
        BtfType::Restrict(t) => lemma_embed_target_in_range(btf, t.type_id as int),
        BtfType::Array(t) => lemma_embed_target_in_range(btf, t.val_type_id as int),
        _ => {},
    }
}

/// Where a type is unmarked, at least one is.
pub proof fn lemma_unmarked_positive(states: Seq<OrderState>, id: int)
    requires
        0 <= id < states.len(),
        states[id] == OrderState::NotOrdered,
    ensures
        unmarked(states) >= 1,
    decreases states.len(),
{
    if id < states.len() - 1 {
        lemma_unmarked_positive(states.drop_last(), id);
    }
}

/// Going on is transitive.
pub proof fn lemma_went_on_trans(a: OrderSt, b: OrderSt, c: OrderSt)
    requires
        went_on(a, b),
        went_on(b, c),
    ensures
        went_on(a, c),
{
    assert forall|j: int|
        0 <= j < a.states.len() && a.states[j] != OrderState::NotOrdered implies #[trigger] c.states[j]
        != OrderState::NotOrdered by {
        assert(b.states[j] != OrderState::NotOrdered);
    }
    assert forall|x: int|
        0 <= x < a.states.len() && a.states[x] == OrderState::Ordered implies #[trigger] c.states[x]
        == OrderState::Ordered by {
        assert(b.states[x] == OrderState::Ordered);
    }
    assert forall|j: int| 0 <= j < a.order.len() implies #[trigger] c.order[j] == a.order[j] by {
        assert(b.order[j] == a.order[j]);
    }
}

/// Where whatever `id` has a strong edge to is done, if the walk marks it
/// at all, so is whatever `id` embeds through anonymous structs and
/// unions.
pub proof fn lemma_embedded_done(btf: &Btf, st: OrderSt, id: int, b: int, n: nat)
    requires
        order_inv(btf, st),
        0 <= id < btf@.len(),
        forall|c: int|
            #[trigger] strong_edge(btf, id, c) && 0 <= c < btf@.len() && is_marking(btf@[c])
                ==> st.states[c] == OrderState::Ordered,
        embeds(btf, id, b, n),
        0 <= b < btf@.len(),
        is_marking(btf@[b]),
    ensures
        st.states[b] == OrderState::Ordered,
    decreases n,
{
    if n > 0 {
        let x = choose|x: int|
            0 <= x < btf@.len() && #[trigger] strong_edge(btf, id, x) && is_anonymous_composite(
                btf@[x],
            ) && embeds(btf, x, b, (n - 1) as nat);
        assert(is_marking(btf@[x]));
        assert(st.states[x] == OrderState::Ordered);
        lemma_embedded_done(btf, st, x, b, (n - 1) as nat);
    }
}

/// Appending a type that is done with keeps the invariant, if whatever it
/// has a strong edge to is done, as far as the walk marks it at all.
pub proof fn lemma_append_keeps_inv(btf: &Btf, st: OrderSt, id: int)
    requires
        linked(btf@, btf.depths()),
        btf@.len() <= u32::MAX,
        order_inv(btf, st),
        0 <= id < btf@.len(),
        is_recorded(btf@[id]),
        btf@[id] is Typedef || st.states[id] != OrderState::Ordered,
        forall|b: int|
            #[trigger] strong_edge(btf, id, b) && 0 <= b < btf@.len() && is_marking(btf@[b])
                ==> st.states[b] == OrderState::Ordered,
    ensures
        order_inv(btf, appended(st, id)),
        went_on(st, appended(st, id)),
{
    let after = appended(st, id);
    let n = st.order.len() as int;
    assert(after.order[n] == id as u32);
    assert forall|x: int, b: int|
        0 <= x < btf@.len() && after.states[x] == OrderState::Ordered && #[trigger] strong_edge(
            btf,
            x,
            b,
        ) && 0 <= b < btf@.len() && is_marking(btf@[b]) implies after.states[b]
        == OrderState::Ordered by {
        if x != id {
            assert(st.states[x] == OrderState::Ordered);
        }
        assert(st.states[b] == OrderState::Ordered);
    }
    assert forall|i: int, b: int, m: nat|
        0 <= i < after.order.len() && #[trigger] embeds(btf, after.order[i] as int, b, m) && 0
            <= b < btf@.len() && is_recorded(btf@[b]) implies occurs_before(after.order, b, i) by {
        if i < n {
            assert(after.order[i] == st.order[i]);
            assert(occurs_before(st.order, b, i));
            let j = choose|j: int| 0 <= j < i && j < st.order.len() && #[trigger] st.order[j] == b;
            assert(after.order[j] == b);
        } else {
            lemma_embedded_done(btf, st, id, b, m);
            assert(st.states[b] == OrderState::Ordered);
            assert(occurs_before(st.order, b, n));
            let j = choose|j: int| 0 <= j < n && j < st.order.len() && #[trigger] st.order[j] == b;
            assert(after.order[j] == b);
        }
    }
    assert forall|i: int| 0 <= i < after.order.len() implies after.states[(
    #[trigger] after.order[i]) as int] == OrderState::Ordered by {
        if i < n {
            assert(st.states[st.order[i] as int] == OrderState::Ordered);
        }
    }
    assert forall|x: int|
        0 <= x < btf@.len() && #[trigger] after.states[x] == OrderState::Ordered && is_recorded(
            btf@[x],
        ) implies occurs_before(after.order, x, after.order.len() as int) by {
        if x == id {
            assert(after.order[n] == x);
        } else {
            assert(st.states[x] == OrderState::Ordered);
            let j = choose|j: int| 0 <= j < n && j < st.order.len() && #[trigger] st.order[j] == x;
            assert(after.order[j] == x);
        }
    }
    assert forall|i: int, b: int|
        0 <= i < after.order.len() && #[trigger] strong_edge(btf, after.order[i] as int, b) && 0
            <= b < btf@.len() && is_recorded(btf@[b]) implies #[trigger] occurs_before(
        after.order,
        b,
        i,
    ) by {
        if i < n {
            assert(after.order[i] == st.order[i]);
            assert(occurs_before(st.order, b, i));
            let j = choose|j: int| 0 <= j < i && j < st.order.len() && #[trigger] st.order[j] == b;
            assert(after.order[j] == b);
        } else {
            assert(st.states[b] == OrderState::Ordered);
            assert(occurs_before(st.order, b, n));
            let j = choose|j: int| 0 <= j < n && j < st.order.len() && #[trigger] st.order[j] == b;
            assert(after.order[j] == b);
        }
    }
    assert forall|i: int, j: int|
        0 <= i < j < after.order.len() && #[trigger] after.order[i] == #[trigger] after.order[j]
        implies btf@[after.order[i] as int] is Typedef by {
        if j < n {
            assert(st.order[i] == st.order[j]);
        } else {
            assert(after.order[i] == st.order[i]);
            assert(st.states[st.order[i] as int] == OrderState::Ordered);
        }
    }
    assert(ids_below(after.order, btf@.len())) by {
        assert forall|i: int| 0 <= i < after.order.len() implies (#[trigger] after.order[i])
            < btf@.len() by {
            if i < n {
                assert(st.order[i] < btf@.len());
            }
        }
    }
}

/// Marking an unmarked struct or union as being walked keeps the invariant.
pub proof fn lemma_mark_keeps_inv(btf: &Btf, st: OrderSt, id: int, s: OrderState)
    requires
        order_inv(btf, st),
        0 <= id < btf@.len(),
        btf@[id] is Struct || btf@[id] is Union,
        s == OrderState::Visiting,
        st.states[id] == OrderState::NotOrdered,
    ensures
        order_inv(btf, marked(st, id, s)),
        went_on(st, marked(st, id, s)),
{
    let after = marked(st, id, s);
    assert forall|i: int| 0 <= i < after.order.len() implies after.states[(
    #[trigger] after.order[i]) as int] == OrderState::Ordered by {
        assert(st.states[st.order[i] as int] == OrderState::Ordered);
    }
    assert forall|x: int|
        0 <= x < btf@.len() && #[trigger] after.states[x] == OrderState::Ordered && is_recorded(
            btf@[x],
        ) implies occurs_before(after.order, x, after.order.len() as int) by {
        assert(x != id);
        assert(st.states[x] == OrderState::Ordered);
    }
    assert forall|x: int, b: int|
        0 <= x < btf@.len() && after.states[x] == OrderState::Ordered && #[trigger] strong_edge(
            btf,
            x,
            b,
        ) && 0 <= b < btf@.len() && is_marking(btf@[b]) implies after.states[b]
        == OrderState::Ordered by {
        assert(st.states[x] == OrderState::Ordered);
        assert(st.states[b] == OrderState::Ordered);
    }
    assert forall|i: int, b: int, n: nat|
        0 <= i < after.order.len() && #[trigger] embeds(btf, after.order[i] as int, b, n) && 0
            <= b < btf@.len() && is_recorded(btf@[b]) implies occurs_before(after.order, b, i) by {
        assert(occurs_before(st.order, b, i));
    }
}

/// A step of the walk keeps the invariant and goes on; if it succeeds, the
/// type embedded where `id` is done as far as the caller may rely on it.
pub proof fn lemma_order_type(btf: &Btf, st: OrderSt, id: int, has_ptr: bool, nest: nat)
    requires
        linked(btf@, btf.depths()),
        btf@.len() <= u32::MAX,
        0 <= id < btf@.len(),
        order_inv(btf, st),
        unmarked(st.states) <= nest,
    ensures
        went_on(st, order_type_spec(btf, st, id, has_ptr, nest).1),
        kept_visiting(st, order_type_spec(btf, st, id, has_ptr, nest).1),
        step_done(
            btf,
            id,
            has_ptr,
            order_type_spec(btf, st, id, has_ptr, nest).0,
            order_type_spec(btf, st, id, has_ptr, nest).1,
        ),
    decreases nest, 0nat, btf.depths()[id], 2nat, 0nat,
{
    assert(refs_below(btf@[id], btf@.len()));
    assert(refs_descend(btf@[id], btf.depths(), btf.depths()[id]));
    match st.states[id] {
        OrderState::Ordered => {
            assert(is_marking(btf@[id]));
        },
        OrderState::Visiting => {
            assert(btf@[id] is Struct || btf@[id] is Union);
        },
        OrderState::NotOrdered => {
            match btf@[id] {
                BtfType::Volatile(t) => {
                    lemma_order_type(btf, st, t.type_id as int, has_ptr, nest);
                },
                BtfType::Const(t) => {
                    lemma_order_type(btf, st, t.type_id as int, has_ptr, nest);
                },
                BtfType::Restrict(t) => {
                    lemma_order_type(btf, st, t.type_id as int, has_ptr, nest);
                },
                BtfType::Array(t) => {
                    lemma_order_type(btf, st, t.val_type_id as int, has_ptr, nest);
                },
                BtfType::Ptr(t) => {
                    lemma_order_type(btf, st, t.type_id as int, true, nest);
                },
                BtfType::FuncProto(t) => {
                    lemma_order_type(btf, st, t.res_type_id as int, has_ptr, nest);
                    let (r, st1) = order_type_spec(btf, st, t.res_type_id as int, has_ptr, nest);
                    if r is Ok {
                        crate::order::lemma_unmarked_advanced(st.states, st1.states);
                        lemma_order_params(btf, st1, id, 0, has_ptr, r->Ok_0, nest);
                        let st2 = order_params_spec(btf, st1, id, 0, has_ptr, r->Ok_0, nest).1;
                        lemma_went_on_trans(st, st1, st2);
                        assert forall|x: int|
                            0 <= x < st.states.len() && st.states[x]
                                == OrderState::Visiting implies #[trigger] st2.states[x]
                            == OrderState::Visiting by {
                            assert(st1.states[x] == OrderState::Visiting);
                        }
                    }
                },
                BtfType::Struct(_) | BtfType::Union(_) => {
                    if !has_ptr || !is_named_composite(btf@[id]) {
                        lemma_unmarked_positive(st.states, id);
                        let inner = (nest - 1) as nat;
                        let st1 = marked(st, id, OrderState::Visiting);
                        lemma_mark_keeps_inv(btf, st, id, OrderState::Visiting);
                        crate::order::lemma_unmarked_after_mark(
                            st.states,
                            id,
                            OrderState::Visiting,
                        );
                        lemma_order_members(btf, st1, id, 0, inner);
                        let (r, st2) = order_members_spec(btf, st1, id, 0, inner);
                        lemma_went_on_trans(st, st1, st2);
                        assert(st1.states[id] == OrderState::Visiting);
                        assert(st2.states[id] == OrderState::Visiting);
                        assert forall|x: int|
                            0 <= x < st.states.len() && st.states[x]
                                == OrderState::Visiting implies #[trigger] st2.states[x]
                            == OrderState::Visiting by {
                            assert(st1.states[x] == OrderState::Visiting);
                        }
                        if r is Ok {
                            assert forall|b: int|
                                #[trigger] strong_edge(btf, id, b) && 0 <= b < btf@.len()
                                    && is_marking(btf@[b]) implies st2.states[b]
                                == OrderState::Ordered by {
                                let k = choose|k: int|
                                    0 <= k < members_of(btf@[id]).len() && b == embed_target(
                                        btf,
                                        (#[trigger] members_of(btf@[id])[k]).type_id as int,
                                    );
                                assert(members_done(btf, st2, id, k));
                            }
                            if is_named_composite(btf@[id]) {
                                lemma_append_keeps_inv(btf, st2, id);
                                lemma_went_on_trans(st, st2, appended(st2, id));
                            } else {
                                assert(st2.states[id] != OrderState::NotOrdered);
                                assert(is_marking(btf@[id]));
                                lemma_marked_done_keeps_inv(btf, st2, id);
                                lemma_went_on_trans(st, st2, marked(st2, id, OrderState::Ordered));
                            }
                        }
                    }
                },
                BtfType::Enum(_) | BtfType::Fwd(_) => {
                    lemma_append_keeps_inv(btf, st, id);
                },
                BtfType::Typedef(t) => {
                    lemma_order_type(btf, st, t.type_id as int, has_ptr, nest);
                    let (r, st1) = order_type_spec(btf, st, t.type_id as int, has_ptr, nest);
                    if r is Ok {
                        let strong = r->Ok_0;
                        if !has_ptr || strong {
                            lemma_embed_target_in_range(btf, t.type_id as int);
                            lemma_append_keeps_inv(btf, st1, id);
                            lemma_went_on_trans(st, st1, appended(st1, id));
                            assert forall|x: int|
                                0 <= x < st.states.len() && st.states[x]
                                    == OrderState::Visiting implies #[trigger] appended(
                                st1,
                                id,
                            ).states[x] == OrderState::Visiting by {
                                assert(st1.states[x] == OrderState::Visiting);
                            }
                        }
                    }
                },
                _ => {},
            }
        },
    }
}

/// Whether the type embedded as member `k` of `id` is done, if the walk
/// marks it at all.
pub open spec fn members_done(btf: &Btf, st: OrderSt, id: int, k: int) -> bool {
    is_marking(btf@[embed_target(btf, members_of(btf@[id])[k].type_id as int)])
        ==> st.states[embed_target(btf, members_of(btf@[id])[k].type_id as int)]
        == OrderState::Ordered
}

/// Setting an anonymous struct or union that was being walked to done keeps
/// the invariant, if whatever it has a strong edge to is done, as far as
/// the walk marks it at all.
pub proof fn lemma_marked_done_keeps_inv(btf: &Btf, st: OrderSt, id: int)
    requires
        order_inv(btf, st),
        0 <= id < btf@.len(),
        btf@[id] is Struct || btf@[id] is Union,
        !is_named_composite(btf@[id]),
        forall|b: int|
            #[trigger] strong_edge(btf, id, b) && 0 <= b < btf@.len() && is_marking(btf@[b])
                ==> st.states[b] == OrderState::Ordered,
    ensures
        order_inv(btf, marked(st, id, OrderState::Ordered)),
        went_on(st, marked(st, id, OrderState::Ordered)),
{
    let after = marked(st, id, OrderState::Ordered);
    assert forall|x: int, b: int|
        0 <= x < btf@.len() && after.states[x] == OrderState::Ordered && #[trigger] strong_edge(
            btf,
            x,
            b,
        ) && 0 <= b < btf@.len() && is_marking(btf@[b]) implies after.states[b]
        == OrderState::Ordered by {
        if x != id {
            assert(st.states[x] == OrderState::Ordered);
        }
        assert(st.states[b] == OrderState::Ordered);
    }
    assert forall|i: int, b: int, n: nat|
        0 <= i < after.order.len() && #[trigger] embeds(btf, after.order[i] as int, b, n) && 0
            <= b < btf@.len() && is_recorded(btf@[b]) implies occurs_before(after.order, b, i) by {
        assert(occurs_before(st.order, b, i));
    }
    assert forall|i: int| 0 <= i < after.order.len() implies after.states[(
    #[trigger] after.order[i]) as int] == OrderState::Ordered by {
        assert(st.states[st.order[i] as int] == OrderState::Ordered);
    }
    assert forall|x: int|
        0 <= x < btf@.len() && #[trigger] after.states[x] == OrderState::Ordered && is_recorded(
            btf@[x],
        ) implies occurs_before(after.order, x, after.order.len() as int) by {
        if x != id {
            assert(st.states[x] == OrderState::Ordered);
        }
    }
    assert forall|j: int|
        0 <= j < st.states.len() && st.states[j] != OrderState::NotOrdered implies #[trigger] after.states[j]
        != OrderState::NotOrdered by {}
}

/// The walk over the members of `id` from the `k`-th on keeps the
/// invariant and goes on; if it succeeds, what they embed is done.
pub proof fn lemma_order_members(btf: &Btf, st: OrderSt, id: int, k: nat, nest: nat)
    requires
        linked(btf@, btf.depths()),
        btf@.len() <= u32::MAX,
        0 <= id < btf@.len(),
        order_inv(btf, st),
        unmarked(st.states) <= nest,
    ensures
        went_on(st, order_members_spec(btf, st, id, k, nest).1),
        kept_visiting(st, order_members_spec(btf, st, id, k, nest).1),
        order_members_spec(btf, st, id, k, nest).0 is Ok ==> {
            &&& order_inv(btf, order_members_spec(btf, st, id, k, nest).1)
            &&& forall|j: int|
                k <= j < members_of(btf@[id]).len() ==> #[trigger] members_done(
                    btf,
                    order_members_spec(btf, st, id, k, nest).1,
                    id,
                    j,
                )
        },
    decreases nest, 1nat, 0nat, 0nat, members_of(btf@[id]).len() - k,
{
    let members = members_of(btf@[id]);
    assert(refs_below(btf@[id], btf@.len()));
    if k < members.len() {
        let m = members[k as int].type_id as int;
        assert(0 <= m < btf@.len());
        lemma_order_type(btf, st, m, false, nest);
        let (r, st1) = order_type_spec(btf, st, m, false, nest);
        if r is Ok {
            crate::order::lemma_unmarked_advanced(st.states, st1.states);
            lemma_order_members(btf, st1, id, k + 1, nest);
            let (r2, st2) = order_members_spec(btf, st1, id, k + 1, nest);
            lemma_went_on_trans(st, st1, st2);
            assert forall|x: int|
                0 <= x < st.states.len() && st.states[x]
                    == OrderState::Visiting implies #[trigger] st2.states[x]
                == OrderState::Visiting by {
                assert(st1.states[x] == OrderState::Visiting);
            }
            if r2 is Ok {
                lemma_embed_target_in_range(btf, m);
                assert(members_done(btf, st2, id, k as int));
                assert forall|j: int| k <= j < members.len() implies #[trigger] members_done(
                    btf,
                    st2,
                    id,
                    j,
                ) by {
                    if j > k {
                        assert(members_done(btf, st2, id, j));
                    }
                }
            }
        }
    }
}

/// The walk over the parameters of `id` from the `k`-th on keeps the
/// invariant and goes on.
pub proof fn lemma_order_params(
    btf: &Btf,
    st: OrderSt,
    id: int,
    k: nat,
    has_ptr: bool,
    strong: bool,
    nest: nat,
)
    requires
        linked(btf@, btf.depths()),
        btf@.len() <= u32::MAX,
        0 <= id < btf@.len(),
        order_inv(btf, st),
        unmarked(st.states) <= nest,
    ensures
        went_on(st, order_params_spec(btf, st, id, k, has_ptr, strong, nest).1),
        kept_visiting(st, order_params_spec(btf, st, id, k, has_ptr, strong, nest).1),
        order_params_spec(btf, st, id, k, has_ptr, strong, nest).0 is Ok ==> order_inv(
            btf,
            order_params_spec(btf, st, id, k, has_ptr, strong, nest).1,
        ),
    decreases nest, 0nat, btf.depths()[id], 1nat, params_of(btf@[id]).len() - k,
{
    let params = params_of(btf@[id]);
    assert(refs_below(btf@[id], btf@.len()));
    assert(refs_descend(btf@[id], btf.depths(), btf.depths()[id]));
    if k < params.len() {
        let f = btf@[id]->FuncProto_0;
        assert(params[k as int] == f.params@[k as int].type_id);
        let p = params[k as int] as int;
        lemma_order_type(btf, st, p, has_ptr, nest);
        let (r, st1) = order_type_spec(btf, st, p, has_ptr, nest);
        if r is Ok {
            crate::order::lemma_unmarked_advanced(st.states, st1.states);
            lemma_order_params(btf, st1, id, k + 1, has_ptr, strong || r->Ok_0, nest);
            let st2 = order_params_spec(btf, st1, id, k + 1, has_ptr, strong || r->Ok_0, nest).1;
            lemma_went_on_trans(st, st1, st2);
            assert forall|x: int|
                0 <= x < st.states.len() && st.states[x]
                    == OrderState::Visiting implies #[trigger] st2.states[x]
                == OrderState::Visiting by {
                assert(st1.states[x] == OrderState::Visiting);
            }
        }
    }
}

/// The state in which the walk starts: nothing marked, nothing ordered.
pub open spec fn fresh_order(n: nat) -> OrderSt {
    OrderSt { states: Seq::new(n, |i: int| OrderState::NotOrdered), order: Seq::empty() }
}

/// The invariant holds where the walk starts.
pub proof fn lemma_fresh_order_inv(btf: &Btf)
    ensures
        order_inv(btf, fresh_order(btf@.len())),
{
}

/// The walk over the roots from `id` on keeps the invariant and goes on;
/// if it succeeds, every root that was selected is done.
pub proof fn lemma_order_roots(env: crate::decl::Env, accepted: Seq<bool>, st: OrderSt, id: nat)
    requires
        env.btf.wf(),
        order_inv(&env.btf, st),
    ensures
        went_on(st, crate::pass::order_roots_spec(env, accepted, st, id).1),
        crate::pass::order_roots_spec(env, accepted, st, id).0 is Ok ==> {
            &&& order_inv(&env.btf, crate::pass::order_roots_spec(env, accepted, st, id).1)
            &&& forall|x: int|
                id <= x < env.len() && is_named_definition(env.node(x)) && accepted[x]
                    ==> #[trigger] crate::pass::order_roots_spec(env, accepted, st, id).1.states[x]
                    == OrderState::Ordered
        },
    decreases env.len() - id,
{
    let btf = &env.btf;
    if id < env.len() {
        if is_named_definition(env.node(id as int)) && accepted[id as int] {
            crate::order::lemma_unmarked_bound(st.states);
            lemma_order_type(btf, st, id as int, false, env.len());
            let (r, st1) = order_type_spec(btf, st, id as int, false, env.len());
            if r is Ok {
                lemma_order_roots(env, accepted, st1, id + 1);
                let (r2, st2) = crate::pass::order_roots_spec(env, accepted, st1, id + 1);
                lemma_went_on_trans(st, st1, st2);
                if r2 is Ok {
                    assert(embed_target(btf, id as int) == id);
                    assert(st1.states[id as int] == OrderState::Ordered);
                }
            }
        } else {
            lemma_order_roots(env, accepted, st, id + 1);
        }
    }
}

/// Order correctness: where the walk over the selected roots succeeds,
/// whatever an entry of the order has a strong edge to, and that gets a
/// place in the order, stands before that entry. This holds in
/// particular of two named definitions, of which the first embeds the
/// second or is a typedef of it.
pub proof fn law_strong_edges_are_ordered(
    env: crate::decl::Env,
    accepted: Seq<bool>,
    start: OrderSt,
    i: int,
    b: int,
)
    requires
        env.btf.wf(),
        order_inv(&env.btf, start),
        crate::pass::order_roots_spec(env, accepted, start, 0).0 is Ok,
        0 <= i < crate::pass::order_roots_spec(env, accepted, start, 0).1.order.len(),
        strong_edge(
            &env.btf,
            crate::pass::order_roots_spec(env, accepted, start, 0).1.order[i] as int,
            b,
        ),
        0 <= b < env.len(),
        is_recorded(env.node(b)),
    ensures
        occurs_before(crate::pass::order_roots_spec(env, accepted, start, 0).1.order, b, i),
{
    lemma_order_roots(env, accepted, start, 0);
}

/// Order correctness through anonymous structs and unions: where the walk
/// over the selected roots succeeds, whatever an entry of the order embeds
/// through any number of anonymous structs and unions, and that gets a
/// place in the order, stands before that entry.
pub proof fn law_embedded_definitions_are_ordered(
    env: crate::decl::Env,
    accepted: Seq<bool>,
    start: OrderSt,
    i: int,
    b: int,
    n: nat,
)
    requires
        env.btf.wf(),
        order_inv(&env.btf, start),
        crate::pass::order_roots_spec(env, accepted, start, 0).0 is Ok,
        0 <= i < crate::pass::order_roots_spec(env, accepted, start, 0).1.order.len(),
        embeds(
            &env.btf,
            crate::pass::order_roots_spec(env, accepted, start, 0).1.order[i] as int,
            b,
            n,
        ),
        0 <= b < env.len(),
        is_recorded(env.node(b)),
    ensures
        occurs_before(crate::pass::order_roots_spec(env, accepted, start, 0).1.order, b, i),
{
    lemma_order_roots(env, accepted, start, 0);
}

/// Only definitions stand in the order that the walk finds: enums, forward
/// declarations, typedefs, and structs and unions with a name.
pub proof fn law_only_definitions_are_ordered(
    env: crate::decl::Env,
    accepted: Seq<bool>,
    start: OrderSt,
    i: int,
)
    requires
        env.btf.wf(),
        order_inv(&env.btf, start),
        crate::pass::order_roots_spec(env, accepted, start, 0).0 is Ok,
        0 <= i < crate::pass::order_roots_spec(env, accepted, start, 0).1.order.len(),
    ensures
        is_recorded(
            env.node(crate::pass::order_roots_spec(env, accepted, start, 0).1.order[i] as int),
        ),
{
    lemma_order_roots(env, accepted, start, 0);
}

/// Every named definition that was selected stands in the order that a
/// successful walk finds.
pub proof fn law_selected_roots_are_ordered(
    env: crate::decl::Env,
    accepted: Seq<bool>,
    start: OrderSt,
    id: int,
)
    requires
        env.btf.wf(),
        order_inv(&env.btf, start),
        crate::pass::order_roots_spec(env, accepted, start, 0).0 is Ok,
        0 <= id < env.len(),
        is_named_definition(env.node(id)),
        accepted[id],
    ensures
        occurs_before(
            crate::pass::order_roots_spec(env, accepted, start, 0).1.order,
            id,
            crate::pass::order_roots_spec(env, accepted, start, 0).1.order.len() as int,
        ),
{
    lemma_order_roots(env, accepted, start, 0);
    let st = crate::pass::order_roots_spec(env, accepted, start, 0).1;
    assert(st.states[id] == OrderState::Ordered);
}

/// No struct, union, enum or forward declaration stands twice in the order
/// that the walk finds.
pub proof fn law_no_definition_is_ordered_twice(
    env: crate::decl::Env,
    accepted: Seq<bool>,
    start: OrderSt,
    i: int,
    j: int,
)
    requires
        env.btf.wf(),
        order_inv(&env.btf, start),
        crate::pass::order_roots_spec(env, accepted, start, 0).0 is Ok,
        0 <= i < j < crate::pass::order_roots_spec(env, accepted, start, 0).1.order.len(),
        !(env.node(crate::pass::order_roots_spec(env, accepted, start, 0).1.order[i] as int)
            is Typedef),
    ensures
        crate::pass::order_roots_spec(env, accepted, start, 0).1.order[i]
            != crate::pass::order_roots_spec(env, accepted, start, 0).1.order[j],
{
    lemma_order_roots(env, accepted, start, 0);
}

/// The bound on how deep structs and unions are entered does not show: a
/// step of the walk comes to the same with any bound that is at least the
/// number of unmarked types. (And it only moves forward.)
pub proof fn law_order_type_any_bound(
    btf: &Btf,
    st: OrderSt,
    id: int,
    has_ptr: bool,
    n1: nat,
    n2: nat,
)
    requires
        linked(btf@, btf.depths()),
        0 <= id < btf@.len(),
        st.states.len() == btf@.len(),
        unmarked(st.states) <= n1,
        unmarked(st.states) <= n2,
    ensures
        order_type_spec(btf, st, id, has_ptr, n1) == order_type_spec(btf, st, id, has_ptr, n2),
        advanced(st.states, order_type_spec(btf, st, id, has_ptr, n1).1.states),
    decreases n1, 0nat, btf.depths()[id], 2nat, 0nat,
{
    assert(refs_below(btf@[id], btf@.len()));
    assert(refs_descend(btf@[id], btf.depths(), btf.depths()[id]));
    match st.states[id] {
        OrderState::NotOrdered => {
            match btf@[id] {
                BtfType::Volatile(t) => {
                    law_order_type_any_bound(btf, st, t.type_id as int, has_ptr, n1, n2);
                },
                BtfType::Const(t) => {
                    law_order_type_any_bound(btf, st, t.type_id as int, has_ptr, n1, n2);
                },
                BtfType::Restrict(t) => {
                    law_order_type_any_bound(btf, st, t.type_id as int, has_ptr, n1, n2);
                },
                BtfType::Array(t) => {
                    law_order_type_any_bound(btf, st, t.val_type_id as int, has_ptr, n1, n2);
                },
                BtfType::Ptr(t) => {
                    law_order_type_any_bound(btf, st, t.type_id as int, true, n1, n2);
                },
                BtfType::FuncProto(t) => {
                    law_order_type_any_bound(btf, st, t.res_type_id as int, has_ptr, n1, n2);
                    let (r, st1) = order_type_spec(btf, st, t.res_type_id as int, has_ptr, n1);
                    if r is Ok {
                        crate::order::lemma_unmarked_advanced(st.states, st1.states);
                        lemma_order_params_any_bound(btf, st1, id, 0, has_ptr, r->Ok_0, n1, n2);
                        lemma_advanced_trans(
                            st.states,
                            st1.states,
                            order_params_spec(btf, st1, id, 0, has_ptr, r->Ok_0, n1).1.states,
                        );
                    }
                },
                BtfType::Struct(_) | BtfType::Union(_) => {
                    if !has_ptr || !is_named_composite(btf@[id]) {
                        lemma_unmarked_positive(st.states, id);
                        let st1 = marked(st, id, OrderState::Visiting);
                        crate::order::lemma_unmarked_after_mark(
                            st.states,
                            id,
                            OrderState::Visiting,
                        );
                        lemma_order_members_any_bound(
                            btf,
                            st1,
                            id,
                            0,
                            (n1 - 1) as nat,
                            (n2 - 1) as nat,
                        );
                        let st2 = order_members_spec(btf, st1, id, 0, (n1 - 1) as nat).1;
                        let last = order_type_spec(btf, st, id, has_ptr, n1).1;
                        assert forall|j: int|
                            0 <= j < st.states.len() && st.states[j]
                                != OrderState::NotOrdered implies #[trigger] last.states[j]
                            != OrderState::NotOrdered by {
                            assert(st1.states[j] != OrderState::NotOrdered);
                            assert(st2.states[j] != OrderState::NotOrdered);
                        }
                    }
                },
                BtfType::Typedef(t) => {
                    law_order_type_any_bound(btf, st, t.type_id as int, has_ptr, n1, n2);
                    let st1 = order_type_spec(btf, st, t.type_id as int, has_ptr, n1).1;
                    let last = order_type_spec(btf, st, id, has_ptr, n1).1;
                    assert forall|j: int|
                        0 <= j < st.states.len() && st.states[j]
                            != OrderState::NotOrdered implies #[trigger] last.states[j]
                        != OrderState::NotOrdered by {
                        assert(st1.states[j] != OrderState::NotOrdered);
                    }
                },
                _ => {},
            }
        },
        _ => {},
    }
}

/// Moving forward is transitive.
pub proof fn lemma_advanced_trans(a: Seq<OrderState>, b: Seq<OrderState>, c: Seq<OrderState>)
    requires
        advanced(a, b),
        advanced(b, c),
    ensures
        advanced(a, c),
{
    assert forall|j: int| 0 <= j < a.len() && a[j] != OrderState::NotOrdered implies #[trigger] c[j]
        != OrderState::NotOrdered by {
        assert(b[j] != OrderState::NotOrdered);
    }
}

/// The walk over the members of `id` comes to the same with any bound that
/// is at least the number of unmarked types.
pub proof fn lemma_order_members_any_bound(
    btf: &Btf,
    st: OrderSt,
    id: int,
    k: nat,
    n1: nat,
    n2: nat,
)
    requires
        linked(btf@, btf.depths()),
        0 <= id < btf@.len(),
        st.states.len() == btf@.len(),
        unmarked(st.states) <= n1,
        unmarked(st.states) <= n2,
    ensures
        order_members_spec(btf, st, id, k, n1) == order_members_spec(btf, st, id, k, n2),
        advanced(st.states, order_members_spec(btf, st, id, k, n1).1.states),
    decreases n1, 1nat, 0nat, 0nat, members_of(btf@[id]).len() - k,
{
    let members = members_of(btf@[id]);
    assert(refs_below(btf@[id], btf@.len()));
    if k < members.len() {
        let m = members[k as int].type_id as int;
        assert(0 <= m < btf@.len());
        law_order_type_any_bound(btf, st, m, false, n1, n2);
        let (r, st1) = order_type_spec(btf, st, m, false, n1);
        if r is Ok {
            crate::order::lemma_unmarked_advanced(st.states, st1.states);
            lemma_order_members_any_bound(btf, st1, id, k + 1, n1, n2);
            lemma_advanced_trans(
                st.states,
                st1.states,
                order_members_spec(btf, st1, id, k + 1, n1).1.states,
            );
        }
    }
}

/// The walk over the parameters of `id` comes to the same with any bound
/// that is at least the number of unmarked types.
pub proof fn lemma_order_params_any_bound(
    btf: &Btf,
    st: OrderSt,
    id: int,
    k: nat,
    has_ptr: bool,
    strong: bool,
    n1: nat,
    n2: nat,
)
    requires
        linked(btf@, btf.depths()),
        0 <= id < btf@.len(),
        st.states.len() == btf@.len(),
        unmarked(st.states) <= n1,
        unmarked(st.states) <= n2,
    ensures
        order_params_spec(btf, st, id, k, has_ptr, strong, n1) == order_params_spec(
            btf,
            st,
            id,
            k,
            has_ptr,
            strong,
            n2,
        ),
        advanced(st.states, order_params_spec(btf, st, id, k, has_ptr, strong, n1).1.states),
    decreases n1, 0nat, btf.depths()[id], 1nat, params_of(btf@[id]).len() - k,
{
    let params = params_of(btf@[id]);
    assert(refs_below(btf@[id], btf@.len()));
    assert(refs_descend(btf@[id], btf.depths(), btf.depths()[id]));
    if k < params.len() {
        let f = btf@[id]->FuncProto_0;
        assert(params[k as int] == f.params@[k as int].type_id);
        let p = params[k as int] as int;
        law_order_type_any_bound(btf, st, p, has_ptr, n1, n2);
        let (r, st1) = order_type_spec(btf, st, p, has_ptr, n1);
        if r is Ok {
            crate::order::lemma_unmarked_advanced(st.states, st1.states);
            lemma_order_params_any_bound(btf, st1, id, k + 1, has_ptr, strong || r->Ok_0, n1, n2);
            lemma_advanced_trans(
                st.states,
                st1.states,
                order_params_spec(btf, st1, id, k + 1, has_ptr, strong || r->Ok_0, n1).1.states,
            );
        }
    }
}

/// Ranks that show that the walk meets no cycle: for each type one for
/// where it is embedded, and one for where it is reached through a pointer.
pub struct WalkRanks {
    pub embedded: Seq<nat>,
    pub pointed: Seq<nat>,
}

/// The rank of `id` as the walk reaches it.
pub open spec fn walk_rank(r: WalkRanks, id: int, has_ptr: bool) -> nat {
    if has_ptr {
        r.pointed[id]
    } else {
        r.embedded[id]
    }
}

/// Whether the type `c` is of no larger rank than `id`, both as embedded
/// and as reached through a pointer.
pub open spec fn no_higher(r: WalkRanks, c: int, id: int) -> bool {
    r.embedded[c] <= r.embedded[id] && r.pointed[c] <= r.pointed[id]
}

/// Whether the walk descends from the type `id`: what a qualifier, array,
/// typedef or function prototype leads to is of no larger rank; what a
/// pointer points to is, as reached through a pointer, of no larger rank
/// than the pointer; and what a struct or union holds is, as embedded, of
/// a smaller rank than the struct or union, where the walk enters it:
/// where it is embedded, and also where it is reached through a pointer if
/// it has no name.
pub open spec fn walk_descends(btf: &Btf, r: WalkRanks, id: int) -> bool {
    match btf@[id] {
        BtfType::Volatile(t) => no_higher(r, t.type_id as int, id),
        BtfType::Const(t) => no_higher(r, t.type_id as int, id),
        BtfType::Restrict(t) => no_higher(r, t.type_id as int, id),
        BtfType::Typedef(t) => no_higher(r, t.type_id as int, id),
        BtfType::Array(t) => no_higher(r, t.val_type_id as int, id),
        BtfType::Ptr(t) => r.pointed[t.type_id as int] <= r.embedded[id] && r.pointed[t.type_id as int]
            <= r.pointed[id],
        BtfType::FuncProto(f) => no_higher(r, f.res_type_id as int, id) && forall|k: int|
            0 <= k < f.params@.len() ==> no_higher(r, (#[trigger] f.params@[k]).type_id as int, id),
        BtfType::Struct(_) | BtfType::Union(_) => forall|k: int|
            0 <= k < members_of(btf@[id]).len() ==> r.embedded[(#[trigger] members_of(
                btf@[id],
            )[k]).type_id as int] < visiting_floor(btf, r, id),
        _ => true,
    }
}

/// The least rank with which the walk enters the struct or union `c`: its
/// rank as embedded, or, if it has no name, the smaller of its two ranks.
pub open spec fn visiting_floor(btf: &Btf, r: WalkRanks, c: int) -> nat {
    if is_named_composite(btf@[c]) || r.embedded[c] <= r.pointed[c] {
        r.embedded[c]
    } else {
        r.pointed[c]
    }
}

/// Whether the ranks show that the walk meets no cycle.
pub open spec fn walk_ranked(btf: &Btf, r: WalkRanks) -> bool {
    &&& r.embedded.len() == btf@.len()
    &&& r.pointed.len() == btf@.len()
    &&& forall|id: int| 0 <= id < btf@.len() ==> #[trigger] walk_descends(btf, r, id)
}

/// Whether every struct or union that is being walked was entered with a
/// rank above `bound`, and nothing else is being walked.
pub open spec fn visiting_above(btf: &Btf, r: WalkRanks, st: OrderSt, bound: nat) -> bool {
    forall|c: int|
        0 <= c < btf@.len() && #[trigger] st.states[c] == OrderState::Visiting ==> (btf@[c] is Struct
            || btf@[c] is Union) && visiting_floor(btf, r, c) > bound
}

/// Whether the same types are being walked in both states.
pub open spec fn same_visiting(before: OrderSt, after: OrderSt) -> bool {
    forall|x: int|
        0 <= x < before.states.len() ==> (#[trigger] after.states[x] == OrderState::Visiting
            <==> before.states[x] == OrderState::Visiting)
}

/// Where ranks show that the walk meets no cycle, a step of the walk
/// succeeds, and leaves being walked what was.
pub proof fn lemma_order_succeeds(
    btf: &Btf,
    r: WalkRanks,
    st: OrderSt,
    id: int,
    has_ptr: bool,
    nest: nat,
)
    requires
        linked(btf@, btf.depths()),
        walk_ranked(btf, r),
        0 <= id < btf@.len(),
        st.states.len() == btf@.len(),
        unmarked(st.states) <= nest,
        visiting_above(btf, r, st, walk_rank(r, id, has_ptr)),
    ensures
        order_type_spec(btf, st, id, has_ptr, nest).0 is Ok,
        same_visiting(st, order_type_spec(btf, st, id, has_ptr, nest).1),
        advanced(st.states, order_type_spec(btf, st, id, has_ptr, nest).1.states),
    decreases nest, 0nat, btf.depths()[id], 2nat, 0nat,
{
    assert(refs_below(btf@[id], btf@.len()));
    assert(refs_descend(btf@[id], btf.depths(), btf.depths()[id]));
    assert(walk_descends(btf, r, id));
    match st.states[id] {
        OrderState::NotOrdered => {
            match btf@[id] {
                BtfType::Volatile(t) => {
                    lemma_order_succeeds(btf, r, st, t.type_id as int, has_ptr, nest);
                },
                BtfType::Const(t) => {
                    lemma_order_succeeds(btf, r, st, t.type_id as int, has_ptr, nest);
                },
                BtfType::Restrict(t) => {
                    lemma_order_succeeds(btf, r, st, t.type_id as int, has_ptr, nest);
                },
                BtfType::Array(t) => {
                    lemma_order_succeeds(btf, r, st, t.val_type_id as int, has_ptr, nest);
                },
                BtfType::Ptr(t) => {
                    lemma_order_succeeds(btf, r, st, t.type_id as int, true, nest);
                },
                BtfType::FuncProto(t) => {
                    lemma_order_succeeds(btf, r, st, t.res_type_id as int, has_ptr, nest);
                    let (res, st1) = order_type_spec(btf, st, t.res_type_id as int, has_ptr, nest);
                    crate::order::lemma_unmarked_advanced(st.states, st1.states);
                    lemma_order_params_succeed(btf, r, st1, id, 0, has_ptr, res->Ok_0, nest);
                    lemma_advanced_trans(
                        st.states,
                        st1.states,
                        order_params_spec(btf, st1, id, 0, has_ptr, res->Ok_0, nest).1.states,
                    );
                },
                BtfType::Struct(_) | BtfType::Union(_) => {
                    if !has_ptr || !is_named_composite(btf@[id]) {
                        lemma_unmarked_positive(st.states, id);
                        let st1 = marked(st, id, OrderState::Visiting);
                        crate::order::lemma_unmarked_after_mark(
                            st.states,
                            id,
                            OrderState::Visiting,
                        );
                        lemma_order_members_succeed(btf, r, st1, id, 0, (nest - 1) as nat);
                        let st2 = order_members_spec(btf, st1, id, 0, (nest - 1) as nat).1;
                        let last = order_type_spec(btf, st, id, has_ptr, nest).1;
                        assert forall|j: int|
                            0 <= j < st.states.len() && st.states[j]
                                != OrderState::NotOrdered implies #[trigger] last.states[j]
                            != OrderState::NotOrdered by {
                            assert(st1.states[j] != OrderState::NotOrdered);
                            assert(st2.states[j] != OrderState::NotOrdered);
                        }
                        assert forall|x: int| 0 <= x < st.states.len() implies (
                        #[trigger] last.states[x] == OrderState::Visiting <==> st.states[x]
                            == OrderState::Visiting) by {
                            if x != id {
                                assert(st2.states[x] == OrderState::Visiting <==> st1.states[x]
                                    == OrderState::Visiting);
                            }
                        }
                    }
                },
                BtfType::Typedef(t) => {
                    lemma_order_succeeds(btf, r, st, t.type_id as int, has_ptr, nest);
                    let st1 = order_type_spec(btf, st, t.type_id as int, has_ptr, nest).1;
                    let last = order_type_spec(btf, st, id, has_ptr, nest).1;
                    assert forall|j: int|
                        0 <= j < st.states.len() && st.states[j]
                            != OrderState::NotOrdered implies #[trigger] last.states[j]
                        != OrderState::NotOrdered by {
                        assert(st1.states[j] != OrderState::NotOrdered);
                    }
                    assert forall|x: int| 0 <= x < st.states.len() implies (
                    #[trigger] last.states[x] == OrderState::Visiting <==> st.states[x]
                        == OrderState::Visiting) by {
                        assert(st1.states[x] == OrderState::Visiting <==> st.states[x]
                            == OrderState::Visiting);
                    }
                },
                _ => {},
            }
        },
        _ => {},
    }
}

/// Where ranks show that the walk meets no cycle, the walk over the
/// members of `id` succeeds.
pub proof fn lemma_order_members_succeed(
    btf: &Btf,
    r: WalkRanks,
    st: OrderSt,
    id: int,
    k: nat,
    nest: nat,
)
    requires
        linked(btf@, btf.depths()),
        walk_ranked(btf, r),
        0 <= id < btf@.len(),
        st.states.len() == btf@.len(),
        unmarked(st.states) <= nest,
        forall|j: int|
            0 <= j < members_of(btf@[id]).len() ==> visiting_above(
                btf,
                r,
                st,
                r.embedded[(#[trigger] members_of(btf@[id])[j]).type_id as int],
            ),
    ensures
        order_members_spec(btf, st, id, k, nest).0 is Ok,
        same_visiting(st, order_members_spec(btf, st, id, k, nest).1),
        advanced(st.states, order_members_spec(btf, st, id, k, nest).1.states),
    decreases nest, 1nat, 0nat, 0nat, members_of(btf@[id]).len() - k,
{
    let members = members_of(btf@[id]);
    assert(refs_below(btf@[id], btf@.len()));
    if k < members.len() {
        let m = members[k as int].type_id as int;
        assert(0 <= m < btf@.len());
        assert(visiting_above(btf, r, st, r.embedded[members[k as int].type_id as int]));
        lemma_order_succeeds(btf, r, st, m, false, nest);
        let st1 = order_type_spec(btf, st, m, false, nest).1;
        crate::order::lemma_unmarked_advanced(st.states, st1.states);
        assert forall|j: int| 0 <= j < members.len() implies visiting_above(
            btf,
            r,
            st1,
            r.embedded[(#[trigger] members[j]).type_id as int],
        ) by {
            assert(visiting_above(btf, r, st, r.embedded[members[j].type_id as int]));
            assert forall|c: int|
                0 <= c < btf@.len() && #[trigger] st1.states[c]
                    == OrderState::Visiting implies (btf@[c] is Struct || btf@[c] is Union)
                && visiting_floor(btf, r, c) > r.embedded[members[j].type_id as int] by {
                assert(st.states[c] == OrderState::Visiting);
            }
        }
        lemma_order_members_succeed(btf, r, st1, id, k + 1, nest);
        let st2 = order_members_spec(btf, st1, id, k + 1, nest).1;
        lemma_advanced_trans(st.states, st1.states, st2.states);
        assert forall|x: int| 0 <= x < st.states.len() implies (#[trigger] st2.states[x]
            == OrderState::Visiting <==> st.states[x] == OrderState::Visiting) by {
            assert(st1.states[x] == OrderState::Visiting <==> st.states[x]
                == OrderState::Visiting);
        }
    }
}

/// Where ranks show that the walk meets no cycle, the walk over the
/// parameters of `id` succeeds.
pub proof fn lemma_order_params_succeed(
    btf: &Btf,
    r: WalkRanks,
    st: OrderSt,
    id: int,
    k: nat,
    has_ptr: bool,
    strong: bool,
    nest: nat,
)
    requires
        linked(btf@, btf.depths()),
        walk_ranked(btf, r),
        0 <= id < btf@.len(),
        st.states.len() == btf@.len(),
        unmarked(st.states) <= nest,
        visiting_above(btf, r, st, walk_rank(r, id, has_ptr)),
    ensures
        order_params_spec(btf, st, id, k, has_ptr, strong, nest).0 is Ok,
        same_visiting(st, order_params_spec(btf, st, id, k, has_ptr, strong, nest).1),
        advanced(st.states, order_params_spec(btf, st, id, k, has_ptr, strong, nest).1.states),
    decreases nest, 0nat, btf.depths()[id], 1nat, params_of(btf@[id]).len() - k,
{
    let params = params_of(btf@[id]);
    assert(refs_below(btf@[id], btf@.len()));
    assert(refs_descend(btf@[id], btf.depths(), btf.depths()[id]));
    assert(walk_descends(btf, r, id));
    if k < params.len() {
        let f = btf@[id]->FuncProto_0;
        assert(params[k as int] == f.params@[k as int].type_id);
        let p = params[k as int] as int;
        assert(no_higher(r, f.params@[k as int].type_id as int, id));
        lemma_order_succeeds(btf, r, st, p, has_ptr, nest);
        let (res, st1) = order_type_spec(btf, st, p, has_ptr, nest);
        crate::order::lemma_unmarked_advanced(st.states, st1.states);
        assert forall|c: int|
            0 <= c < btf@.len() && #[trigger] st1.states[c] == OrderState::Visiting implies (btf@[c] is Struct
            || btf@[c] is Union) && visiting_floor(btf, r, c) > walk_rank(r, id, has_ptr) by {
            assert(st.states[c] == OrderState::Visiting);
        }
        lemma_order_params_succeed(btf, r, st1, id, k + 1, has_ptr, strong || res->Ok_0, nest);
        let st2 = order_params_spec(btf, st1, id, k + 1, has_ptr, strong || res->Ok_0, nest).1;
        lemma_advanced_trans(st.states, st1.states, st2.states);
        assert forall|x: int| 0 <= x < st.states.len() implies (#[trigger] st2.states[x]
            == OrderState::Visiting <==> st.states[x] == OrderState::Visiting) by {
            assert(st1.states[x] == OrderState::Visiting <==> st.states[x]
                == OrderState::Visiting);
        }
    }
}

/// Where ranks show that the walk meets no cycle, the walk over the roots
/// succeeds.
pub proof fn lemma_order_roots_succeed(
    env: crate::decl::Env,
    r: WalkRanks,
    accepted: Seq<bool>,
    st: OrderSt,
    id: nat,
)
    requires
        env.btf.wf(),
        walk_ranked(&env.btf, r),
        st.states.len() == env.len(),
        forall|x: int| 0 <= x < env.len() ==> #[trigger] st.states[x] != OrderState::Visiting,
    ensures
        crate::pass::order_roots_spec(env, accepted, st, id).0 is Ok,
    decreases env.len() - id,
{
    let btf = &env.btf;
    if id < env.len() {
        if is_named_definition(env.node(id as int)) && accepted[id as int] {
            crate::order::lemma_unmarked_bound(st.states);
            lemma_order_succeeds(btf, r, st, id as int, false, env.len());
            let st1 = order_type_spec(btf, st, id as int, false, env.len()).1;
            assert forall|x: int| 0 <= x < env.len() implies #[trigger] st1.states[x]
                != OrderState::Visiting by {
                assert(st.states[x] != OrderState::Visiting);
            }
            lemma_order_roots_succeed(env, r, accepted, st1, id + 1);
        } else {
            lemma_order_roots_succeed(env, r, accepted, st, id + 1);
        }
    }
}

/// Termination and success of the walk: it always ends (every step is
/// measured), and where ranks show that it meets no cycle, it ends well
/// from a fresh state, whatever is selected.
pub proof fn law_ordering_succeeds_without_cycles(
    env: crate::decl::Env,
    r: WalkRanks,
    accepted: Seq<bool>,
)
    requires
        env.btf.wf(),
        walk_ranked(&env.btf, r),
    ensures
        crate::pass::order_roots_spec(env, accepted, fresh_order(env.len()), 0).0 is Ok,
{
    lemma_order_roots_succeed(env, r, accepted, fresh_order(env.len()), 0);
}

} // verus!
