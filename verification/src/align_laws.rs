//! The bound on how deep alignment follows embedded types does not show
//! where no type embeds itself.
use vstd::prelude::*;
use crate::btf::align_within;
use crate::btf::max_nat;
use crate::btf::members_align;
use crate::btf::Btf;
use crate::types::BtfMember;
use crate::types::BtfType;

verus! {

/// Whether what `t` embeds (what a qualifier, array or typedef stands for,
/// and the types of the members of a struct or union) is in range and of a
/// rank below `own`.
pub open spec fn embeds_descend(t: BtfType, len: nat, rank: Seq<nat>, own: nat) -> bool {
    match t {
        BtfType::Array(a) => a.val_type_id < len && rank[a.val_type_id as int] < own,
        BtfType::Typedef(d) => d.type_id < len && rank[d.type_id as int] < own,
        BtfType::Volatile(q) => q.type_id < len && rank[q.type_id as int] < own,
        BtfType::Const(q) => q.type_id < len && rank[q.type_id as int] < own,
        BtfType::Restrict(q) => q.type_id < len && rank[q.type_id as int] < own,
        BtfType::Struct(s) => members_descend(s.members@, len, rank, own),
        BtfType::Union(u) => members_descend(u.members@, len, rank, own),
        _ => true,
    }
}

/// Whether the types of the members are in range and of a rank below
/// `own`.
pub open spec fn members_descend(members: Seq<BtfMember>, len: nat, rank: Seq<nat>, own: nat) -> bool {
    forall|k: int|
        0 <= k < members.len() ==> (#[trigger] members[k]).type_id < len
            && rank[members[k].type_id as int] < own
}

/// Whether `rank` shows that no type embeds itself: every type has a rank
/// below the number of types, and embeds only types of a smaller rank.
pub open spec fn embed_ranked(types: Seq<BtfType>, rank: Seq<nat>) -> bool {
    &&& rank.len() == types.len()
    &&& forall|id: int| 0 <= id < types.len() ==> #[trigger] rank[id] < types.len()
    &&& forall|id: int|
        0 <= id < types.len() ==> embeds_descend(#[trigger] types[id], types.len(), rank, rank[id])
}

/// With more fuel than its rank, the alignment of a type is the same for
/// any fuel.
pub proof fn lemma_align_any_fuel(
    types: Seq<BtfType>,
    ptr_sz: nat,
    rank: Seq<nat>,
    id: int,
    f1: nat,
    f2: nat,
)
    requires
        embed_ranked(types, rank),
        0 <= id < types.len(),
        f1 > rank[id],
        f2 > rank[id],
    ensures
        align_within(types, ptr_sz, id, f1) == align_within(types, ptr_sz, id, f2),
    decreases rank[id] + 1, 0nat,
{
    assert(embeds_descend(types[id], types.len(), rank, rank[id]));
    match types[id] {
        BtfType::Array(t) => {
            lemma_align_any_fuel(
                types,
                ptr_sz,
                rank,
                t.val_type_id as int,
                (f1 - 1) as nat,
                (f2 - 1) as nat,
            );
        },
        BtfType::Typedef(t) => {
            lemma_align_any_fuel(
                types,
                ptr_sz,
                rank,
                t.type_id as int,
                (f1 - 1) as nat,
                (f2 - 1) as nat,
            );
        },
        BtfType::Volatile(t) => {
            lemma_align_any_fuel(
                types,
                ptr_sz,
                rank,
                t.type_id as int,
                (f1 - 1) as nat,
                (f2 - 1) as nat,
            );
        },
        BtfType::Const(t) => {
            lemma_align_any_fuel(
                types,
                ptr_sz,
                rank,
                t.type_id as int,
                (f1 - 1) as nat,
                (f2 - 1) as nat,
            );
        },
        BtfType::Restrict(t) => {
            lemma_align_any_fuel(
                types,
                ptr_sz,
                rank,
                t.type_id as int,
                (f1 - 1) as nat,
                (f2 - 1) as nat,
            );
        },
        BtfType::Struct(t) => {
            lemma_members_align_any_fuel(
                types,
                ptr_sz,
                rank,
                t.members@,
                t.members@.len(),
                rank[id],
                (f1 - 1) as nat,
                (f2 - 1) as nat,
            );
        },
        BtfType::Union(t) => {
            lemma_members_align_any_fuel(
                types,
                ptr_sz,
                rank,
                t.members@,
                t.members@.len(),
                rank[id],
                (f1 - 1) as nat,
                (f2 - 1) as nat,
            );
        },
        _ => {},
    }
}

/// With at least as much fuel as the ranks of the members' types are
/// below, the largest alignment among the members is the same for any fuel.
pub proof fn lemma_members_align_any_fuel(
    types: Seq<BtfType>,
    ptr_sz: nat,
    rank: Seq<nat>,
    members: Seq<BtfMember>,
    n: nat,
    bound: nat,
    f1: nat,
    f2: nat,
)
    requires
        embed_ranked(types, rank),
        n <= members.len(),
        members_descend(members, types.len(), rank, bound),
        f1 >= bound,
        f2 >= bound,
    ensures
        members_align(types, ptr_sz, members, n, f1) == members_align(types, ptr_sz, members, n, f2),
    decreases bound, n + 1,
{
    if n > 0 {
        lemma_members_align_any_fuel(types, ptr_sz, rank, members, (n - 1) as nat, bound, f1, f2);
        let m = members[n - 1].type_id as int;
        assert(rank[m] < bound);
        lemma_align_any_fuel(types, ptr_sz, rank, m, f1, f2);
    }
}

/// The largest alignment among the types of the first `n` members, and at
/// least 1.
pub open spec fn largest_member_alignment(btf: &Btf, members: Seq<BtfMember>, n: nat) -> nat
    decreases n,
{
    if n == 0 {
        1
    } else {
        max_nat(
            largest_member_alignment(btf, members, (n - 1) as nat),
            btf.spec_align_of(members[n - 1].type_id as int),
        )
    }
}

/// What a type stands for where alignment looks through it: the element of
/// an array, the target of a typedef or qualifier.
pub open spec fn seen_through(t: BtfType) -> Option<int> {
    match t {
        BtfType::Array(a) => Some(a.val_type_id as int),
        BtfType::Typedef(d) => Some(d.type_id as int),
        BtfType::Volatile(q) => Some(q.type_id as int),
        BtfType::Const(q) => Some(q.type_id as int),
        BtfType::Restrict(q) => Some(q.type_id as int),
        _ => None,
    }
}

/// Where no type embeds itself, the alignment of a struct or union is the
/// largest alignment among the types of its members, and at least 1.
pub proof fn law_alignment_of_composite(btf: &Btf, rank: Seq<nat>, id: int)
    requires
        embed_ranked(btf@, rank),
        0 <= id < btf@.len(),
        btf@[id] is Struct || btf@[id] is Union,
    ensures
        btf.spec_align_of(id) == largest_member_alignment(
            btf,
            crate::order::members_of(btf@[id]),
            crate::order::members_of(btf@[id]).len(),
        ),
{
    let members = crate::order::members_of(btf@[id]);
    assert(embeds_descend(btf@[id], btf@.len(), rank, rank[id]));
    lemma_largest(btf, rank, members, members.len(), rank[id]);
}

/// The alignment with one unit of fuel less than the number of types is
/// the largest alignment among the members, if their ranks are below
/// `bound` and that below the number of types.
proof fn lemma_largest(btf: &Btf, rank: Seq<nat>, members: Seq<BtfMember>, n: nat, bound: nat)
    requires
        embed_ranked(btf@, rank),
        n <= members.len(),
        members_descend(members, btf@.len(), rank, bound),
        bound < btf@.len(),
    ensures
        members_align(
            btf@,
            btf.spec_ptr_sz() as nat,
            members,
            n,
            (btf@.len() - 1) as nat,
        ) == largest_member_alignment(btf, members, n),
    decreases n,
{
    if n > 0 {
        lemma_largest(btf, rank, members, (n - 1) as nat, bound);
        let m = members[n - 1].type_id as int;
        assert(rank[m] < bound);
        lemma_align_any_fuel(
            btf@,
            btf.spec_ptr_sz() as nat,
            rank,
            m,
            (btf@.len() - 1) as nat,
            btf@.len(),
        );
    }
}

/// Where no type embeds itself, the alignment of an array, typedef or
/// qualifier is that of what it stands for.
pub proof fn law_alignment_seen_through(btf: &Btf, rank: Seq<nat>, id: int)
    requires
        embed_ranked(btf@, rank),
        0 <= id < btf@.len(),
        seen_through(btf@[id]) is Some,
    ensures
        btf.spec_align_of(id) == btf.spec_align_of(seen_through(btf@[id])->Some_0),
{
    let target = seen_through(btf@[id])->Some_0;
    assert(embeds_descend(btf@[id], btf@.len(), rank, rank[id]));
    lemma_align_any_fuel(
        btf@,
        btf.spec_ptr_sz() as nat,
        rank,
        target,
        (btf@.len() - 1) as nat,
        btf@.len(),
    );
}

} // verus!
