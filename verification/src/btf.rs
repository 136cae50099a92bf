//! The type graph: an indexable collection of nodes with size and alignment
//! queries.
use vstd::prelude::*;
use crate::error::BtfError;
use crate::error::BtfErrorKind;
use crate::types::BtfDatasecVar;
use crate::types::BtfFuncParam;
use crate::types::BtfMember;
use crate::types::BtfType;

verus! {

/// A BTF type graph. Nodes are addressed by their index, the type id; id 0 is
/// the `Void` sentinel.
///
/// Besides the nodes the graph records, for each id, the depth of the chain
/// of references (pointers, qualifiers, arrays, typedefs, function
/// prototypes) that starts there. In a well-formed graph every such
/// reference leads to a smaller depth, so that following them ends.
#[derive(Debug)]
pub struct Btf {
    types: Vec<BtfType>,
    ptr_sz: u32,
    depths: Vec<u32>,
}

/// `⌈bits / 8⌉`.
pub open spec fn bytes_for_bits(bits: nat) -> nat {
    (bits + 7) / 8
}

/// The smaller of two numbers.
pub open spec fn min_nat(a: nat, b: nat) -> nat {
    if a <= b {
        a
    } else {
        b
    }
}

/// The larger of two numbers.
pub open spec fn max_nat(a: nat, b: nat) -> nat {
    if a >= b {
        a
    } else {
        b
    }
}

/// Whether every id that `t` mentions is below `len`.
pub open spec fn refs_below(t: BtfType, len: nat) -> bool {
    match t {
        BtfType::Ptr(p) => p.type_id < len,
        BtfType::Array(a) => a.val_type_id < len && a.idx_type_id < len,
        BtfType::Struct(s) => forall|k: int|
            0 <= k < s.members@.len() ==> (#[trigger] s.members@[k]).type_id < len,
        BtfType::Union(u) => forall|k: int|
            0 <= k < u.members@.len() ==> (#[trigger] u.members@[k]).type_id < len,
        BtfType::Typedef(d) => d.type_id < len,
        BtfType::Volatile(q) => q.type_id < len,
        BtfType::Const(q) => q.type_id < len,
        BtfType::Restrict(q) => q.type_id < len,
        BtfType::Func(f) => f.proto_type_id < len,
        BtfType::FuncProto(f) => f.res_type_id < len && forall|k: int|
            0 <= k < f.params@.len() ==> (#[trigger] f.params@[k]).type_id < len,
        BtfType::Var(v) => v.type_id < len,
        BtfType::Datasec(d) => forall|k: int|
            0 <= k < d.vars@.len() ==> (#[trigger] d.vars@[k]).type_id < len,
        _ => true,
    }
}

/// Whether the references that lead out of `t` (the target of a pointer,
/// qualifier, array or typedef; the result and parameters of a function
/// prototype) all go to ids whose depth in `depths` is below `own`.
pub open spec fn refs_descend(t: BtfType, depths: Seq<nat>, own: nat) -> bool {
    match t {
        BtfType::Ptr(p) => depths[p.type_id as int] < own,
        BtfType::Array(a) => depths[a.val_type_id as int] < own,
        BtfType::Typedef(d) => depths[d.type_id as int] < own,
        BtfType::Volatile(q) => depths[q.type_id as int] < own,
        BtfType::Const(q) => depths[q.type_id as int] < own,
        BtfType::Restrict(q) => depths[q.type_id as int] < own,
        BtfType::FuncProto(f) => depths[f.res_type_id as int] < own && forall|k: int|
            0 <= k < f.params@.len() ==> depths[(#[trigger] f.params@[k]).type_id as int] < own,
        _ => true,
    }
}

/// Whether `depths` assigns every node of `types` a depth that its
/// references descend from, with every mentioned id in range.
pub open spec fn linked(types: Seq<BtfType>, depths: Seq<nat>) -> bool {
    &&& depths.len() == types.len()
    &&& forall|id: int|
        0 <= id < types.len() ==> refs_below(#[trigger] types[id], types.len())
    &&& forall|id: int|
        0 <= id < types.len() ==> refs_descend(#[trigger] types[id], depths, depths[id])
}

/// The size in bytes of the type `id`: what it occupies as a member or
/// variable.
pub open spec fn size_of(types: Seq<BtfType>, depths: Seq<nat>, ptr_sz: nat, id: int) -> nat
    decreases depths[id],
    when linked(types, depths) && 0 <= id < types.len()
{
    match types[id] {
        BtfType::Int(t) => bytes_for_bits(t.bits as nat),
        BtfType::Ptr(_) => ptr_sz,
        BtfType::Array(t) => t.nelems as nat * size_of(types, depths, ptr_sz, t.val_type_id as int),
        BtfType::Struct(t) => t.sz as nat,
        BtfType::Union(t) => t.sz as nat,
        BtfType::Enum(t) => bytes_for_bits(t.sz_bits as nat),
        BtfType::Typedef(t) => size_of(types, depths, ptr_sz, t.type_id as int),
        BtfType::Volatile(t) => size_of(types, depths, ptr_sz, t.type_id as int),
        BtfType::Const(t) => size_of(types, depths, ptr_sz, t.type_id as int),
        BtfType::Restrict(t) => size_of(types, depths, ptr_sz, t.type_id as int),
        BtfType::Datasec(t) => t.sz as nat,
        _ => 0,
    }
}

/// The alignment in bytes of the type `id`, following embedded types at
/// most `fuel` levels deep. A chain of embeddings that repeats no type is
/// shorter than the number of types, so with that much fuel the bound is
/// never met on a graph without an embedding cycle.
pub open spec fn align_within(types: Seq<BtfType>, ptr_sz: nat, id: int, fuel: nat) -> nat
    decreases fuel, 0nat,
{
    if !(0 <= id < types.len()) {
        0
    } else {
        match types[id] {
            BtfType::Int(t) => min_nat(ptr_sz, bytes_for_bits(t.bits as nat)),
            BtfType::Enum(t) => min_nat(ptr_sz, bytes_for_bits(t.sz_bits as nat)),
            BtfType::Ptr(_) => ptr_sz,
            BtfType::Array(t) => if fuel == 0 {
                0
            } else {
                align_within(types, ptr_sz, t.val_type_id as int, (fuel - 1) as nat)
            },
            BtfType::Typedef(t) => if fuel == 0 {
                0
            } else {
                align_within(types, ptr_sz, t.type_id as int, (fuel - 1) as nat)
            },
            BtfType::Volatile(t) => if fuel == 0 {
                0
            } else {
                align_within(types, ptr_sz, t.type_id as int, (fuel - 1) as nat)
            },
            BtfType::Const(t) => if fuel == 0 {
                0
            } else {
                align_within(types, ptr_sz, t.type_id as int, (fuel - 1) as nat)
            },
            BtfType::Restrict(t) => if fuel == 0 {
                0
            } else {
                align_within(types, ptr_sz, t.type_id as int, (fuel - 1) as nat)
            },
            BtfType::Struct(t) => if fuel == 0 {
                0
            } else {
                members_align(types, ptr_sz, t.members@, t.members@.len(), (fuel - 1) as nat)
            },
            BtfType::Union(t) => if fuel == 0 {
                0
            } else {
                members_align(types, ptr_sz, t.members@, t.members@.len(), (fuel - 1) as nat)
            },
            _ => 0,
        }
    }
}

/// The largest alignment among the first `n` of `members`, and at least 1.
pub open spec fn members_align(
    types: Seq<BtfType>,
    ptr_sz: nat,
    members: Seq<BtfMember>,
    n: nat,
    fuel: nat,
) -> nat
    decreases fuel, n,
{
    if n == 0 {
        1
    } else {
        max_nat(
            members_align(types, ptr_sz, members, (n - 1) as nat, fuel),
            align_within(types, ptr_sz, members[n - 1].type_id as int, fuel),
        )
    }
}

impl View for Btf {
    type V = Seq<BtfType>;

    /// The nodes, indexed by type id.
    closed spec fn view(&self) -> Seq<BtfType> {
        self.types@
    }
}

impl Btf {
    /// The size of a pointer in bytes.
    pub closed spec fn spec_ptr_sz(&self) -> u32 {
        self.ptr_sz
    }

    /// The recorded depth of each id.
    pub closed spec fn depths(&self) -> Seq<nat> {
        Seq::new(self.depths@.len(), |i: int| self.depths@[i] as nat)
    }

    /// The size in bytes of the type `id`.
    pub open spec fn spec_size_of(&self, id: int) -> nat {
        size_of(self@, self.depths(), self.spec_ptr_sz() as nat, id)
    }

    /// The alignment in bytes of the type `id`.
    pub open spec fn spec_align_of(&self, id: int) -> nat {
        align_within(self@, self.spec_ptr_sz() as nat, id, self@.len())
    }

    /// Well-formedness: the graph starts with the `Void` sentinel, ids fit
    /// in 32 bits, pointers have 4 or 8 bytes, every reference is in range
    /// and descends in depth, and every size fits in 32 bits.
    pub open spec fn wf(&self) -> bool {
        &&& 1 <= self@.len() <= u32::MAX
        &&& self@[0] is Void
        &&& (self.spec_ptr_sz() == 4 || self.spec_ptr_sz() == 8)
        &&& linked(self@, self.depths())
        &&& forall|id: int| 0 <= id < self@.len() ==> #[trigger] self.spec_size_of(id) <= u32::MAX
    }

    /// The size of a pointer in bytes.
    #[verifier::when_used_as_spec(spec_ptr_sz)]
    pub fn ptr_sz(&self) -> (sz: u32)
        ensures
            sz == self.spec_ptr_sz(),
    {
        self.ptr_sz
    }

    /// The nodes, indexed by type id.
    pub fn types(&self) -> (types: &Vec<BtfType>)
        ensures
            types@ == self@,
    {
        &self.types
    }

    /// The node with the given type id.
    pub fn type_by_id(&self, type_id: u32) -> (t: &BtfType)
        requires
            type_id < self@.len(),
        ensures
            *t == self@[type_id as int],
    {
        &self.types[type_id as usize]
    }

    /// The number of nodes, the `Void` sentinel included.
    pub fn type_cnt(&self) -> (cnt: u32)
        requires
            self@.len() <= u32::MAX,
        ensures
            cnt == self@.len(),
    {
        self.types.len() as u32
    }

    /// The size in bytes of the type `type_id`.
    pub fn get_size_of(&self, type_id: u32) -> (sz: u32)
        requires
            self.wf(),
            type_id < self@.len(),
        ensures
            sz == self.spec_size_of(type_id as int),
        decreases self.depths()[type_id as int],
    {
        assert(self.spec_size_of(type_id as int) <= u32::MAX);
        assert(refs_below(self@[type_id as int], self@.len()));
        assert(refs_descend(self@[type_id as int], self.depths(), self.depths()[type_id as int]));
        match self.type_by_id(type_id) {
            BtfType::Void => 0,
            BtfType::Int(t) => ceil_bytes(t.bits),
            BtfType::Volatile(t) => self.get_size_of(t.type_id),
            BtfType::Const(t) => self.get_size_of(t.type_id),
            BtfType::Restrict(t) => self.get_size_of(t.type_id),
            BtfType::Ptr(_) => self.ptr_sz,
            BtfType::Array(t) => {
                let elem: u32 = self.get_size_of(t.val_type_id);
                t.nelems * elem
            },
            BtfType::FuncProto(_) => 0,
            BtfType::Struct(t) => t.sz,
            BtfType::Union(t) => t.sz,
            BtfType::Enum(t) => ceil_bytes(t.sz_bits),
            BtfType::Fwd(_) => 0,
            BtfType::Typedef(t) => self.get_size_of(t.type_id),
            BtfType::Func(_) => 0,
            BtfType::Var(_) => 0,
            BtfType::Datasec(t) => t.sz,
        }
    }

    /// The alignment in bytes of the type `type_id`.
    pub fn get_align_of(&self, type_id: u32) -> (align: u32)
        requires
            self.wf(),
            type_id < self@.len(),
        ensures
            align == self.spec_align_of(type_id as int),
    {
        self.align_within(type_id, self.types.len())
    }

    /// The alignment of `type_id`, following embedded types at most `fuel`
    /// levels deep.
    fn align_within(&self, type_id: u32, fuel: usize) -> (align: u32)
        requires
            self.wf(),
            type_id < self@.len(),
        ensures
            align == align_within(self@, self.spec_ptr_sz() as nat, type_id as int, fuel as nat),
            align <= 8,
        decreases fuel, 0nat,
    {
        assert(refs_below(self@[type_id as int], self@.len()));
        match self.type_by_id(type_id) {
            BtfType::Int(t) => min_u32(self.ptr_sz, ceil_bytes(t.bits)),
            BtfType::Enum(t) => min_u32(self.ptr_sz, ceil_bytes(t.sz_bits)),
            BtfType::Ptr(_) => self.ptr_sz,
            BtfType::Array(t) => if fuel == 0 {
                0
            } else {
                self.align_within(t.val_type_id, fuel - 1)
            },
            BtfType::Typedef(t) => if fuel == 0 {
                0
            } else {
                self.align_within(t.type_id, fuel - 1)
            },
            BtfType::Volatile(t) => if fuel == 0 {
                0
            } else {
                self.align_within(t.type_id, fuel - 1)
            },
            BtfType::Const(t) => if fuel == 0 {
                0
            } else {
                self.align_within(t.type_id, fuel - 1)
            },
            BtfType::Restrict(t) => if fuel == 0 {
                0
            } else {
                self.align_within(t.type_id, fuel - 1)
            },
            BtfType::Struct(t) => if fuel == 0 {
                0
            } else {
                self.members_align(&t.members, fuel - 1)
            },
            BtfType::Union(t) => if fuel == 0 {
                0
            } else {
                self.members_align(&t.members, fuel - 1)
            },
            _ => 0,
        }
    }

    /// The largest alignment among `members`, and at least 1.
    fn members_align(&self, members: &Vec<BtfMember>, fuel: usize) -> (align: u32)
        requires
            self.wf(),
            forall|k: int| 0 <= k < members@.len() ==> (#[trigger] members@[k]).type_id < self@.len(),
        ensures
            align == members_align(
                self@,
                self.spec_ptr_sz() as nat,
                members@,
                members@.len(),
                fuel as nat,
            ),
            1 <= align <= 8,
        decreases fuel, members@.len(),
    {
        let mut align: u32 = 1;
        let mut k: usize = 0;
        while k < members.len()
            invariant
                self.wf(),
                forall|j: int|
                    0 <= j < members@.len() ==> (#[trigger] members@[j]).type_id < self@.len(),
                k <= members@.len(),
                align == members_align(self@, self.spec_ptr_sz() as nat, members@, k as nat, fuel as nat),
                1 <= align <= 8,
            decreases members@.len() - k,
        {
            let a: u32 = self.align_within(members[k].type_id, fuel);
            if a > align {
                align = a;
            }
            k += 1;
        }
        align
    }
}

/// `⌈bits / 8⌉`, computed without overflow.
fn ceil_bytes(bits: u32) -> (bytes: u32)
    ensures
        bytes == bytes_for_bits(bits as nat),
{
    if bits % 8 == 0 {
        bits / 8
    } else {
        bits / 8 + 1
    }
}

fn min_u32(a: u32, b: u32) -> (m: u32)
    ensures
        m == min_nat(a as nat, b as nat),
{
    if a <= b {
        a
    } else {
        b
    }
}

/// Whether a graph can be used: it starts with the `Void` sentinel, ids fit
/// in 32 bits, pointers have 4 or 8 bytes, and there are depths that every
/// reference descends from and with which every size fits in 32 bits.
pub open spec fn well_formed(types: Seq<BtfType>, ptr_sz: u32) -> bool {
    &&& 1 <= types.len() <= u32::MAX
    &&& types[0] is Void
    &&& (ptr_sz == 4 || ptr_sz == 8)
    &&& exists|depths: Seq<nat>| #[trigger]
        linked(types, depths) && forall|id: int|
            0 <= id < types.len() ==> #[trigger] size_of(types, depths, ptr_sz as nat, id)
                <= u32::MAX
}

/// Whether `c` is one of the ids that the references out of `t` lead to.
pub open spec fn leads_to(t: BtfType, c: int) -> bool {
    match t {
        BtfType::Ptr(p) => c == p.type_id,
        BtfType::Array(a) => c == a.val_type_id,
        BtfType::Typedef(d) => c == d.type_id,
        BtfType::Volatile(q) => c == q.type_id,
        BtfType::Const(q) => c == q.type_id,
        BtfType::Restrict(q) => c == q.type_id,
        BtfType::FuncProto(f) => c == f.res_type_id || exists|k: int|
            0 <= k < f.params@.len() && c == (#[trigger] f.params@[k]).type_id,
        _ => false,
    }
}

/// References descend exactly if everything they lead to is less deep.
pub proof fn lemma_descend_leads(t: BtfType, depths: Seq<nat>, own: nat)
    ensures
        refs_descend(t, depths, own) <==> forall|c: int| leads_to(t, c) ==> depths[c] < own,
{
    if refs_descend(t, depths, own) {
        assert forall|c: int| leads_to(t, c) implies depths[c] < own by {
            match t {
                BtfType::FuncProto(f) => {
                    if c != f.res_type_id {
                        let k = choose|k: int|
                            0 <= k < f.params@.len() && c == (#[trigger] f.params@[k]).type_id;
                        assert(depths[f.params@[k].type_id as int] < own);
                    }
                },
                _ => {},
            }
        }
    }
    if forall|c: int| leads_to(t, c) ==> depths[c] < own {
        match t {
            BtfType::FuncProto(f) => {
                assert(leads_to(t, f.res_type_id as int));
                assert forall|k: int| 0 <= k < f.params@.len() implies depths[(
                #[trigger] f.params@[k]).type_id as int] < own by {
                    assert(leads_to(t, f.params@[k].type_id as int));
                }
            },
            BtfType::Ptr(p) => {
                assert(leads_to(t, p.type_id as int));
            },
            BtfType::Array(a) => {
                assert(leads_to(t, a.val_type_id as int));
            },
            BtfType::Typedef(d) => {
                assert(leads_to(t, d.type_id as int));
            },
            BtfType::Volatile(q) => {
                assert(leads_to(t, q.type_id as int));
            },
            BtfType::Const(q) => {
                assert(leads_to(t, q.type_id as int));
            },
            BtfType::Restrict(q) => {
                assert(leads_to(t, q.type_id as int));
            },
            _ => {},
        }
    }
}

/// The size of a type does not depend on which depths show that the
/// references descend.
pub proof fn lemma_size_of_any_depths(
    types: Seq<BtfType>,
    d1: Seq<nat>,
    d2: Seq<nat>,
    ptr_sz: nat,
    id: int,
)
    requires
        linked(types, d1),
        linked(types, d2),
        0 <= id < types.len(),
    ensures
        size_of(types, d1, ptr_sz, id) == size_of(types, d2, ptr_sz, id),
    decreases d1[id],
{
    assert(refs_below(types[id], types.len()));
    assert(refs_descend(types[id], d1, d1[id]));
    match types[id] {
        BtfType::Array(t) => lemma_size_of_any_depths(types, d1, d2, ptr_sz, t.val_type_id as int),
        BtfType::Typedef(t) => lemma_size_of_any_depths(types, d1, d2, ptr_sz, t.type_id as int),
        BtfType::Volatile(t) => lemma_size_of_any_depths(types, d1, d2, ptr_sz, t.type_id as int),
        BtfType::Const(t) => lemma_size_of_any_depths(types, d1, d2, ptr_sz, t.type_id as int),
        BtfType::Restrict(t) => lemma_size_of_any_depths(types, d1, d2, ptr_sz, t.type_id as int),
        _ => {},
    }
}

/// The number of flags that are not set.
pub open spec fn unset(flags: Seq<bool>) -> nat
    decreases flags.len(),
{
    if flags.len() == 0 {
        0
    } else {
        unset(flags.drop_last()) + if flags.last() {
            0nat
        } else {
            1nat
        }
    }
}

/// Setting a flag that was not set leaves one unset flag less.
pub proof fn lemma_unset_after_set(flags: Seq<bool>, i: int)
    requires
        0 <= i < flags.len(),
        !flags[i],
    ensures
        unset(flags.update(i, true)) + 1 == unset(flags),
    decreases flags.len(),
{
    let after = flags.update(i, true);
    if i == flags.len() - 1 {
        assert(after.drop_last() =~= flags.drop_last());
    } else {
        lemma_unset_after_set(flags.drop_last(), i);
        assert(after.drop_last() =~= flags.drop_last().update(i, true));
    }
}

/// No more flags are unset than there are flags.
pub proof fn lemma_unset_bound(flags: Seq<bool>)
    ensures
        unset(flags) <= flags.len(),
    decreases flags.len(),
{
    if flags.len() > 0 {
        lemma_unset_bound(flags.drop_last());
    }
}

/// Every type without a depth has a reference to another type without a
/// depth.
pub open spec fn stuck_all(types: Seq<BtfType>, done: Seq<bool>) -> bool {
    forall|j: int|
        0 <= j < types.len() && !done[j] ==> exists|c: int|
            0 <= c < types.len() && #[trigger] leads_to(types[j], c) && !done[c]
}

/// Where every type without a depth has a reference to another type
/// without a depth, no depths exist that the references descend from.
pub proof fn lemma_stuck(types: Seq<BtfType>, done: Seq<bool>, depths: Seq<nat>, id: int)
    requires
        done.len() == types.len(),
        0 <= id < types.len(),
        !done[id],
        stuck_all(types, done),
    ensures
        !linked(types, depths),
    decreases depths[id],
{
    if linked(types, depths) {
        let c = choose|c: int|
            0 <= c < types.len() && #[trigger] leads_to(types[id], c) && !done[c];
        assert(refs_descend(types[id], depths, depths[id]));
        lemma_descend_leads(types[id], depths, depths[id]);
        lemma_stuck(types, done, depths, c);
    }
}

/// The depths found so far: the references of the types that have one
/// descend, and no depth is larger than the number of types that have one.
pub open spec fn depths_so_far(types: Seq<BtfType>, done: Seq<bool>, found: Seq<u32>) -> bool {
    &&& done.len() == types.len()
    &&& found.len() == types.len()
    &&& forall|j: int, c: int|
        0 <= j < types.len() && done[j] && #[trigger] leads_to(types[j], c) ==> done[c] && found[c]
            < found[j]
    &&& forall|j: int|
        0 <= j < types.len() && #[trigger] done[j] ==> found[j] + unset(done) < types.len()
}

/// Every type without a depth has a reference to another type without a
/// depth.
pub open spec fn stuck(types: Seq<BtfType>, done: Seq<bool>, upto: int) -> bool {
    forall|j: int|
        0 <= j < upto && !done[j] ==> exists|c: int|
            0 <= c < types.len() && #[trigger] leads_to(types[j], c) && !done[c]
}

/// What the references of one type say about its depth.
pub enum Reach {
    /// Every reference leads to a type with a depth; the type is one deeper
    /// than the deepest of them, and of depth 0 if it has no references.
    Depth(u32),
    /// A reference leads to a type without a depth.
    Pending,
}

impl Btf {
    /// Looks at the references of `types[id]`.
    fn reach(types: &Vec<BtfType>, done: &Vec<bool>, found: &Vec<u32>, id: usize) -> (r: Reach)
        requires
            id < types@.len(),
            done@.len() == types@.len(),
            found@.len() == types@.len(),
            refs_below(types@[id as int], types@.len()),
            forall|j: int| 0 <= j < found@.len() && done@[j] ==> #[trigger] found@[j] < u32::MAX,
        ensures
            match r {
                Reach::Depth(d) => {
                    &&& forall|c: int| #[trigger]
                        leads_to(types@[id as int], c) ==> done@[c] && found@[c] < d
                    &&& d == 0 || exists|c: int|
                        0 <= c < types@.len() && done@[c] && d == #[trigger] found@[c] + 1
                },
                Reach::Pending => exists|c: int|
                    0 <= c < types@.len() && #[trigger] leads_to(types@[id as int], c) && !done@[c],
            },
    {
        let target: Option<u32> = match &types[id] {
            BtfType::Ptr(t) => Some(t.type_id),
            BtfType::Array(t) => Some(t.val_type_id),
            BtfType::Typedef(t) => Some(t.type_id),
            BtfType::Volatile(t) => Some(t.type_id),
            BtfType::Const(t) => Some(t.type_id),
            BtfType::Restrict(t) => Some(t.type_id),
            BtfType::FuncProto(t) => Some(t.res_type_id),
            _ => None,
        };
        let first: u32 = match target {
            None => {
                return Reach::Depth(0);
            },
            Some(c) => c,
        };
        assert(leads_to(types@[id as int], first as int));
        if !done[first as usize] {
            return Reach::Pending;
        }
        let mut d: u32 = found[first as usize] + 1;
        match &types[id] {
            BtfType::FuncProto(t) => {
                let mut k: usize = 0;
                while k < t.params.len()
                    invariant
                        id < types@.len(),
                        types@[id as int] == BtfType::FuncProto(*t),
                        done@.len() == types@.len(),
                        found@.len() == types@.len(),
                        refs_below(types@[id as int], types@.len()),
                        forall|j: int|
                            0 <= j < found@.len() && done@[j] ==> #[trigger] found@[j] < u32::MAX,
                        k <= t.params@.len(),
                        done@[t.res_type_id as int] && found@[t.res_type_id as int] < d,
                        forall|j: int|
                            0 <= j < k ==> done@[(#[trigger] t.params@[j]).type_id as int]
                                && found@[t.params@[j].type_id as int] < d,
                        exists|c: int|
                            0 <= c < types@.len() && done@[c] && d == #[trigger] found@[c] + 1,
                    decreases t.params@.len() - k,
                {
                    let c: u32 = t.params[k].type_id;
                    assert(leads_to(types@[id as int], c as int));
                    if !done[c as usize] {
                        return Reach::Pending;
                    }
                    if found[c as usize] >= d {
                        d = found[c as usize] + 1;
                    }
                    k += 1;
                }
                assert forall|c: int| #[trigger] leads_to(types@[id as int], c) implies done@[c]
                    && found@[c] < d by {
                    if c != t.res_type_id {
                        let j = choose|j: int|
                            0 <= j < t.params@.len() && c == (#[trigger] t.params@[j]).type_id;
                        assert(done@[t.params@[j].type_id as int]);
                    }
                }
            },
            _ => {},
        }
        Reach::Depth(d)
    }

    /// Finds the depth of every type: 0 for a type without references, one
    /// more than the deepest type it leads to otherwise. Fails with the id
    /// of a type whose references never end, if there is one.
    fn find_depths(types: &Vec<BtfType>) -> (r: Result<Vec<u32>, u32>)
        requires
            types@.len() <= u32::MAX,
            forall|id: int| 0 <= id < types@.len() ==> refs_below(#[trigger] types@[id], types@.len()),
        ensures
            match r {
                Ok(found) => linked(types@, Seq::new(found@.len(), |i: int| found@[i] as nat)),
                Err(id) => id < types@.len() && forall|depths: Seq<nat>| !linked(types@, depths),
            },
    {
        let n: usize = types.len();
        let mut done: Vec<bool> = Vec::new();
        let mut found: Vec<u32> = Vec::new();
        let mut i: usize = 0;
        while i < n
            invariant
                i <= n,
                n == types@.len(),
                done@.len() == i,
                found@.len() == i,
                forall|j: int| 0 <= j < i ==> !(#[trigger] done@[j]),
                unset(done@) == i,
            decreases n - i,
        {
            let ghost before = done@;
            done.push(false);
            found.push(0);
            assert(done@.drop_last() =~= before);
            i += 1;
        }
        let mut remaining: usize = n;
        let mut progress: bool = true;
        while progress
            invariant
                n == types@.len(),
                n <= u32::MAX,
                forall|id: int|
                    0 <= id < types@.len() ==> refs_below(#[trigger] types@[id], types@.len()),
                depths_so_far(types@, done@, found@),
                remaining == unset(done@),
                !progress ==> stuck(types@, done@, n as int),
            decreases
                    remaining + (if progress {
                        1nat
                    } else {
                        0nat
                    }),
        {
            let ghost at_start = remaining;
            progress = false;
            let mut id: usize = 0;
            while id < n
                invariant
                    n == types@.len(),
                    n <= u32::MAX,
                    id <= n,
                    forall|id: int|
                        0 <= id < types@.len() ==> refs_below(#[trigger] types@[id], types@.len()),
                    depths_so_far(types@, done@, found@),
                    remaining == unset(done@),
                    remaining <= at_start,
                    progress ==> remaining < at_start,
                    !progress ==> stuck(types@, done@, id as int),
                decreases n - id,
            {
                if !done[id] {
                    assert forall|j: int| 0 <= j < found@.len() && done@[j] implies #[trigger] found@[j]
                        < u32::MAX by {
                        assert(found@[j] + unset(done@) < types@.len());
                    }
                    match Btf::reach(types, &done, &found, id) {
                        Reach::Depth(d) => {
                            proof {
                                lemma_unset_after_set(done@, id as int);
                            }
                            let ghost done_before = done@;
                            let ghost found_before = found@;
                            done.set(id, true);
                            found.set(id, d);
                            remaining -= 1;
                            progress = true;
                            proof {
                                assert forall|j: int, c: int|
                                    0 <= j < types@.len() && done@[j] && #[trigger] leads_to(
                                        types@[j],
                                        c,
                                    ) implies done@[c] && found@[c] < found@[j] by {
                                    if j == id {
                                        assert(done_before[c] && found_before[c] < d);
                                        assert(c != id);
                                    } else {
                                        assert(done_before[j]);
                                        assert(done_before[c]);
                                        assert(c != id);
                                    }
                                }
                                lemma_unset_bound(done_before);
                                assert forall|j: int|
                                    0 <= j < types@.len() && #[trigger] done@[j] implies found@[j]
                                    + unset(done@) < types@.len() by {
                                    if j == id {
                                        if d != 0 {
                                            let c = choose|c: int|
                                                0 <= c < types@.len() && done_before[c] && d
                                                    == #[trigger] found_before[c] + 1;
                                            assert(found_before[c] + unset(done_before)
                                                < types@.len());
                                        }
                                    } else {
                                        assert(done_before[j]);
                                    }
                                }
                            }
                        },
                        Reach::Pending => {},
                    }
                }
                id += 1;
            }
        }
        let mut id: usize = 0;
        while id < n
            invariant
                n == types@.len(),
                n <= u32::MAX,
                id <= n,
                depths_so_far(types@, done@, found@),
                stuck(types@, done@, n as int),
                forall|j: int| 0 <= j < id ==> #[trigger] done@[j],
            decreases n - id,
        {
            if !done[id] {
                proof {
                    assert forall|depths: Seq<nat>| !linked(types@, depths) by {
                        lemma_stuck(types@, done@, depths, id as int);
                    }
                }
                return Err(id as u32);
            }
            id += 1;
        }
        proof {
            let depths = Seq::new(found@.len(), |i: int| found@[i] as nat);
            assert forall|j: int| 0 <= j < types@.len() implies refs_descend(
                #[trigger] types@[j],
                depths,
                depths[j],
            ) by {
                assert(refs_below(types@[j], types@.len()));
                assert forall|c: int| leads_to(types@[j], c) implies depths[c] < depths[j] by {
                    assert(done@[j]);
                    assert(found@[c] < found@[j]);
                    lemma_leads_in_range(types@[j], c, types@.len());
                }
                lemma_descend_leads(types@[j], depths, depths[j]);
            }
        }
        Ok(found)
    }
}

/// What a type whose references are in range leads to is in range.
pub proof fn lemma_leads_in_range(t: BtfType, c: int, len: nat)
    requires
        refs_below(t, len),
        leads_to(t, c),
    ensures
        0 <= c < len,
{
    match t {
        BtfType::FuncProto(f) => {
            if c != f.res_type_id {
                let k = choose|k: int|
                    0 <= k < f.params@.len() && c == (#[trigger] f.params@[k]).type_id;
                assert(f.params@[k].type_id < len);
            }
        },
        _ => {},
    }
}

/// Whether every id that `t` mentions is below `n`.
fn refs_in_range(t: &BtfType, n: usize) -> (ok: bool)
    ensures
        ok == refs_below(*t, n as nat),
{
    match t {
        BtfType::Ptr(p) => (p.type_id as usize) < n,
        BtfType::Array(a) => (a.val_type_id as usize) < n && (a.idx_type_id as usize) < n,
        BtfType::Struct(s) => members_in_range(&s.members, n),
        BtfType::Union(u) => members_in_range(&u.members, n),
        BtfType::Typedef(d) => (d.type_id as usize) < n,
        BtfType::Volatile(q) => (q.type_id as usize) < n,
        BtfType::Const(q) => (q.type_id as usize) < n,
        BtfType::Restrict(q) => (q.type_id as usize) < n,
        BtfType::Func(f) => (f.proto_type_id as usize) < n,
        BtfType::FuncProto(f) => (f.res_type_id as usize) < n && params_in_range(&f.params, n),
        BtfType::Var(v) => (v.type_id as usize) < n,
        BtfType::Datasec(d) => vars_in_range(&d.vars, n),
        _ => true,
    }
}

/// Whether the type of every parameter is below `n`.
fn params_in_range(params: &Vec<BtfFuncParam>, n: usize) -> (ok: bool)
    ensures
        ok == forall|k: int| 0 <= k < params@.len() ==> (#[trigger] params@[k]).type_id < n,
{
    let mut k: usize = 0;
    while k < params.len()
        invariant
            k <= params@.len(),
            forall|j: int| 0 <= j < k ==> (#[trigger] params@[j]).type_id < n,
        decreases params@.len() - k,
    {
        if (params[k].type_id as usize) >= n {
            return false;
        }
        k += 1;
    }
    true
}

/// Whether the type of every variable is below `n`.
fn vars_in_range(vars: &Vec<BtfDatasecVar>, n: usize) -> (ok: bool)
    ensures
        ok == forall|k: int| 0 <= k < vars@.len() ==> (#[trigger] vars@[k]).type_id < n,
{
    let mut k: usize = 0;
    while k < vars.len()
        invariant
            k <= vars@.len(),
            forall|j: int| 0 <= j < k ==> (#[trigger] vars@[j]).type_id < n,
        decreases vars@.len() - k,
    {
        if (vars[k].type_id as usize) >= n {
            return false;
        }
        k += 1;
    }
    true
}

/// Whether the type of every member is below `n`.
fn members_in_range(members: &Vec<BtfMember>, n: usize) -> (ok: bool)
    ensures
        ok == forall|k: int| 0 <= k < members@.len() ==> (#[trigger] members@[k]).type_id < n,
{
    let mut k: usize = 0;
    while k < members.len()
        invariant
            k <= members@.len(),
            forall|j: int| 0 <= j < k ==> (#[trigger] members@[j]).type_id < n,
        decreases members@.len() - k,
    {
        if (members[k].type_id as usize) >= n {
            return false;
        }
        k += 1;
    }
    true
}

impl Btf {
    /// The size of the type `id` if it and the sizes it is made of fit in
    /// 32 bits.
    fn checked_size_of(&self, id: u32) -> (size: Option<u32>)
        requires
            linked(self@, self.depths()),
            id < self@.len(),
        ensures
            match size {
                Some(sz) => sz == self.spec_size_of(id as int),
                None => exists|j: int|
                    0 <= j < self@.len() && #[trigger] self.spec_size_of(j) > u32::MAX,
            },
        decreases self.depths()[id as int],
    {
        assert(refs_below(self@[id as int], self@.len()));
        assert(refs_descend(self@[id as int], self.depths(), self.depths()[id as int]));
        match &self.types[id as usize] {
            BtfType::Int(t) => Some(ceil_bytes(t.bits)),
            BtfType::Volatile(t) => self.checked_size_of(t.type_id),
            BtfType::Const(t) => self.checked_size_of(t.type_id),
            BtfType::Restrict(t) => self.checked_size_of(t.type_id),
            BtfType::Typedef(t) => self.checked_size_of(t.type_id),
            BtfType::Ptr(_) => Some(self.ptr_sz),
            BtfType::Array(t) => {
                match self.checked_size_of(t.val_type_id) {
                    Some(elem) => {
                        let product: Option<u32> = t.nelems.checked_mul(elem);
                        if product.is_none() {
                            assert(self.spec_size_of(id as int) > u32::MAX);
                        }
                        product
                    },
                    None => None,
                }
            },
            BtfType::Struct(t) => Some(t.sz),
            BtfType::Union(t) => Some(t.sz),
            BtfType::Enum(t) => Some(ceil_bytes(t.sz_bits)),
            BtfType::Datasec(t) => Some(t.sz),
            _ => Some(0),
        }
    }

    /// A graph of the given nodes, for a target whose pointers have
    /// `ptr_sz` bytes. Fails, naming an offending type, if the nodes do not
    /// make a well-formed graph.
    pub fn new(types: Vec<BtfType>, ptr_sz: u32) -> (r: Result<Btf, BtfError>)
        ensures
            match r {
                Ok(btf) => btf.wf() && btf@ == types@ && btf.spec_ptr_sz() == ptr_sz,
                Err(e) => crate::error::error_about(
                    BtfErrorKind::MalformedGraph,
                    e.id,
                    if e.id < types@.len() {
                        types@[e.id as int]
                    } else {
                        BtfType::Void
                    },
                    e,
                ),
            },
            r is Ok <==> well_formed(types@, ptr_sz),
    {
        let n: usize = types.len();
        if n == 0 {
            return Err(BtfError::about(BtfErrorKind::MalformedGraph, 0, &BtfType::Void));
        }
        if n > u32::MAX as usize {
            return Err(BtfError::about(BtfErrorKind::MalformedGraph, 0, &types[0]));
        }
        let starts_with_void: bool = match &types[0] {
            BtfType::Void => true,
            _ => false,
        };
        if !starts_with_void || !(ptr_sz == 4 || ptr_sz == 8) {
            return Err(BtfError::about(BtfErrorKind::MalformedGraph, 0, &types[0]));
        }
        let mut id: usize = 0;
        while id < n
            invariant
                n == types@.len(),
                n <= u32::MAX,
                id <= n,
                forall|j: int| 0 <= j < id ==> refs_below(#[trigger] types@[j], types@.len()),
            decreases n - id,
        {
            if !refs_in_range(&types[id], n) {
                assert forall|depths: Seq<nat>| !linked(types@, depths) by {
                    assert(!refs_below(types@[id as int], types@.len()));
                }
                return Err(BtfError::about(BtfErrorKind::MalformedGraph, id as u32, &types[id]));
            }
            id += 1;
        }
        let depths: Vec<u32> = match Btf::find_depths(&types) {
            Ok(depths) => depths,
            Err(id) => {
                return Err(
                    BtfError::about(BtfErrorKind::MalformedGraph, id, &types[id as usize]),
                );
            },
        };
        let btf = Btf { types, ptr_sz, depths };
        assert(btf.depths() =~= Seq::new(btf.depths@.len(), |i: int| btf.depths@[i] as nat));
        let mut id: usize = 0;
        while id < n
            invariant
                n == btf@.len(),
                n <= u32::MAX,
                id <= n,
                btf@ == types@,
                btf.spec_ptr_sz() == ptr_sz,
                1 <= types@.len() <= u32::MAX,
                types@[0] is Void,
                ptr_sz == 4 || ptr_sz == 8,
                linked(btf@, btf.depths()),
                forall|j: int| 0 <= j < id ==> #[trigger] btf.spec_size_of(j) <= u32::MAX,
            decreases n - id,
        {
            if btf.checked_size_of(id as u32).is_none() {
                proof {
                    let j = choose|j: int|
                        0 <= j < btf@.len() && #[trigger] btf.spec_size_of(j) > u32::MAX;
                    assert forall|depths: Seq<nat>| #[trigger]
                        linked(btf@, depths) implies !(forall|id: int|
                        0 <= id < btf@.len() ==> #[trigger] size_of(
                            btf@,
                            depths,
                            ptr_sz as nat,
                            id,
                        ) <= u32::MAX) by {
                        lemma_size_of_any_depths(btf@, btf.depths(), depths, ptr_sz as nat, j);
                        assert(size_of(btf@, depths, ptr_sz as nat, j) > u32::MAX);
                    }
                }
                return Err(
                    BtfError::about(BtfErrorKind::MalformedGraph, id as u32, &btf.types[id]),
                );
            }
            id += 1;
        }
        assert(linked(btf@, btf.depths()) && forall|id: int|
            0 <= id < btf@.len() ==> #[trigger] size_of(btf@, btf.depths(), ptr_sz as nat, id)
                <= u32::MAX) by {
            assert forall|id: int| 0 <= id < btf@.len() implies #[trigger] size_of(
                btf@,
                btf.depths(),
                ptr_sz as nat,
                id,
            ) <= u32::MAX by {
                assert(btf.spec_size_of(id) <= u32::MAX);
            }
        }
        Ok(btf)
    }
}

impl Btf {
    /// The graph that BTF data describes, for a target of the given byte
    /// order whose pointers have `ptr_sz` bytes. Fails if the data cannot be
    /// decoded, or if what it describes is no well-formed graph.
    pub fn load(data: &[u8], little_endian: bool, ptr_sz: u32) -> (r: Result<Btf, BtfError>)
        ensures
            match r {
                Ok(btf) => {
                    &&& crate::parse::data_failure(data@, little_endian) is None
                    &&& crate::parse::decoded(btf@, data@, little_endian)
                    &&& btf.wf()
                    &&& btf.spec_ptr_sz() == ptr_sz
                },
                Err(e) => if crate::parse::data_failure(data@, little_endian) is Some {
                    crate::parse::reports(
                        e,
                        crate::parse::data_failure(data@, little_endian),
                        crate::parse::data_failure_id(data@, little_endian),
                    )
                } else {
                    e.kind == BtfErrorKind::MalformedGraph && exists|types: Seq<BtfType>| #[trigger]
                        crate::parse::decoded(types, data@, little_endian) && !well_formed(
                            types,
                            ptr_sz,
                        )
                },
            },
    {
        match crate::parse::parse_types(data, little_endian) {
            Ok(types) => {
                let ghost decoded_types = types@;
                match Btf::new(types, ptr_sz) {
                    Ok(btf) => Ok(btf),
                    Err(e) => {
                        assert(crate::parse::decoded(decoded_types, data@, little_endian)
                            && !well_formed(decoded_types, ptr_sz));
                        Err(e)
                    },
                }
            },
            Err(e) => Err(e),
        }
    }
}

} // verus!
