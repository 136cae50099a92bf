//! Writes declarations: the executable side of the declaration grammar.
use vstd::prelude::*;
use vstd::string::*;
use crate::btf::refs_below;
use crate::btf::refs_descend;
use crate::btf::Btf;
use crate::decl::base_text;
use crate::decl::chain_depth;
use crate::decl::chain_from;
use crate::decl::chain_in_range;
use crate::decl::chain_text;
use crate::decl::composite_head;
use crate::decl::composite_tail;
use crate::decl::decl_text;
use crate::decl::enclosed_text;
use crate::decl::lemma_chain_from;
use crate::decl::lemma_without_mods;
use crate::decl::line_head;
use crate::decl::member_tail;
use crate::decl::params_text;
use crate::decl::parents_text;
use crate::decl::room;
use crate::decl::skipped_text;
use crate::decl::struct_def_text;
use crate::decl::struct_member_text;
use crate::decl::struct_members_text;
use crate::decl::typedef_def_text;
use crate::decl::undeclarable_chain_text;
use crate::decl::union_def_text;
use crate::decl::union_member_text;
use crate::decl::union_members_text;
use crate::decl::enum_def_text;
use crate::decl::enum_values_text;
use crate::decl::func_rest_text;
use crate::decl::undeclarable_text;
use crate::decl::fwd_def_text;
use crate::decl::leading_mods;
use crate::decl::name_text;
use crate::decl::pad_field_text;
use crate::decl::padding_text;
use crate::decl::struct_fwd_text;
use crate::decl::union_fwd_text;
use crate::decl::without_mods;
use crate::decl::Env;
use crate::layout::chip_away_bits;
use crate::layout::has_misaligned_member;
use crate::layout::is_aligned;
use crate::layout::is_packed;
use crate::layout::lemma_chip_within_gap;
use crate::layout::offset_after;
use crate::layout::pad_type;
use crate::layout::padding_gap;
use crate::names::NameResolver;
use crate::names::Names;
use crate::text::decimal;
use crate::text::lemma_text_assoc;
use crate::text::pfx;
use crate::text::push_decimal;
use crate::text::push_signed_decimal;
use crate::text::sep;
use crate::types::BtfEnum;
use crate::types::BtfFwd;
use crate::types::BtfFwdKind;
use crate::types::BtfMember;
use crate::types::BtfStruct;
use crate::types::BtfType;
use crate::types::BtfTypedef;
use crate::types::BtfUnion;

verus! {

/// Writes declarations for the types of one graph into a buffer, resolving
/// names as it goes. Nesting levels are counted in 128 bits, so that the
/// limit on nesting below any level that a caller can name has room.
pub struct Emitter<'a> {
    btf: &'a Btf,
    skip: Vec<bool>,
    verbose: bool,
    names: NameResolver,
    out: String,
    limit: u128,
}

impl<'a> Emitter<'a> {
    /// What the declarations depend on. The graph, the flags and whether
    /// traces are written never change; the limit on nesting is set for the
    /// time of each declaration, and put back after it.
    pub closed spec fn env(&self) -> Env {
        Env { btf: *self.btf, skip: self.skip@, verbose: self.verbose, limit: self.limit as nat }
    }

    /// The state of name resolution.
    pub closed spec fn names(&self) -> Names {
        self.names@
    }

    /// Everything written so far.
    pub closed spec fn text(&self) -> Seq<char> {
        self.out@
    }

    /// The resolver of names is well-formed.
    pub closed spec fn names_wf(&self) -> bool {
        self.names.wf()
    }

    /// The graph is well-formed, and there is a skip flag and a place for
    /// the resolved name of every type.
    pub open spec fn wf(&self) -> bool {
        &&& self.env().btf.wf()
        &&& self.env().skip.len() == self.env().len()
        &&& self.names().resolved.len() == self.env().len()
        &&& self.names_wf()
    }

    /// This emitter is what `before` has become by writing the text of
    /// `result` and resolving the names that its state records.
    pub open spec fn wrote(&self, before: &Emitter<'a>, result: (Seq<char>, Names)) -> bool {
        &&& self.wf()
        &&& self.env() == before.env()
        &&& self.text() == before.text() + result.0
        &&& self.names() == result.1
    }

    /// An emitter for the graph `btf` that has written nothing and resolved
    /// no name, and leaves out the types whose flag in `skip` is set.
    pub fn new(btf: &'a Btf, skip: Vec<bool>, verbose: bool) -> (em: Emitter<'a>)
        requires
            btf.wf(),
            skip@.len() == btf@.len(),
        ensures
            em.wf(),
            em.env() == (Env { btf: *btf, skip: skip@, verbose, limit: btf@.len() }),
            em.names() == crate::names::fresh_names(btf@.len()),
            em.text() == Seq::<char>::empty(),
    {
        let names = NameResolver::new(btf.types().len());
        Emitter { btf, skip, verbose, names, out: String::new(), limit: btf.types().len() as u128 }
    }

    /// What holds of the names holds of those of an emitter.
    pub proof fn lemma_names_inv(&self)
        requires
            self.wf(),
        ensures
            crate::names::names_inv(self.names()),
    {
        self.names.lemma_names_inv();
    }

    /// The graph.
    pub fn btf(&self) -> (btf: &'a Btf)
        ensures
            *btf == self.env().btf,
    {
        self.btf
    }

    /// Whether the type `id` is left out.
    pub fn is_skipped(&self, id: u32) -> (skipped: bool)
        requires
            id < self.env().skip.len(),
        ensures
            skipped == self.env().skip[id as int],
    {
        self.skip[id as usize]
    }

    /// Everything written so far.
    pub fn output(&self) -> (out: &str)
        ensures
            out@ == self.text(),
    {
        self.out.as_str()
    }

    /// Writes `s`.
    pub fn write(&mut self, s: &str)
        requires
            old(self).wf(),
        ensures
            final(self).wrote(old(self), (s@, old(self).names())),
    {
        self.out.append(s);
    }

    fn emit_name(&mut self, fname: &str, last_was_ptr: bool)
        requires
            old(self).wf(),
        ensures
            final(self).wrote(old(self), (name_text(fname@, last_was_ptr), old(self).names())),
    {
        if last_was_ptr {
            self.out.append(fname);
        } else {
            self.out.append(sep(fname));
            self.out.append(fname);
            assert(self.out@ =~= old(self).out@ + name_text(fname@, last_was_ptr));
        }
    }

    /// Takes the qualifiers off the end of the chain and writes them, each
    /// followed by a space.
    fn emit_mods(&mut self, chain: &mut Vec<u32>)
        requires
            old(self).wf(),
            chain_in_range(old(self).env(), old(chain)@),
        ensures
            final(self).wrote(
                old(self),
                (leading_mods(old(self).env(), old(chain)@), old(self).names()),
            ),
            final(chain)@ == without_mods(old(self).env(), old(chain)@),
    {
        let btf = self.btf;
        let ghost env = self.env();
        assert(self.out@ =~= old(self).out@ + Seq::<char>::empty());
        while chain.len() > 0
            invariant
                self.wf(),
                self.env() == env,
                env == old(self).env(),
                btf == self.btf,
                self.names() == old(self).names(),
                chain_in_range(env, chain@),
                without_mods(env, chain@) == without_mods(env, old(chain)@),
                old(self).out@ + leading_mods(env, old(chain)@) == self.out@ + leading_mods(
                    env,
                    chain@,
                ),
            decreases chain@.len(),
        {
            let id: u32 = chain[chain.len() - 1];
            let ghost before = self.out@;
            let ghost tail = leading_mods(env, chain@.drop_last());
            assert(chain@[chain@.len() - 1] == chain@.last());
            match btf.type_by_id(id) {
                BtfType::Volatile(_) => {
                    self.out.append("volatile ");
                    assert(self.out@ + tail =~= before + ("volatile"@ + " "@ + tail)) by {
                        reveal_strlit("volatile ");
                        reveal_strlit("volatile");
                        reveal_strlit(" ");
                    }
                },
                BtfType::Const(_) => {
                    self.out.append("const ");
                    assert(self.out@ + tail =~= before + ("const"@ + " "@ + tail)) by {
                        reveal_strlit("const ");
                        reveal_strlit("const");
                        reveal_strlit(" ");
                    }
                },
                BtfType::Restrict(_) => {
                    self.out.append("restrict ");
                    assert(self.out@ + tail =~= before + ("restrict"@ + " "@ + tail)) by {
                        reveal_strlit("restrict ");
                        reveal_strlit("restrict");
                        reveal_strlit(" ");
                    }
                },
                _ => {
                    assert(leading_mods(env, chain@) =~= Seq::<char>::empty());
                    assert(self.out@ =~= old(self).out@ + leading_mods(env, old(chain)@));
                    return ;
                },
            }
            chain.pop();
        }
        assert(leading_mods(env, chain@) =~= Seq::<char>::empty());
        assert(self.out@ =~= old(self).out@ + leading_mods(env, old(chain)@));
    }

    /// Writes `struct` and the resolved name of the struct `id`, unless it is
    /// left out; says whether it wrote.
    pub fn emit_struct_fwd(&mut self, id: u32, t: &BtfStruct) -> (printed: bool)
        requires
            old(self).wf(),
            id < old(self).env().len(),
            old(self).env().node(id as int) == BtfType::Struct(*t),
        ensures
            final(self).wrote(
                old(self),
                (
                    struct_fwd_text(old(self).env(), old(self).names(), id as int).1,
                    struct_fwd_text(old(self).env(), old(self).names(), id as int).2,
                ),
            ),
            printed == struct_fwd_text(old(self).env(), old(self).names(), id as int).0,
    {
        if self.skip[id as usize] {
            self.trace_skipped(id);
            return false;
        }
        self.out.append("struct ");
        let name = self.names.resolve_name(self.btf, id);
        self.out.append(name.as_str());
        assert(self.out@ =~= old(self).out@ + ("struct "@ + name@));
        true
    }

    /// Writes `union` and the resolved name of the union `id`, unless it is
    /// left out; says whether it wrote.
    pub fn emit_union_fwd(&mut self, id: u32, t: &BtfUnion) -> (printed: bool)
        requires
            old(self).wf(),
            id < old(self).env().len(),
            old(self).env().node(id as int) == BtfType::Union(*t),
        ensures
            final(self).wrote(
                old(self),
                (
                    union_fwd_text(old(self).env(), old(self).names(), id as int).1,
                    union_fwd_text(old(self).env(), old(self).names(), id as int).2,
                ),
            ),
            printed == union_fwd_text(old(self).env(), old(self).names(), id as int).0,
    {
        if self.skip[id as usize] {
            self.trace_skipped(id);
            return false;
        }
        self.out.append("union ");
        let name = self.names.resolve_name(self.btf, id);
        self.out.append(name.as_str());
        assert(self.out@ =~= old(self).out@ + ("union "@ + name@));
        true
    }

    /// Writes the forward declaration `id` as `struct` or `union` and its
    /// resolved name, unless it is left out.
    pub fn emit_fwd_def(&mut self, id: u32, t: &BtfFwd)
        requires
            old(self).wf(),
            id < old(self).env().len(),
            old(self).env().node(id as int) == BtfType::Fwd(*t),
        ensures
            final(self).wrote(old(self), fwd_def_text(old(self).env(), old(self).names(), id as int)),
    {
        if self.skip[id as usize] {
            self.trace_skipped(id);
            return ;
        }
        let name = self.names.resolve_name(self.btf, id);
        match t.kind {
            BtfFwdKind::Struct => self.out.append("struct "),
            BtfFwdKind::Union => self.out.append("union "),
        }
        self.out.append(name.as_str());
        assert(self.out@ =~= old(self).out@ + fwd_def_text(
            old(self).env(),
            old(self).names(),
            id as int,
        ).0);
    }

    /// Writes the definition of the enum `id` at nesting level `lvl`, unless
    /// it is left out.
    fn enum_def_within(&mut self, id: u32, t: &BtfEnum, lvl: u128)
        requires
            old(self).wf(),
            id < old(self).env().len(),
            old(self).env().node(id as int) == BtfType::Enum(*t),
        ensures
            final(self).wrote(
                old(self),
                enum_def_text(old(self).env(), old(self).names(), id as int, lvl as nat),
            ),
    {
        let ghost env = self.env();
        if self.skip[id as usize] {
            self.trace_skipped(id);
            return ;
        }
        let name = self.names.resolve_name(self.btf, id);
        let ghost ns1 = self.names@;
        self.out.append("enum");
        self.out.append(sep(name.as_str()));
        self.out.append(name.as_str());
        if t.values.len() == 0 {
            assert(self.out@ =~= old(self).out@ + enum_def_text(
                env,
                old(self).names(),
                id as int,
                lvl as nat,
            ).0);
        } else {
            self.out.append(" {");
            let ghost head = self.out@;
            let mut k: usize = 0;
            assert(self.out@ =~= head + Seq::<char>::empty());
            while k < t.values.len()
                invariant
                    self.wf(),
                    self.env() == env,
                    id < env.len(),
                    env.node(id as int) == BtfType::Enum(*t),
                    k <= t.values@.len(),
                    self.out@ == head + enum_values_text(
                        env,
                        ns1,
                        id as int,
                        *t,
                        k as nat,
                        (lvl + 1) as nat,
                    ).0,
                    self.names@ == enum_values_text(
                        env,
                        ns1,
                        id as int,
                        *t,
                        k as nat,
                        (lvl + 1) as nat,
                    ).1,
                decreases t.values@.len() - k,
            {
                let v = &t.values[k];
                let uniq = self.names.resolve_enum_val_name(self.btf, id, t, v.name.as_str());
                self.out.append("\n");
                self.out.append(pfx_inner(lvl));
                self.out.append(uniq.as_str());
                self.out.append(" = ");
                push_signed_decimal(&mut self.out, v.value as i64);
                self.out.append(",");
                k += 1;
                assert(self.out@ =~= head + enum_values_text(
                    env,
                    ns1,
                    id as int,
                    *t,
                    k as nat,
                    (lvl + 1) as nat,
                ).0);
            }
            self.out.append("\n");
            self.out.append(pfx_at(lvl));
            self.out.append("}");
            assert(self.out@ =~= old(self).out@ + enum_def_text(
                env,
                old(self).names(),
                id as int,
                lvl as nat,
            ).0);
        }
    }

    /// Whether the struct `id` has to be marked packed.
    fn is_struct_packed(&self, id: u32, t: &BtfStruct) -> (packed: bool)
        requires
            self.wf(),
            id < self.env().len(),
            self.env().node(id as int) == BtfType::Struct(*t),
        ensures
            packed == is_packed(&self.env().btf, id as int, t.sz, t.members@),
    {
        let btf = self.btf;
        reveal(is_packed);
        let align: u32 = btf.get_align_of(id);
        let size_misaligned: bool = if align == 0 {
            t.sz != 0
        } else {
            t.sz % align != 0
        };
        if size_misaligned {
            return true;
        }
        assert(crate::btf::refs_below(btf@[id as int], btf@.len()));
        let mut k: usize = 0;
        while k < t.members.len()
            invariant
                btf.wf(),
                *btf == self.env().btf,
                k <= t.members@.len(),
                forall|j: int|
                    0 <= j < t.members@.len() ==> (#[trigger] t.members@[j]).type_id < btf@.len(),
                !has_misaligned_member(btf, t.members@, k as nat),
            decreases t.members@.len() - k,
        {
            let m = &t.members[k];
            if m.bit_size == 0 {
                let a: u64 = btf.get_align_of(m.type_id) as u64 * 8;
                let misaligned: bool = if a == 0 {
                    m.bit_offset != 0
                } else {
                    m.bit_offset as u64 % a != 0
                };
                if misaligned {
                    reveal(is_packed);
                    assert(t.members@[k as int].bit_size == 0 && !is_aligned(
                        t.members@[k as int].bit_offset as nat,
                        btf.spec_align_of(t.members@[k as int].type_id as int) * 8,
                    ));
                    assert(has_misaligned_member(btf, t.members@, t.members@.len()));
                    return true;
                }
            }
            k += 1;
        }
        false
    }

    /// Writes one padding field.
    fn emit_pad_field(&mut self, ty: &str, bits: u64, lvl: u128)
        requires
            old(self).wf(),
        ensures
            final(self).wrote(
                old(self),
                (pad_field_text(ty@, bits as nat, lvl as nat), old(self).names()),
            ),
    {
        self.out.append("\n");
        self.out.append(pfx_at(lvl));
        self.out.append(ty);
        self.out.append(": ");
        push_decimal(&mut self.out, bits);
        self.out.append(";");
        assert(self.out@ =~= old(self).out@ + pad_field_text(ty@, bits as nat, lvl as nat));
    }

    fn emit_bit_padding(&mut self, offset: u64, m: &BtfMember, packed: bool, lvl: u128)
        requires
            old(self).wf(),
            m.type_id < old(self).env().len(),
        ensures
            final(self).wrote(
                old(self),
                (
                    padding_text(
                        old(self).env().btf.spec_ptr_sz() as nat * 8,
                        padding_gap(&old(self).env().btf, offset as nat, *m, packed),
                        lvl as nat,
                    ),
                    old(self).names(),
                ),
            ),
    {
        let btf = self.btf;
        reveal(padding_gap);
        assert(self.out@ =~= old(self).out@ + Seq::<char>::empty());
        if offset >= m.bit_offset as u64 {
            return ;
        }
        let mut bit_diff: u64 = m.bit_offset as u64 - offset;
        let align: u64 = if packed {
            1
        } else {
            btf.get_align_of(m.type_id) as u64
        };
        if m.bit_size == 0 && bit_diff < align * 8 {
            return ;
        }
        let ptr_sz_bits: u64 = btf.ptr_sz() as u64 * 8;
        let ghost gap = bit_diff as nat;
        let ghost ptr_bits = ptr_sz_bits as nat;
        while bit_diff > 0
            invariant
                self.wf(),
                self.env() == old(self).env(),
                self.names() == old(self).names(),
                ptr_sz_bits == ptr_bits,
                ptr_bits == 32 || ptr_bits == 64,
                old(self).out@ + padding_text(ptr_bits, gap, lvl as nat) == self.out@
                    + padding_text(ptr_bits, bit_diff as nat, lvl as nat),
            decreases bit_diff,
        {
            let ghost before = self.out@;
            proof {
                lemma_chip_within_gap(ptr_bits, bit_diff as nat);
            }
            let pad_type: &str;
            let pad_bits: u64;
            if ptr_sz_bits > 32 && bit_diff > 32 {
                pad_type = "long";
                pad_bits = chip_away_bits(bit_diff, ptr_sz_bits);
            } else if bit_diff > 16 {
                pad_type = "int";
                pad_bits = chip_away_bits(bit_diff, 32);
            } else if bit_diff > 8 {
                pad_type = "short";
                pad_bits = chip_away_bits(bit_diff, 16);
            } else {
                pad_type = "char";
                pad_bits = chip_away_bits(bit_diff, 8);
            }
            let ghost rest = padding_text(ptr_bits, (bit_diff - pad_bits) as nat, lvl as nat);
            let ghost field = pad_field_text(pad_type@, pad_bits as nat, lvl as nat);
            assert(padding_text(ptr_bits, bit_diff as nat, lvl as nat) == field + rest);
            bit_diff -= pad_bits;
            self.emit_pad_field(pad_type, pad_bits, lvl);
            assert(self.out@ + rest =~= before + (field + rest));
        }
        assert(padding_text(ptr_bits, 0, lvl as nat) =~= Seq::<char>::empty());
        assert(self.out@ =~= old(self).out@ + padding_text(ptr_bits, gap, lvl as nat));
    }
}

impl<'a> Emitter<'a> {
    /// Writes the declaration of `fname` with the type `id` at nesting level
    /// `lvl`, within the limit on nesting that is in force.
    fn type_decl_within(&mut self, id: u32, fname: &str, lvl: u128)
        requires
            old(self).wf(),
            id < old(self).env().len(),
        ensures
            final(self).wrote(
                old(self),
                decl_text(old(self).env(), old(self).names(), id as int, fname@, lvl as nat),
            ),
        decreases room(old(self).env(), lvl as nat), 0nat, old(self).env().depth(id as int), 2nat, 0nat,
    {
        let btf = self.btf;
        let ghost env = self.env();
        let mut chain: Vec<u32> = Vec::new();
        let mut cur: u32 = id;
        let mut done: bool = false;
        assert(chain@ + chain_from(env, cur as int) =~= chain_from(env, id as int));
        while !done
            invariant
                btf.wf(),
                *btf == env.btf,
                env.linked(),
                cur < env.len(),
                !done ==> chain@ + chain_from(env, cur as int) == chain_from(env, id as int),
                done ==> chain@ == chain_from(env, id as int),
            decreases
                    (if done {
                        0
                    } else {
                        env.depth(cur as int) + 1
                    }),
        {
            let ghost before = chain@;
            let ghost here = cur;
            chain.push(cur);
            assert(refs_below(btf@[cur as int], btf@.len()));
            assert(refs_descend(btf@[cur as int], btf.depths(), btf.depths()[cur as int]));
            match btf.type_by_id(cur) {
                BtfType::Ptr(t) => {
                    cur = t.type_id;
                },
                BtfType::Const(t) => {
                    cur = t.type_id;
                },
                BtfType::Volatile(t) => {
                    cur = t.type_id;
                },
                BtfType::Restrict(t) => {
                    cur = t.type_id;
                },
                BtfType::Array(t) => {
                    cur = t.val_type_id;
                },
                BtfType::FuncProto(t) => {
                    cur = t.res_type_id;
                },
                _ => {
                    done = true;
                },
            }
            proof {
                if done {
                    assert(chain_from(env, here as int) == seq![here]);
                    assert(chain@ =~= before + seq![here]);
                } else {
                    assert(chain_from(env, here as int) == seq![here] + chain_from(env, cur as int));
                    assert(chain@ + chain_from(env, cur as int) =~= before + chain_from(
                        env,
                        here as int,
                    ));
                }
            }
        }
        proof {
            lemma_chain_from(env, id as int);
        }
        let last: u32 = chain[chain.len() - 1];
        assert(last == chain@.last());
        let undeclarable: bool = match btf.type_by_id(last) {
            BtfType::Var(_) | BtfType::Datasec(_) | BtfType::Func(_) => true,
            _ => false,
        };
        if undeclarable {
            self.trace_chain(&chain);
        } else {
            self.emit_type_chain(chain, fname, lvl);
        }
    }

    /// Writes the trace for a chain that ends in a node that can stand in no
    /// declaration.
    fn trace_chain(&mut self, chain: &Vec<u32>)
        requires
            old(self).wf(),
            chain@.len() >= 1,
            chain_in_range(old(self).env(), chain@),
        ensures
            final(self).wrote(
                old(self),
                (undeclarable_chain_text(old(self).env(), chain@), old(self).names()),
            ),
    {
        let btf = self.btf;
        assert(self.out@ =~= old(self).out@ + Seq::<char>::empty());
        if !self.verbose {
            return ;
        }
        self.out.append("!@#! UNEXPECT TYPE DECL CHAIN ");
        let ghost head = self.out@;
        let ghost parents = chain@.drop_last();
        let mut k: usize = chain.len() - 1;
        assert(chain@.take(k as int) =~= parents);
        assert(head + parents_text(parents) =~= self.out@ + parents_text(chain@.take(k as int)));
        while k > 0
            invariant
                k < chain@.len(),
                self.wf(),
                self.env() == old(self).env(),
                self.names() == old(self).names(),
                head + parents_text(parents) == self.out@ + parents_text(chain@.take(k as int)),
            decreases k,
        {
            let ghost before = self.out@;
            let ghost cur = chain@.take(k as int);
            k -= 1;
            self.out.append("[");
            push_decimal(&mut self.out, chain[k] as u64);
            self.out.append("] --> ");
            proof {
                assert(cur.last() == chain@[k as int]);
                assert(cur.drop_last() =~= chain@.take(k as int));
                assert(self.out@ + parents_text(chain@.take(k as int)) =~= before + parents_text(
                    cur,
                ));
            }
        }
        assert(parents_text(chain@.take(0)) =~= Seq::<char>::empty());
        let last: u32 = chain[chain.len() - 1];
        self.out.append("[");
        push_decimal(&mut self.out, last as u64);
        self.out.append("] ");
        btf.type_by_id(last).describe_into(&mut self.out);
        assert(self.out@ =~= old(self).out@ + undeclarable_chain_text(old(self).env(), chain@));
    }

    /// Writes the declarator of `fname` for a chain.
    fn emit_type_chain(&mut self, chain: Vec<u32>, fname: &str, lvl: u128)
        requires
            old(self).wf(),
            chain_in_range(old(self).env(), chain@),
        ensures
            final(self).wrote(
                old(self),
                chain_text(old(self).env(), old(self).names(), chain@, fname@, lvl as nat, true),
            ),
        decreases
                room(old(self).env(), lvl as nat),
                0nat,
                chain_depth(old(self).env(), chain@),
                1nat,
                3 * chain@.len(),
    {
        let btf = self.btf;
        let ghost env = self.env();
        let ghost start = self.out@;
        let ghost whole = chain@;
        let ghost goal = chain_text(env, self.names(), whole, fname@, lvl as nat, true);
        let mut left: Vec<u32> = chain;
        let mut last_was_ptr: bool = true;
        while left.len() > 0
            invariant
                self.wf(),
                self.env() == env,
                env == old(self).env(),
                *btf == env.btf,
                whole == chain@,
                chain_in_range(env, left@),
                left@.len() <= whole.len(),
                chain_depth(env, left@) <= chain_depth(env, whole),
                start + goal.0 == self.out@ + chain_text(
                    env,
                    self.names(),
                    left@,
                    fname@,
                    lvl as nat,
                    last_was_ptr,
                ).0,
                goal.1 == chain_text(
                    env,
                    self.names(),
                    left@,
                    fname@,
                    lvl as nat,
                    last_was_ptr,
                ).1,
                start == old(self).out@,
                goal == chain_text(env, old(self).names(), whole, fname@, lvl as nat, true),
            decreases left@.len(),
        {
            let ghost before = self.out@;
            let ghost ns = self.names();
            let ghost full = left@;
            let ghost here = chain_text(env, ns, full, fname@, lvl as nat, last_was_ptr);
            let id: u32 = left[left.len() - 1];
            left.pop();
            let ghost rest = left@;
            proof {
                assert(id == full.last());
                assert(rest =~= full.drop_last());
                lemma_without_mods(env, rest);
                assert(chain_depth(env, rest) <= chain_depth(env, full));
                assert(env.depth(id as int) <= chain_depth(env, full));
            }
            match btf.type_by_id(id) {
                BtfType::Ptr(_) => {
                    let ghost tail = chain_text(env, ns, rest, fname@, lvl as nat, true).0;
                    if last_was_ptr {
                        self.out.append("*");
                        proof {
                            lemma_text_assoc(before, "*"@, tail);
                        }
                    } else {
                        self.out.append(" *");
                        proof {
                            lemma_text_assoc(before, " *"@, tail);
                        }
                    }
                    last_was_ptr = true;
                },
                BtfType::Volatile(_) => {
                    self.out.append(" volatile");
                    last_was_ptr = false;
                    proof {
                        lemma_text_assoc(
                            before,
                            " volatile"@,
                            chain_text(env, ns, rest, fname@, lvl as nat, false).0,
                        );
                    }
                },
                BtfType::Const(_) => {
                    self.out.append(" const");
                    last_was_ptr = false;
                    proof {
                        lemma_text_assoc(
                            before,
                            " const"@,
                            chain_text(env, ns, rest, fname@, lvl as nat, false).0,
                        );
                    }
                },
                BtfType::Restrict(_) => {
                    self.out.append(" restrict");
                    last_was_ptr = false;
                    proof {
                        lemma_text_assoc(
                            before,
                            " restrict"@,
                            chain_text(env, ns, rest, fname@, lvl as nat, false).0,
                        );
                    }
                },
                BtfType::Array(t) => {
                    self.emit_array_rest(left, fname, lvl, last_was_ptr, t.nelems, Ghost(whole));
                    proof {
                        lemma_text_assoc(start, here.0, Seq::<char>::empty());
                        assert(start + goal.0 == before + here.0);
                    }
                    return ;
                },
                BtfType::FuncProto(_) => {
                    self.emit_func_rest(id, left, fname, lvl, last_was_ptr, Ghost(whole));
                    proof {
                        assert(start + goal.0 == before + here.0);
                    }
                    return ;
                },
                BtfType::Func(_) | BtfType::Var(_) | BtfType::Datasec(_) => {
                    self.trace_undeclarable(id);
                    last_was_ptr = false;
                    proof {
                        lemma_text_assoc(
                            before,
                            undeclarable_text(env, id as int),
                            chain_text(env, ns, rest, fname@, lvl as nat, false).0,
                        );
                    }
                },
                _ => {
                    self.emit_mods(&mut left);
                    let ghost mods = leading_mods(env, rest);
                    self.emit_base(id, lvl);
                    let ghost base = base_text(env, ns, id as int, lvl as nat);
                    last_was_ptr = false;
                    proof {
                        let tail = chain_text(env, base.1, left@, fname@, lvl as nat, false).0;
                        lemma_text_assoc(before, mods, base.0);
                        lemma_text_assoc(before, mods + base.0, tail);
                    }
                },
            }
        }
        self.emit_name(fname, last_was_ptr);
    }

    /// Writes the trace for a type whose name is on the blacklist.
    fn trace_skipped(&mut self, id: u32)
        requires
            old(self).wf(),
            id < old(self).env().len(),
        ensures
            final(self).wrote(
                old(self),
                (skipped_text(old(self).env(), id as int), old(self).names()),
            ),
    {
        let btf = self.btf;
        if self.verbose {
            self.out.append("!@#! BLACKLISTED id: ");
            push_decimal(&mut self.out, id as u64);
            self.out.append(", type: ");
            btf.type_by_id(id).describe_into(&mut self.out);
        }
        assert(self.out@ =~= old(self).out@ + skipped_text(old(self).env(), id as int));
    }

    /// Writes the trace for a node that can stand in no declaration.
    fn trace_undeclarable(&mut self, id: u32)
        requires
            old(self).wf(),
            id < old(self).env().len(),
        ensures
            final(self).wrote(
                old(self),
                (undeclarable_text(old(self).env(), id as int), old(self).names()),
            ),
    {
        let btf = self.btf;
        if self.verbose {
            self.out.append("!@#! UNEXPECT TYPE DECL id: ");
            push_decimal(&mut self.out, id as u64);
            self.out.append(", type: ");
            btf.type_by_id(id).describe_into(&mut self.out);
        }
        assert(self.out@ =~= old(self).out@ + undeclarable_text(old(self).env(), id as int));
    }

    /// Writes the rest of a declarator whose chain has come to an array of
    /// `nelems` elements: what is left of the chain, without the qualifiers
    /// at its end, in front of the brackets. `whole` is the chain that the
    /// caller was given, of which `left` is a proper front part.
    fn emit_array_rest(
        &mut self,
        left: Vec<u32>,
        fname: &str,
        lvl: u128,
        last_was_ptr: bool,
        nelems: u32,
        Ghost(whole): Ghost<Seq<u32>>,
    )
        requires
            old(self).wf(),
            chain_in_range(old(self).env(), left@),
            left@.len() < whole.len(),
            chain_depth(old(self).env(), left@) <= chain_depth(old(self).env(), whole),
        ensures
            final(self).wrote(
                old(self),
                (
                    enclosed_text(
                        old(self).env(),
                        old(self).names(),
                        without_mods(old(self).env(), left@),
                        fname@,
                        lvl as nat,
                        last_was_ptr,
                    ).0 + "["@ + decimal(nelems as nat) + "]"@,
                    enclosed_text(
                        old(self).env(),
                        old(self).names(),
                        without_mods(old(self).env(), left@),
                        fname@,
                        lvl as nat,
                        last_was_ptr,
                    ).1,
                ),
            ),
        decreases
                room(old(self).env(), lvl as nat),
                0nat,
                chain_depth(old(self).env(), whole),
                1nat,
                3 * whole.len() - 1,
    {
        let btf = self.btf;
        let ghost env = self.env();
        let mut outer: Vec<u32> = left;
        proof {
            lemma_without_mods(env, left@);
        }
        skip_mods(btf, &mut outer);
        assert(outer@ == without_mods(env, left@));
        let ghost inner = enclosed_text(
            env,
            self.names(),
            outer@,
            fname@,
            lvl as nat,
            last_was_ptr,
        );
        self.emit_enclosed(outer, fname, lvl, last_was_ptr, Ghost(whole));
        self.out.append("[");
        push_decimal(&mut self.out, nelems as u64);
        self.out.append("]");
        assert(self.out@ =~= old(self).out@ + (inner.0 + "["@ + decimal(nelems as nat) + "]"@));
    }

    /// Writes the rest of a declarator whose chain has come to the function
    /// prototype `id`: the qualifiers at the end of what is left of the
    /// chain, the rest of it in front of the parameter list, and the
    /// parameter list. `whole` is the chain that the caller was given, of
    /// which `left` is a proper front part and which holds `id`.
    fn emit_func_rest(
        &mut self,
        id: u32,
        left: Vec<u32>,
        fname: &str,
        lvl: u128,
        last_was_ptr: bool,
        Ghost(whole): Ghost<Seq<u32>>,
    )
        requires
            old(self).wf(),
            id < old(self).env().len(),
            old(self).env().node(id as int) is FuncProto,
            chain_in_range(old(self).env(), left@),
            left@.len() < whole.len(),
            chain_depth(old(self).env(), left@) <= chain_depth(old(self).env(), whole),
            old(self).env().depth(id as int) <= chain_depth(old(self).env(), whole),
        ensures
            final(self).wrote(
                old(self),
                func_rest_text(
                    old(self).env(),
                    old(self).names(),
                    id as int,
                    left@,
                    fname@,
                    lvl as nat,
                    last_was_ptr,
                ),
            ),
        decreases
                room(old(self).env(), lvl as nat),
                0nat,
                chain_depth(old(self).env(), whole),
                1nat,
                3 * whole.len() - 1,
    {
        let ghost env = self.env();
        let ghost ns = self.names();
        let ghost mods = leading_mods(env, left@);
        let mut outer: Vec<u32> = left;
        proof {
            lemma_without_mods(env, left@);
        }
        self.emit_mods(&mut outer);
        let ghost inner = enclosed_text(env, ns, outer@, fname@, lvl as nat, last_was_ptr);
        self.emit_enclosed(outer, fname, lvl, last_was_ptr, Ghost(whole));
        self.out.append("(");
        let ghost params = params_text(
            env,
            inner.1,
            id as int,
            env.node(id as int)->FuncProto_0.params@.len(),
            lvl as nat,
        );
        self.emit_params(id, lvl, Ghost(whole));
        self.out.append(")");
        assert(self.out@ =~= old(self).out@ + (mods + inner.0 + "("@ + params.0 + ")"@));
    }

    /// Writes what stands in front of the brackets of an array or the
    /// parameter list of a function. `whole` is the chain that the caller
    /// was given, of which `outer` is a proper front part.
    fn emit_enclosed(
        &mut self,
        outer: Vec<u32>,
        fname: &str,
        lvl: u128,
        last_was_ptr: bool,
        Ghost(whole): Ghost<Seq<u32>>,
    )
        requires
            old(self).wf(),
            chain_in_range(old(self).env(), outer@),
            outer@.len() < whole.len(),
            chain_depth(old(self).env(), outer@) <= chain_depth(old(self).env(), whole),
        ensures
            final(self).wrote(
                old(self),
                enclosed_text(
                    old(self).env(),
                    old(self).names(),
                    outer@,
                    fname@,
                    lvl as nat,
                    last_was_ptr,
                ),
            ),
        decreases
                room(old(self).env(), lvl as nat),
                0nat,
                chain_depth(old(self).env(), whole),
                1nat,
                3 * whole.len() - 2,
    {
        if outer.len() == 0 {
            self.emit_name(fname, last_was_ptr);
        } else {
            let ghost before = self.out@;
            self.out.append(" (");
            self.emit_type_chain(outer, fname, lvl);
            self.out.append(")");
            assert(self.out@ =~= before + enclosed_text(
                old(self).env(),
                old(self).names(),
                outer@,
                fname@,
                lvl as nat,
                last_was_ptr,
            ).0);
        }
    }

    /// Writes the parameter list of the function prototype `id`, without
    /// its parentheses. `whole` is a chain that holds `id`.
    fn emit_params(&mut self, id: u32, lvl: u128, Ghost(whole): Ghost<Seq<u32>>)
        requires
            old(self).wf(),
            id < old(self).env().len(),
            old(self).env().node(id as int) is FuncProto,
            old(self).env().depth(id as int) <= chain_depth(old(self).env(), whole),
        ensures
            final(self).wrote(
                old(self),
                params_text(
                    old(self).env(),
                    old(self).names(),
                    id as int,
                    old(self).env().node(id as int)->FuncProto_0.params@.len(),
                    lvl as nat,
                ),
            ),
        decreases
                room(old(self).env(), lvl as nat),
                0nat,
                chain_depth(old(self).env(), whole),
                1nat,
                0nat,
    {
        let btf = self.btf;
        let ghost env = self.env();
        let ghost ns0 = self.names();
        let ghost start = self.out@;
        assert(refs_below(btf@[id as int], btf@.len()));
        assert(refs_descend(btf@[id as int], btf.depths(), btf.depths()[id as int]));
        assert(self.out@ =~= start + Seq::<char>::empty());
        match btf.type_by_id(id) {
            BtfType::FuncProto(t) => {
                let arg_cnt: usize = t.params.len();
                if arg_cnt != 1 || t.params[0].type_id != 0 {
                    let mut idx: usize = 0;
                    while idx < arg_cnt
                        invariant
                            self.wf(),
                            self.env() == env,
                            env == old(self).env(),
                            *btf == env.btf,
                            id < env.len(),
                            env.node(id as int) == BtfType::FuncProto(*t),
                            env.depth(id as int) <= chain_depth(env, whole),
                            arg_cnt == t.params@.len(),
                            !(arg_cnt == 1 && t.params@[0].type_id == 0),
                            idx <= arg_cnt,
                            forall|k: int|
                                0 <= k < t.params@.len() ==> (#[trigger] t.params@[k]).type_id
                                    < env.len(),
                            forall|k: int|
                                0 <= k < t.params@.len() ==> env.depth(
                                    (#[trigger] t.params@[k]).type_id as int,
                                ) < env.depth(id as int),
                            self.out@ == start + params_text(
                                env,
                                ns0,
                                id as int,
                                idx as nat,
                                lvl as nat,
                            ).0,
                            self.names() == params_text(
                                env,
                                ns0,
                                id as int,
                                idx as nat,
                                lvl as nat,
                            ).1,
                        decreases arg_cnt - idx,
                    {
                        let p = &t.params[idx];
                        if idx > 0 {
                            self.out.append(", ");
                        }
                        if idx == arg_cnt - 1 && t.params[arg_cnt - 1].type_id == 0 {
                            self.out.append("...");
                        } else {
                            self.type_decl_within(p.type_id, p.name.as_str(), lvl);
                        }
                        idx += 1;
                        assert(self.out@ =~= start + params_text(
                            env,
                            ns0,
                            id as int,
                            idx as nat,
                            lvl as nat,
                        ).0);
                    }
                }
            },
            _ => {},
        }
    }

    /// Writes the base type `id` of a declaration.
    fn emit_base(&mut self, id: u32, lvl: u128)
        requires
            old(self).wf(),
            id < old(self).env().len(),
        ensures
            final(self).wrote(
                old(self),
                base_text(old(self).env(), old(self).names(), id as int, lvl as nat),
            ),
        decreases room(old(self).env(), lvl as nat), 0nat, 0nat, 0nat, 2nat,
    {
        let btf = self.btf;
        assert(self.out@ =~= old(self).out@ + Seq::<char>::empty());
        match btf.type_by_id(id) {
            BtfType::Void => {
                self.out.append("void");
            },
            BtfType::Int(t) => {
                self.out.append(t.name.as_str());
            },
            BtfType::Struct(t) => {
                if t.name.as_str().is_empty() {
                    self.struct_def_within(id, t, lvl);
                } else {
                    self.emit_struct_fwd(id, t);
                }
            },
            BtfType::Union(t) => {
                if t.name.as_str().is_empty() {
                    self.union_def_within(id, t, lvl);
                } else {
                    self.emit_union_fwd(id, t);
                }
            },
            BtfType::Enum(t) => {
                if t.name.as_str().is_empty() {
                    self.enum_def_within(id, t, lvl);
                } else {
                    let uniq_name = self.names.resolve_name(btf, id);
                    self.out.append("enum ");
                    self.out.append(uniq_name.as_str());
                    assert(self.out@ =~= old(self).out@ + ("enum "@ + uniq_name@));
                }
            },
            BtfType::Fwd(t) => {
                self.emit_fwd_def(id, t);
            },
            BtfType::Typedef(_) => {
                let uniq_name = self.names.resolve_name(btf, id);
                self.out.append(uniq_name.as_str());
            },
            _ => {},
        }
    }

    /// Writes the start of a struct or union definition.
    fn emit_composite_head(&mut self, keyword: &str, name: &str)
        requires
            old(self).wf(),
        ensures
            final(self).wrote(old(self), (composite_head(keyword@, name@), old(self).names())),
    {
        self.out.append(keyword);
        self.out.append(sep(name));
        self.out.append(name);
        self.out.append(" {");
        assert(self.out@ =~= old(self).out@ + composite_head(keyword@, name@));
    }

    /// Writes the end of a struct or union definition.
    fn emit_composite_tail(&mut self, has_members: bool, lvl: u128, packed: bool)
        requires
            old(self).wf(),
        ensures
            final(self).wrote(
                old(self),
                (composite_tail(has_members, lvl as nat, packed), old(self).names()),
            ),
    {
        if has_members {
            self.out.append("\n");
        }
        self.out.append(pfx_at(lvl));
        self.out.append("}");
        if packed {
            self.out.append(" __attribute__((packed))");
        }
        assert(self.out@ =~= old(self).out@ + composite_tail(has_members, lvl as nat, packed));
    }

    /// Writes the start of a member's line at the level below `lvl`.
    fn emit_line_head(&mut self, lvl: u128)
        requires
            old(self).wf(),
        ensures
            final(self).wrote(old(self), (line_head((lvl + 1) as nat), old(self).names())),
    {
        self.out.append("\n");
        self.out.append(pfx_inner(lvl));
        assert(self.out@ =~= old(self).out@ + line_head((lvl + 1) as nat));
    }

    /// Writes the end of a member's line.
    fn emit_member_tail(&mut self, m: &BtfMember)
        requires
            old(self).wf(),
        ensures
            final(self).wrote(old(self), (member_tail(*m), old(self).names())),
    {
        if m.bit_size != 0 {
            self.out.append(": ");
            push_decimal(&mut self.out, m.bit_size as u64);
        }
        self.out.append(";");
        assert(self.out@ =~= old(self).out@ + member_tail(*m));
    }

    /// Writes the line of member `k` of the struct `id`, which the members
    /// before it left at the bit offset `offset`; returns the offset that it
    /// leaves.
    fn emit_struct_member(
        &mut self,
        id: u32,
        t: &BtfStruct,
        k: usize,
        offset: u64,
        packed: bool,
        lvl: u128,
    ) -> (end: u64)
        requires
            old(self).wf(),
            id < old(self).env().len(),
            old(self).env().node(id as int) == BtfType::Struct(*t),
            lvl < old(self).env().limit,
            k < t.members@.len(),
            offset == offset_after(&old(self).env().btf, t.members@, k as nat),
        ensures
            final(self).wrote(
                old(self),
                struct_member_text(
                    old(self).env(),
                    old(self).names(),
                    id as int,
                    k as int,
                    packed,
                    lvl as nat,
                ),
            ),
            end == offset_after(&old(self).env().btf, t.members@, (k + 1) as nat),
        decreases room(old(self).env(), (lvl + 1) as nat), 1nat, 0nat, 0nat, 0nat,
    {
        let btf = self.btf;
        assert(refs_below(btf@[id as int], btf@.len()));
        let m = &t.members[k];
        assert(btf@[id as int] == BtfType::Struct(*t));
        assert(refs_below(BtfType::Struct(*t), btf@.len()));
        assert(t.members@[k as int].type_id < btf@.len());
        self.emit_bit_padding(offset, m, packed, lvl + 1);
        self.emit_line_head(lvl);
        self.type_decl_within(m.type_id, m.name.as_str(), lvl + 1);
        self.emit_member_tail(m);
        let end: u64;
        if m.bit_size == 0 {
            assert(btf.spec_size_of(m.type_id as int) <= u32::MAX);
            end = m.bit_offset as u64 + btf.get_size_of(m.type_id) as u64 * 8;
        } else {
            end = m.bit_offset as u64 + m.bit_size as u64;
        }
        assert(self.out@ =~= old(self).out@ + struct_member_text(
            old(self).env(),
            old(self).names(),
            id as int,
            k as int,
            packed,
            lvl as nat,
        ).0);
        end
    }

    /// Writes the lines of the members of the struct `id`.
    fn emit_struct_members(&mut self, id: u32, t: &BtfStruct, packed: bool, lvl: u128)
        requires
            old(self).wf(),
            id < old(self).env().len(),
            old(self).env().node(id as int) == BtfType::Struct(*t),
            lvl < old(self).env().limit,
        ensures
            final(self).wrote(
                old(self),
                struct_members_text(
                    old(self).env(),
                    old(self).names(),
                    id as int,
                    t.members@.len(),
                    packed,
                    lvl as nat,
                ),
            ),
        decreases room(old(self).env(), (lvl + 1) as nat), 1nat, 0nat, 1nat, 0nat,
    {
        let ghost env = self.env();
        let ghost ns0 = self.names();
        let ghost start = self.out@;
        let mut offset: u64 = 0;
        let mut k: usize = 0;
        assert(self.out@ =~= start + Seq::<char>::empty());
        while k < t.members.len()
            invariant
                self.wf(),
                self.env() == env,
                env == old(self).env(),
                id < env.len(),
                env.node(id as int) == BtfType::Struct(*t),
                lvl < env.limit,
                k <= t.members@.len(),
                offset == offset_after(&env.btf, t.members@, k as nat),
                self.out@ == start + struct_members_text(
                    env,
                    ns0,
                    id as int,
                    k as nat,
                    packed,
                    lvl as nat,
                ).0,
                self.names() == struct_members_text(
                    env,
                    ns0,
                    id as int,
                    k as nat,
                    packed,
                    lvl as nat,
                ).1,
            decreases t.members@.len() - k,
        {
            let ghost so_far = struct_members_text(env, ns0, id as int, k as nat, packed, lvl as nat);
            let ghost line = struct_member_text(env, so_far.1, id as int, k as int, packed, lvl as nat);
            offset = self.emit_struct_member(id, t, k, offset, packed, lvl);
            k += 1;
            assert(struct_members_text(env, ns0, id as int, k as nat, packed, lvl as nat) == (
                so_far.0 + line.0,
                line.1,
            ));
            assert(self.out@ =~= start + (so_far.0 + line.0));
        }
    }

    /// Writes the definition of the struct `id` at nesting level `lvl`,
    /// within the limit on nesting that is in force.
    fn struct_def_within(&mut self, id: u32, t: &BtfStruct, lvl: u128)
        requires
            old(self).wf(),
            id < old(self).env().len(),
            old(self).env().node(id as int) == BtfType::Struct(*t),
        ensures
            final(self).wrote(
                old(self),
                struct_def_text(old(self).env(), old(self).names(), id as int, lvl as nat),
            ),
        decreases room(old(self).env(), lvl as nat), 0nat, 0nat, 0nat, 1nat,
    {
        let btf = self.btf;
        let ghost env = self.env();
        if self.skip[id as usize] {
            self.trace_skipped(id);
            return ;
        }
        let packed: bool = self.is_struct_packed(id, t);
        let name = self.names.resolve_name(btf, id);
        let ghost ns1 = self.names();
        self.emit_composite_head("struct", name.as_str());
        let ghost head = composite_head("struct"@, name@);
        let ghost members = if lvl < env.limit {
            struct_members_text(env, ns1, id as int, t.members@.len(), packed, lvl as nat)
        } else {
            (Seq::<char>::empty(), ns1)
        };
        if lvl < self.limit {
            self.emit_struct_members(id, t, packed, lvl);
        }
        assert(self.out@ =~= old(self).out@ + (head + members.0));
        assert(self.names() == members.1);
        self.emit_composite_tail(t.members.len() != 0, lvl, packed);
        let ghost tail = composite_tail(t.members@.len() != 0, lvl as nat, packed);
        assert(self.out@ =~= old(self).out@ + (head + members.0 + tail));
        assert(struct_def_text(env, old(self).names(), id as int, lvl as nat) == (
            head + members.0 + tail,
            members.1,
        ));
    }

    /// Writes the line of member `k` of the union `id`.
    fn emit_union_member(&mut self, id: u32, t: &BtfUnion, k: usize, lvl: u128)
        requires
            old(self).wf(),
            id < old(self).env().len(),
            old(self).env().node(id as int) == BtfType::Union(*t),
            lvl < old(self).env().limit,
            k < t.members@.len(),
        ensures
            final(self).wrote(
                old(self),
                union_member_text(
                    old(self).env(),
                    old(self).names(),
                    id as int,
                    k as int,
                    lvl as nat,
                ),
            ),
        decreases room(old(self).env(), (lvl + 1) as nat), 1nat, 0nat, 0nat, 0nat,
    {
        let btf = self.btf;
        assert(refs_below(btf@[id as int], btf@.len()));
        let m = &t.members[k];
        assert(btf@[id as int] == BtfType::Union(*t));
        assert(refs_below(BtfType::Union(*t), btf@.len()));
        assert(t.members@[k as int].type_id < btf@.len());
        self.emit_line_head(lvl);
        self.type_decl_within(m.type_id, m.name.as_str(), lvl + 1);
        self.emit_member_tail(m);
        assert(self.out@ =~= old(self).out@ + union_member_text(
            old(self).env(),
            old(self).names(),
            id as int,
            k as int,
            lvl as nat,
        ).0);
    }

    /// Writes the lines of the members of the union `id`.
    fn emit_union_members(&mut self, id: u32, t: &BtfUnion, lvl: u128)
        requires
            old(self).wf(),
            id < old(self).env().len(),
            old(self).env().node(id as int) == BtfType::Union(*t),
            lvl < old(self).env().limit,
        ensures
            final(self).wrote(
                old(self),
                union_members_text(
                    old(self).env(),
                    old(self).names(),
                    id as int,
                    t.members@.len(),
                    lvl as nat,
                ),
            ),
        decreases room(old(self).env(), (lvl + 1) as nat), 1nat, 0nat, 1nat, 0nat,
    {
        let ghost env = self.env();
        let ghost ns0 = self.names();
        let ghost start = self.out@;
        let mut k: usize = 0;
        assert(self.out@ =~= start + Seq::<char>::empty());
        while k < t.members.len()
            invariant
                self.wf(),
                self.env() == env,
                env == old(self).env(),
                id < env.len(),
                env.node(id as int) == BtfType::Union(*t),
                lvl < env.limit,
                k <= t.members@.len(),
                self.out@ == start + union_members_text(env, ns0, id as int, k as nat, lvl as nat).0,
                self.names() == union_members_text(env, ns0, id as int, k as nat, lvl as nat).1,
            decreases t.members@.len() - k,
        {
            let ghost so_far = union_members_text(env, ns0, id as int, k as nat, lvl as nat);
            let ghost line = union_member_text(env, so_far.1, id as int, k as int, lvl as nat);
            self.emit_union_member(id, t, k, lvl);
            k += 1;
            assert(union_members_text(env, ns0, id as int, k as nat, lvl as nat) == (
                so_far.0 + line.0,
                line.1,
            ));
            assert(self.out@ =~= start + (so_far.0 + line.0));
        }
    }

    /// Writes the definition of the union `id` at nesting level `lvl`, within
    /// the limit on nesting that is in force.
    fn union_def_within(&mut self, id: u32, t: &BtfUnion, lvl: u128)
        requires
            old(self).wf(),
            id < old(self).env().len(),
            old(self).env().node(id as int) == BtfType::Union(*t),
        ensures
            final(self).wrote(
                old(self),
                union_def_text(old(self).env(), old(self).names(), id as int, lvl as nat),
            ),
        decreases room(old(self).env(), lvl as nat), 0nat, 0nat, 0nat, 1nat,
    {
        let btf = self.btf;
        let ghost env = self.env();
        if self.skip[id as usize] {
            self.trace_skipped(id);
            return ;
        }
        let name = self.names.resolve_name(btf, id);
        self.emit_composite_head("union", name.as_str());
        if lvl < self.limit {
            self.emit_union_members(id, t, lvl);
        } else {
            assert(self.out@ =~= self.out@ + Seq::<char>::empty());
        }
        self.emit_composite_tail(t.members.len() != 0, lvl, false);
        assert(self.out@ =~= old(self).out@ + union_def_text(
            env,
            old(self).names(),
            id as int,
            lvl as nat,
        ).0);
    }

    /// Writes the definition of the typedef `id` at nesting level `lvl`,
    /// within the limit on nesting that is in force.
    fn typedef_def_within(&mut self, id: u32, t: &BtfTypedef, lvl: u128)
        requires
            old(self).wf(),
            id < old(self).env().len(),
            old(self).env().node(id as int) == BtfType::Typedef(*t),
        ensures
            final(self).wrote(
                old(self),
                typedef_def_text(old(self).env(), old(self).names(), id as int, lvl as nat),
            ),
    {
        let btf = self.btf;
        if self.skip[id as usize] {
            self.trace_skipped(id);
            return ;
        }
        assert(refs_below(btf@[id as int], btf@.len()));
        let name = self.names.resolve_name(btf, id);
        self.out.append("typedef ");
        self.type_decl_within(t.type_id, name.as_str(), lvl);
        assert(self.out@ =~= old(self).out@ + typedef_def_text(
            old(self).env(),
            old(self).names(),
            id as int,
            lvl as nat,
        ).0);
    }
}

impl<'a> Emitter<'a> {
    /// Sets the limit on nesting for a declaration that starts at nesting
    /// level `lvl`, and returns the limit that was in force.
    fn start_at(&mut self, lvl: usize) -> (kept: u128)
        requires
            old(self).wf(),
        ensures
            final(self).wf(),
            final(self).env() == old(self).env().starting_at(lvl as nat),
            final(self).names() == old(self).names(),
            final(self).text() == old(self).text(),
            kept == old(self).env().limit,
    {
        let kept: u128 = self.limit;
        self.limit = lvl as u128 + self.btf.types().len() as u128;
        kept
    }

    /// Puts the limit on nesting back that was in force before a
    /// declaration.
    fn finish(&mut self, kept: u128, Ghost(before): Ghost<Env>)
        requires
            old(self).wf(),
            kept == before.limit,
            old(self).env().btf == before.btf,
            old(self).env().skip == before.skip,
            old(self).env().verbose == before.verbose,
        ensures
            final(self).wf(),
            final(self).env() == before,
            final(self).names() == old(self).names(),
            final(self).text() == old(self).text(),
    {
        self.limit = kept;
    }

    /// Writes the declaration of `fname` with the type `id`, as it stands at
    /// nesting level `lvl`.
    pub fn emit_type_decl(&mut self, id: u32, fname: &str, lvl: usize)
        requires
            old(self).wf(),
            id < old(self).env().len(),
        ensures
            final(self).wrote(
                old(self),
                decl_text(
                    old(self).env().starting_at(lvl as nat),
                    old(self).names(),
                    id as int,
                    fname@,
                    lvl as nat,
                ),
            ),
    {
        let kept: u128 = self.start_at(lvl);
        self.type_decl_within(id, fname, lvl as u128);
        self.finish(kept, Ghost(old(self).env()));
    }

    /// Writes the definition of the struct `id`, as it stands at nesting
    /// level `lvl`; nothing but a trace if the struct is left out.
    pub fn emit_struct_def(&mut self, id: u32, t: &BtfStruct, lvl: usize)
        requires
            old(self).wf(),
            id < old(self).env().len(),
            old(self).env().node(id as int) == BtfType::Struct(*t),
        ensures
            final(self).wrote(
                old(self),
                struct_def_text(
                    old(self).env().starting_at(lvl as nat),
                    old(self).names(),
                    id as int,
                    lvl as nat,
                ),
            ),
    {
        let kept: u128 = self.start_at(lvl);
        self.struct_def_within(id, t, lvl as u128);
        self.finish(kept, Ghost(old(self).env()));
    }

    /// Writes the definition of the union `id`, as it stands at nesting
    /// level `lvl`; nothing but a trace if the union is left out.
    pub fn emit_union_def(&mut self, id: u32, t: &BtfUnion, lvl: usize)
        requires
            old(self).wf(),
            id < old(self).env().len(),
            old(self).env().node(id as int) == BtfType::Union(*t),
        ensures
            final(self).wrote(
                old(self),
                union_def_text(
                    old(self).env().starting_at(lvl as nat),
                    old(self).names(),
                    id as int,
                    lvl as nat,
                ),
            ),
    {
        let kept: u128 = self.start_at(lvl);
        self.union_def_within(id, t, lvl as u128);
        self.finish(kept, Ghost(old(self).env()));
    }

    /// Writes the definition of the typedef `id`, as it stands at nesting
    /// level `lvl`; nothing but a trace if the typedef is left out.
    pub fn emit_typedef_def(&mut self, id: u32, t: &BtfTypedef, lvl: usize)
        requires
            old(self).wf(),
            id < old(self).env().len(),
            old(self).env().node(id as int) == BtfType::Typedef(*t),
        ensures
            final(self).wrote(
                old(self),
                typedef_def_text(
                    old(self).env().starting_at(lvl as nat),
                    old(self).names(),
                    id as int,
                    lvl as nat,
                ),
            ),
    {
        let kept: u128 = self.start_at(lvl);
        self.typedef_def_within(id, t, lvl as u128);
        self.finish(kept, Ghost(old(self).env()));
    }

    /// Writes the definition of the enum `id`, as it stands at nesting
    /// level `lvl`; nothing but a trace if the enum is left out.
    pub fn emit_enum_def(&mut self, id: u32, t: &BtfEnum, lvl: usize)
        requires
            old(self).wf(),
            id < old(self).env().len(),
            old(self).env().node(id as int) == BtfType::Enum(*t),
        ensures
            final(self).wrote(
                old(self),
                enum_def_text(old(self).env(), old(self).names(), id as int, lvl as nat),
            ),
    {
        self.enum_def_within(id, t, lvl as u128);
    }
}

/// The indentation of nesting level `lvl`.
fn pfx_at(lvl: u128) -> (s: &'static str)
    ensures
        s@ == crate::text::indent(lvl as nat),
{
    if lvl < crate::text::MAX_INDENT as u128 {
        pfx(lvl as usize)
    } else {
        pfx(crate::text::MAX_INDENT)
    }
}

/// The indentation of the level below `lvl`.
fn pfx_inner(lvl: u128) -> (s: &'static str)
    ensures
        s@ == crate::text::indent((lvl + 1) as nat),
{
    if lvl < crate::text::MAX_INDENT as u128 {
        pfx((lvl + 1) as usize)
    } else {
        pfx(crate::text::MAX_INDENT)
    }
}

/// Takes the qualifiers off the end of the chain.
fn skip_mods(btf: &Btf, chain: &mut Vec<u32>)
    requires
        forall|i: int| 0 <= i < old(chain)@.len() ==> (#[trigger] old(chain)@[i]) < btf@.len(),
    ensures
        forall|env: Env| env.btf@ == btf@ ==> final(chain)@ == #[trigger] without_mods(env, old(chain)@),
{
    while chain.len() > 0
        invariant
            forall|i: int| 0 <= i < chain@.len() ==> (#[trigger] chain@[i]) < btf@.len(),
            forall|env: Env|
                env.btf@ == btf@ ==> #[trigger] without_mods(env, old(chain)@) == without_mods(
                    env,
                    chain@,
                ),
        decreases chain@.len(),
    {
        let id: u32 = chain[chain.len() - 1];
        assert(chain@[chain@.len() - 1] == chain@.last());
        match btf.type_by_id(id) {
            BtfType::Volatile(_) | BtfType::Const(_) | BtfType::Restrict(_) => {},
            _ => {
                return ;
            },
        }
        chain.pop();
    }
}

} // verus!
