//! The dumper: orders the definitions that were asked for and writes them
//! as C declarations.
use vstd::prelude::*;
use crate::btf::refs_below;
use crate::btf::refs_descend;
use crate::btf::Btf;
use crate::decl::Env;
use crate::emitter::Emitter;
use crate::error::error_about;
use crate::error::BtfError;
use crate::error::BtfErrorKind;
use crate::order::is_definition;
use crate::order::is_named_composite;
use crate::order::is_named_definition;
use crate::order::members_of;
use crate::order::order_type;
use crate::order::params_of;
use crate::order::OrderSt;
use crate::order::OrderState;
use crate::pass::composite_fwd;
use crate::pass::def_spec;
use crate::pass::dump_spec;
use crate::pass::emit_ordered_spec;
use crate::pass::fwds_members_spec;
use crate::pass::fwds_params_spec;
use crate::pass::fwds_spec;
use crate::pass::lemma_unemitted_after_mark;
use crate::pass::lemma_unemitted_bound;
use crate::pass::lemma_unemitted_settled;
use crate::pass::order_roots_spec;
use crate::pass::settled;
use crate::pass::typedef_fwd;
use crate::pass::unemitted;
use crate::pass::written;
use crate::pass::defined;
use crate::pass::Decl;
use crate::pass::DumpSt;
use crate::pass::DumperSt;
use crate::pass::EmitState;
use crate::types::BtfFuncProto;
use crate::types::BtfMember;
use crate::types::BtfType;
use crate::types::BtfTypedef;

verus! {

/// Writes C declarations for the types of one graph.
pub struct CDumper<'a> {
    em: Emitter<'a>,
    order_state: Vec<OrderState>,
    emit_state: Vec<EmitState>,
    fwd_emitted: Vec<bool>,
    log: Ghost<Seq<Decl>>,
}

/// Whether the outcome `r` is what the specification `spec` says: success,
/// or the error of the same kind about the same type.
pub open spec fn failed_as(env: Env, r: Result<(), BtfError>, spec: Result<(), (BtfErrorKind, u32)>) -> bool {
    match r {
        Ok(_) => spec is Ok,
        Err(e) => spec is Err && error_about(
            spec->Err_0.0,
            spec->Err_0.1,
            env.node(spec->Err_0.1 as int),
            e,
        ),
    }
}

/// The outcome of a forward pass as the outcome of a dump.
pub open spec fn loop_error(r: Result<(), u32>) -> Result<(), (BtfErrorKind, u32)> {
    match r {
        Ok(_) => Ok(()),
        Err(id) => Err((BtfErrorKind::AnonymousLoop, id)),
    }
}

impl<'a> CDumper<'a> {
    /// What the declarations depend on; it never changes.
    pub closed spec fn env(&self) -> Env {
        self.em.env()
    }

    /// The state of emission.
    pub closed spec fn dump_st(&self) -> DumpSt {
        DumpSt {
            emit: self.emit_state@,
            fwd: self.fwd_emitted@,
            names: self.em.names(),
            out: self.em.text(),
            log: self.log@,
        }
    }

    /// Where the walk that orders stands with each type.
    pub closed spec fn order_states(&self) -> Seq<OrderState> {
        self.order_state@
    }

    /// The whole state.
    pub open spec fn state(&self) -> DumperSt {
        DumperSt { states: self.order_states(), dump: self.dump_st() }
    }

    /// The emitter is well-formed.
    pub closed spec fn emitter_wf(&self) -> bool {
        self.em.wf()
    }

    /// The graph is well-formed, the nesting of a declaration is limited by
    /// the number of types, and there is a place for the state of every
    /// type.
    pub open spec fn wf(&self) -> bool {
        &&& self.emitter_wf()
        &&& self.env().btf.wf()
        &&& self.env().limit == self.env().len()
        &&& self.env().skip.len() == self.env().len()
        &&& self.order_states().len() == self.env().len()
        &&& self.dump_st().emit.len() == self.env().len()
        &&& self.dump_st().fwd.len() == self.env().len()
        &&& self.dump_st().names.resolved.len() == self.env().len()
    }

    /// What holds of the names holds of those of a dumper.
    pub proof fn lemma_names_inv(&self)
        requires
            self.wf(),
        ensures
            crate::names::names_inv(self.state().dump.names),
    {
        self.em.lemma_names_inv();
    }

    /// Everything written so far.
    pub fn output(&self) -> (out: &str)
        ensures
            out@ == self.dump_st().out,
    {
        self.em.output()
    }

    /// Whether the type `id` is a definition that can stand on its own: a
    /// struct, union, enum, forward declaration or typedef.
    pub fn is_def(&self, id: u32) -> (def: bool)
        requires
            self.wf(),
            id < self.env().len(),
        ensures
            def == is_definition(self.env().node(id as int)),
    {
        match self.em.btf().type_by_id(id) {
            BtfType::Struct(_)
            | BtfType::Union(_)
            | BtfType::Enum(_)
            | BtfType::Fwd(_)
            | BtfType::Typedef(_) => true,
            _ => false,
        }
    }

    /// Whether the type `id` is a definition with a name.
    pub fn is_named_def(&self, id: u32) -> (def: bool)
        requires
            self.wf(),
            id < self.env().len(),
        ensures
            def == is_named_definition(self.env().node(id as int)),
    {
        match self.em.btf().type_by_id(id) {
            BtfType::Struct(t) => !t.name.as_str().is_empty(),
            BtfType::Union(t) => !t.name.as_str().is_empty(),
            BtfType::Enum(t) => !t.name.as_str().is_empty(),
            BtfType::Fwd(t) => !t.name.as_str().is_empty(),
            BtfType::Typedef(t) => !t.name.as_str().is_empty(),
            _ => false,
        }
    }

    fn get_fwd_emitted(&self, id: u32) -> (emitted: bool)
        requires
            id < self.dump_st().fwd.len(),
        ensures
            emitted == self.dump_st().fwd[id as int],
    {
        self.fwd_emitted[id as usize]
    }

    fn set_fwd_emitted(&mut self, id: u32, emitted: bool)
        requires
            id < old(self).dump_st().fwd.len(),
        ensures
            final(self).env() == old(self).env(),
            final(self).order_states() == old(self).order_states(),
            final(self).emitter_wf() == old(self).emitter_wf(),
            final(self).dump_st() == (DumpSt {
                fwd: old(self).dump_st().fwd.update(id as int, emitted),
                ..old(self).dump_st()
            }),
    {
        self.fwd_emitted.set(id as usize, emitted);
    }

    fn get_emit_state(&self, id: u32) -> (state: EmitState)
        requires
            id < self.dump_st().emit.len(),
        ensures
            state == self.dump_st().emit[id as int],
    {
        self.emit_state[id as usize]
    }

    fn set_emit_state(&mut self, id: u32, state: EmitState)
        requires
            id < old(self).dump_st().emit.len(),
        ensures
            final(self).env() == old(self).env(),
            final(self).order_states() == old(self).order_states(),
            final(self).emitter_wf() == old(self).emitter_wf(),
            final(self).dump_st() == (DumpSt {
                emit: old(self).dump_st().emit.update(id as int, state),
                ..old(self).dump_st()
            }),
    {
        self.emit_state.set(id as usize, state);
    }

    /// Writes the forward declaration of the struct or union `id`.
    fn declare_composite(&mut self, id: u32)
        requires
            old(self).wf(),
            id < old(self).env().len(),
            old(self).env().node(id as int) is Struct || old(self).env().node(id as int) is Union,
        ensures
            final(self).wf(),
            final(self).env() == old(self).env(),
            final(self).order_states() == old(self).order_states(),
            final(self).dump_st() == composite_fwd(old(self).env(), old(self).dump_st(), id as int),
    {
        let btf = self.em.btf();
        let printed: bool = match btf.type_by_id(id) {
            BtfType::Struct(t) => self.em.emit_struct_fwd(id, t),
            BtfType::Union(t) => self.em.emit_union_fwd(id, t),
            _ => false,
        };
        if printed {
            self.em.write(";\n\n");
            self.log = Ghost(self.log@.push(Decl::Forward(id)));
        }
        self.set_fwd_emitted(id, true);
        proof {
            let expect = composite_fwd(old(self).env(), old(self).dump_st(), id as int);
            assert(self.dump_st().out =~= expect.out);
        }
    }

    /// Writes the definition of the typedef `id` where a forward
    /// declaration of it is needed.
    fn declare_typedef(&mut self, id: u32, t: &BtfTypedef)
        requires
            old(self).wf(),
            id < old(self).env().len(),
            old(self).env().node(id as int) == BtfType::Typedef(*t),
        ensures
            final(self).wf(),
            final(self).env() == old(self).env(),
            final(self).order_states() == old(self).order_states(),
            final(self).dump_st() == typedef_fwd(old(self).env(), old(self).dump_st(), id as int),
    {
        self.em.emit_typedef_def(id, t, 0);
        self.record_definition(id);
        self.set_fwd_emitted(id, true);
    }

    /// Ends the definition of `id`: writes the terminator and records that
    /// the definition has been written, unless `id` is left out.
    fn record_definition(&mut self, id: u32)
        requires
            old(self).wf(),
            id < old(self).env().len(),
        ensures
            final(self).wf(),
            final(self).env() == old(self).env(),
            final(self).order_states() == old(self).order_states(),
            final(self).dump_st() == defined(
                old(self).env(),
                written(
                    old(self).dump_st(),
                    (Seq::empty(), old(self).dump_st().names),
                    !old(self).env().skip[id as int],
                ),
                id as int,
            ),
    {
        if !self.em.is_skipped(id) {
            self.em.write(";\n\n");
            self.log = Ghost(self.log@.push(Decl::Definition(id)));
        }
        proof {
            let st = old(self).dump_st();
            let expect = written(st, (Seq::empty(), st.names), !self.env().skip[id as int]);
            assert(self.dump_st().out =~= expect.out);
        }
    }

    /// The forward pass for the type `id`: writes the forward declarations
    /// that the definition about to be written needs.
    fn emit_type_fwds(&mut self, id: u32, cont_id: u32, is_def: bool, Ghost(nest): Ghost<nat>) -> (r:
        Result<(), BtfError>)
        requires
            old(self).wf(),
            id < old(self).env().len(),
            unemitted(old(self).dump_st().emit) <= nest,
        ensures
            final(self).wf(),
            final(self).env() == old(self).env(),
            final(self).order_states() == old(self).order_states(),
            final(self).dump_st() == fwds_spec(
                old(self).env(),
                old(self).dump_st(),
                id as int,
                cont_id as int,
                is_def,
                nest,
            ).1,
            failed_as(
                old(self).env(),
                r,
                loop_error(
                    fwds_spec(
                        old(self).env(),
                        old(self).dump_st(),
                        id as int,
                        cont_id as int,
                        is_def,
                        nest,
                    ).0,
                ),
            ),
            settled(old(self).dump_st().emit, final(self).dump_st().emit),
        decreases nest, 0nat, old(self).env().depth(id as int), 2nat, 0nat,
    {
        let btf = self.em.btf();
        let ghost env = self.env();
        let ghost st = self.dump_st();
        assert(refs_below(btf@[id as int], btf@.len()));
        assert(refs_descend(btf@[id as int], btf.depths(), btf.depths()[id as int]));
        match self.get_emit_state(id) {
            EmitState::NotEmitted => {},
            EmitState::Emitting => {
                match btf.type_by_id(id) {
                    BtfType::Struct(_) | BtfType::Union(_) => {
                        // no forward declaration is needed of what has one,
                        // nor of the struct or union that the reference is
                        // a part of
                        if self.get_fwd_emitted(id) || id == cont_id {
                            return Ok(());
                        }
                        let named: bool = match btf.type_by_id(id) {
                            BtfType::Struct(t) => !t.name.as_str().is_empty(),
                            BtfType::Union(t) => !t.name.as_str().is_empty(),
                            _ => false,
                        };
                        if named {
                            self.declare_composite(id);
                            return Ok(());
                        } else {
                            return Err(
                                BtfError::about(
                                    BtfErrorKind::AnonymousLoop,
                                    id,
                                    btf.type_by_id(id),
                                ),
                            );
                        }
                    },
                    BtfType::Typedef(t) => {
                        if self.get_fwd_emitted(id) {
                            return Ok(());
                        }
                        self.declare_typedef(id, t);
                        return Ok(());
                    },
                    _ => {
                        return Ok(());
                    },
                }
            },
            EmitState::Emitted => {
                return Ok(());
            },
        }
        match btf.type_by_id(id) {
            BtfType::Func(_) | BtfType::Var(_) | BtfType::Datasec(_) => Ok(()),
            BtfType::Void | BtfType::Int(_) => Ok(()),
            BtfType::Volatile(t) => self.emit_type_fwds(t.type_id, cont_id, false, Ghost(nest)),
            BtfType::Const(t) => self.emit_type_fwds(t.type_id, cont_id, false, Ghost(nest)),
            BtfType::Restrict(t) => self.emit_type_fwds(t.type_id, cont_id, false, Ghost(nest)),
            BtfType::Ptr(t) => self.emit_type_fwds(t.type_id, cont_id, false, Ghost(nest)),
            BtfType::Array(t) => self.emit_type_fwds(t.val_type_id, cont_id, false, Ghost(nest)),
            BtfType::FuncProto(t) => {
                match self.emit_type_fwds(t.res_type_id, cont_id, false, Ghost(nest)) {
                    Ok(_) => {
                        proof {
                            lemma_unemitted_settled(st.emit, self.dump_st().emit);
                        }
                        self.fwds_params(id, t, cont_id, Ghost(nest), Ghost(st.emit))
                    },
                    Err(e) => Err(e),
                }
            },
            BtfType::Struct(t) => self.fwds_composite(
                id,
                &t.members,
                !t.name.as_str().is_empty(),
                cont_id,
                is_def,
                Ghost(nest),
            ),
            BtfType::Union(t) => self.fwds_composite(
                id,
                &t.members,
                !t.name.as_str().is_empty(),
                cont_id,
                is_def,
                Ghost(nest),
            ),
            BtfType::Enum(t) => {
                self.set_emit_state(id, EmitState::Emitting);
                if !t.name.as_str().is_empty() {
                    self.em.emit_enum_def(id, t, 0);
                    self.record_definition(id);
                }
                self.set_emit_state(id, EmitState::Emitted);
                proof {
                    let expect = fwds_spec(env, st, id as int, cont_id as int, is_def, nest).1;
                    assert(self.dump_st().emit =~= expect.emit);
                    assert(self.dump_st().out =~= expect.out);
                }
                Ok(())
            },
            BtfType::Fwd(_) => {
                self.set_emit_state(id, EmitState::Emitting);
                proof {
                    reveal_strlit("");
                }
                self.em.emit_type_decl(id, "", 0);
                self.record_definition(id);
                self.set_emit_state(id, EmitState::Emitted);
                proof {
                    let expect = fwds_spec(env, st, id as int, cont_id as int, is_def, nest).1;
                    assert(""@ =~= Seq::<char>::empty());
                    assert(self.dump_st().emit =~= expect.emit);
                    assert(self.dump_st().out =~= expect.out);
                }
                Ok(())
            },
            BtfType::Typedef(t) => {
                proof {
                    lemma_unemitted_after_mark(st.emit, id as int, EmitState::Emitting);
                }
                self.set_emit_state(id, EmitState::Emitting);
                let ghost inner = (nest - 1) as nat;
                match self.emit_type_fwds(t.type_id, id, false, Ghost(inner)) {
                    Ok(_) => {},
                    Err(e) => {
                        return Err(e);
                    },
                }
                if !self.get_fwd_emitted(id) {
                    // the typedef is written right away, in case something
                    // refers to it through a pointer
                    self.declare_typedef(id, t);
                }
                self.set_emit_state(id, EmitState::Emitted);
                Ok(())
            },
        }
    }

    /// The forward pass for the struct or union `id`.
    fn fwds_composite(
        &mut self,
        id: u32,
        members: &Vec<BtfMember>,
        named: bool,
        cont_id: u32,
        is_def: bool,
        Ghost(nest): Ghost<nat>,
    ) -> (r: Result<(), BtfError>)
        requires
            old(self).wf(),
            id < old(self).env().len(),
            old(self).env().node(id as int) is Struct || old(self).env().node(id as int) is Union,
            members@ == members_of(old(self).env().node(id as int)),
            named == is_named_composite(old(self).env().node(id as int)),
            old(self).dump_st().emit[id as int] == EmitState::NotEmitted,
            unemitted(old(self).dump_st().emit) <= nest,
        ensures
            final(self).wf(),
            final(self).env() == old(self).env(),
            final(self).order_states() == old(self).order_states(),
            final(self).dump_st() == fwds_spec(
                old(self).env(),
                old(self).dump_st(),
                id as int,
                cont_id as int,
                is_def,
                nest,
            ).1,
            failed_as(
                old(self).env(),
                r,
                loop_error(
                    fwds_spec(
                        old(self).env(),
                        old(self).dump_st(),
                        id as int,
                        cont_id as int,
                        is_def,
                        nest,
                    ).0,
                ),
            ),
            settled(old(self).dump_st().emit, final(self).dump_st().emit),
        decreases nest, 0nat, old(self).env().depth(id as int), 1nat, 0nat,
    {
        let btf = self.em.btf();
        let ghost env = self.env();
        let ghost st = self.dump_st();
        proof {
            lemma_unemitted_after_mark(st.emit, id as int, EmitState::Emitting);
        }
        self.set_emit_state(id, EmitState::Emitting);
        let ghost st1 = self.dump_st();
        let ghost inner = (nest - 1) as nat;
        let inner_cont: u32 = if named {
            id
        } else {
            cont_id
        };
        assert(refs_below(btf@[id as int], btf@.len()));
        if is_def || !named {
            // the definition at the top level, or an embedded anonymous
            // struct: the types of all members need their declarations
            let mut k: usize = 0;
            while k < members.len()
                invariant
                    self.wf(),
                    self.env() == env,
                    env == old(self).env(),
                    *btf == env.btf,
                    self.order_states() == old(self).order_states(),
                    id < env.len(),
                    members@ == members_of(env.node(id as int)),
                    forall|j: int|
                        0 <= j < members@.len() ==> (#[trigger] members@[j]).type_id < env.len(),
                    nest > 0,
                    inner == nest - 1,
                    unemitted(self.dump_st().emit) <= inner,
                    is_def || !named,
                    named == is_named_composite(env.node(id as int)),
                    env.node(id as int) is Struct || env.node(id as int) is Union,
                    inner_cont == (if named {
                        id
                    } else {
                        cont_id
                    }),
                    st.emit.len() == env.len(),
                    st.emit[id as int] == EmitState::NotEmitted,
                    st == old(self).dump_st(),
                    st1 == crate::pass::with_emit(st, id as int, EmitState::Emitting),
                    settled(st1.emit, self.dump_st().emit),
                    k <= members@.len(),
                    fwds_members_spec(env, st1, id as int, 0, inner_cont as int, inner)
                        == fwds_members_spec(
                        env,
                        self.dump_st(),
                        id as int,
                        k as nat,
                        inner_cont as int,
                        inner,
                    ),
                decreases members@.len() - k,
            {
                let ghost before = self.dump_st().emit;
                match self.emit_type_fwds(members[k].type_id, inner_cont, false, Ghost(inner)) {
                    Ok(_) => {},
                    Err(e) => {
                        proof {
                            let after = self.dump_st().emit;
                            assert forall|j: int|
                                0 <= j < st.emit.len() && st.emit[j]
                                    != EmitState::NotEmitted implies #[trigger] after[j]
                                != EmitState::NotEmitted by {
                                assert(st1.emit[j] != EmitState::NotEmitted);
                                assert(before[j] != EmitState::NotEmitted);
                            }
                        }
                        return Err(e);
                    },
                }
                proof {
                    lemma_unemitted_settled(before, self.dump_st().emit);
                }
                k += 1;
            }
        } else if !self.get_fwd_emitted(id) && id != cont_id {
            self.declare_composite(id);
        }
        // the definition itself is written later
        self.set_emit_state(id, EmitState::NotEmitted);
        Ok(())
    }

    /// The forward pass for the parameters of the function prototype `id`.
    fn fwds_params(
        &mut self,
        id: u32,
        t: &BtfFuncProto,
        cont_id: u32,
        Ghost(nest): Ghost<nat>,
        Ghost(start): Ghost<Seq<EmitState>>,
    ) -> (r: Result<(), BtfError>)
        requires
            old(self).wf(),
            id < old(self).env().len(),
            old(self).env().node(id as int) == BtfType::FuncProto(*t),
            unemitted(old(self).dump_st().emit) <= nest,
            settled(start, old(self).dump_st().emit),
        ensures
            final(self).wf(),
            final(self).env() == old(self).env(),
            final(self).order_states() == old(self).order_states(),
            final(self).dump_st() == fwds_params_spec(
                old(self).env(),
                old(self).dump_st(),
                id as int,
                0,
                cont_id as int,
                nest,
            ).1,
            failed_as(
                old(self).env(),
                r,
                loop_error(
                    fwds_params_spec(
                        old(self).env(),
                        old(self).dump_st(),
                        id as int,
                        0,
                        cont_id as int,
                        nest,
                    ).0,
                ),
            ),
            settled(start, final(self).dump_st().emit),
        decreases nest, 0nat, old(self).env().depth(id as int), 1nat, 0nat,
    {
        let btf = self.em.btf();
        let ghost env = self.env();
        let ghost st0 = self.dump_st();
        assert(refs_below(btf@[id as int], btf@.len()));
        assert(refs_descend(btf@[id as int], btf.depths(), btf.depths()[id as int]));
        let mut k: usize = 0;
        while k < t.params.len()
            invariant
                self.wf(),
                self.env() == env,
                env == old(self).env(),
                *btf == env.btf,
                self.order_states() == old(self).order_states(),
                id < env.len(),
                env.node(id as int) == BtfType::FuncProto(*t),
                forall|j: int|
                    0 <= j < t.params@.len() ==> (#[trigger] t.params@[j]).type_id < env.len(),
                forall|j: int|
                    0 <= j < t.params@.len() ==> env.depth((#[trigger] t.params@[j]).type_id as int)
                        < env.depth(id as int),
                unemitted(self.dump_st().emit) <= nest,
                st0 == old(self).dump_st(),
                settled(start, self.dump_st().emit),
                k <= t.params@.len(),
                fwds_params_spec(env, st0, id as int, 0, cont_id as int, nest) == fwds_params_spec(
                    env,
                    self.dump_st(),
                    id as int,
                    k as nat,
                    cont_id as int,
                    nest,
                ),
            decreases t.params@.len() - k,
        {
            let ghost before = self.dump_st().emit;
            assert(params_of(env.node(id as int))[k as int] == t.params@[k as int].type_id);
            match self.emit_type_fwds(t.params[k].type_id, cont_id, false, Ghost(nest)) {
                Ok(_) => {},
                Err(e) => {
                    return Err(e);
                },
            }
            proof {
                lemma_unemitted_settled(before, self.dump_st().emit);
            }
            k += 1;
        }
        Ok(())
    }

    /// Writes the definition of the named definition `id`, unless it has
    /// been written.
    fn emit_type_def(&mut self, id: u32) -> (r: Result<(), BtfError>)
        requires
            old(self).wf(),
            id < old(self).env().len(),
        ensures
            final(self).wf(),
            final(self).env() == old(self).env(),
            final(self).order_states() == old(self).order_states(),
            final(self).dump_st() == def_spec(old(self).env(), old(self).dump_st(), id as int).1,
            failed_as(
                old(self).env(),
                r,
                def_spec(old(self).env(), old(self).dump_st(), id as int).0,
            ),
    {
        let btf = self.em.btf();
        match self.get_emit_state(id) {
            EmitState::NotEmitted => {},
            EmitState::Emitting => {
                return Err(
                    BtfError::about(BtfErrorKind::DefinitionLoop, id, btf.type_by_id(id)),
                );
            },
            EmitState::Emitted => {
                return Ok(());
            },
        }
        if !self.is_named_def(id) {
            return Err(
                BtfError::about(BtfErrorKind::UnexpectedDefinition, id, btf.type_by_id(id)),
            );
        }
        match btf.type_by_id(id) {
            BtfType::Struct(t) => {
                self.em.emit_struct_def(id, t, 0);
                self.record_definition(id);
            },
            BtfType::Union(t) => {
                self.em.emit_union_def(id, t, 0);
                self.record_definition(id);
            },
            BtfType::Enum(t) => {
                self.em.emit_enum_def(id, t, 0);
                self.record_definition(id);
            },
            BtfType::Fwd(t) => {
                self.em.emit_fwd_def(id, t);
                self.record_definition(id);
            },
            BtfType::Typedef(t) => {
                if !self.get_fwd_emitted(id) {
                    self.em.emit_typedef_def(id, t, 0);
                    self.record_definition(id);
                }
            },
            _ => {},
        }
        self.set_emit_state(id, EmitState::Emitted);
        Ok(())
    }
}

/// What `flags` selects among `n` types: the ids whose flag is there and
/// set.
pub open spec fn selection(flags: Seq<bool>, n: nat) -> Seq<bool> {
    Seq::new(n, |i: int| i < flags.len() && flags[i])
}

/// The state of a dumper that has done nothing yet.
pub open spec fn fresh_state(n: nat) -> DumperSt {
    DumperSt {
        states: Seq::new(n, |i: int| OrderState::NotOrdered),
        dump: DumpSt {
            emit: Seq::new(n, |i: int| EmitState::NotEmitted),
            fwd: Seq::new(n, |i: int| false),
            names: crate::names::fresh_names(n),
            out: Seq::empty(),
            log: Seq::empty(),
        },
    }
}

impl<'a> CDumper<'a> {
    /// A dumper for the graph `btf` with the default blacklist. Fails if
    /// and only if the blacklist does not compile.
    pub fn new(btf: &'a Btf, verbose: bool) -> (r: Result<CDumper<'a>, BtfError>)
        requires
            btf.wf(),
        ensures
            r is Ok <==> crate::blacklist::patterns_compile(
                seq![crate::blacklist::builtin_pattern()],
            ),
            match r {
                Ok(dumper) => {
                    &&& dumper.wf()
                    &&& dumper.env().btf == *btf
                    &&& dumper.env().verbose == verbose
                    &&& crate::blacklist::flags_of(
                        btf,
                        seq![crate::blacklist::builtin_pattern()],
                        dumper.env().skip,
                    )
                    &&& dumper.state() == fresh_state(btf@.len())
                },
                Err(e) => error_about(BtfErrorKind::InvalidBlacklist, 0, BtfType::Void, e),
            },
    {
        let patterns = crate::blacklist::default_blacklist();
        match crate::blacklist::blacklist_flags(btf, &patterns) {
            Ok(flags) => {
                let dumper = CDumper::with_skipped(btf, verbose, &flags);
                assert(dumper.env().skip =~= flags@);
                Ok(dumper)
            },
            Err(e) => Err(e),
        }
    }

    /// A dumper for the graph `btf` that leaves out the types that `skip`
    /// selects.
    pub fn with_skipped(btf: &'a Btf, verbose: bool, skip: &Vec<bool>) -> (dumper: CDumper<'a>)
        requires
            btf.wf(),
        ensures
            dumper.wf(),
            dumper.env() == (Env {
                btf: *btf,
                skip: selection(skip@, btf@.len()),
                verbose,
                limit: btf@.len(),
            }),
            dumper.state() == fresh_state(btf@.len()),
    {
        let n: usize = btf.types().len();
        let mut flags: Vec<bool> = Vec::new();
        let mut order_state: Vec<OrderState> = Vec::new();
        let mut emit_state: Vec<EmitState> = Vec::new();
        let mut fwd_emitted: Vec<bool> = Vec::new();
        let mut i: usize = 0;
        while i < n
            invariant
                i <= n,
                flags@.len() == i,
                order_state@.len() == i,
                emit_state@.len() == i,
                fwd_emitted@.len() == i,
                forall|j: int| 0 <= j < i ==> #[trigger] flags@[j] == (j < skip@.len() && skip@[j]),
                forall|j: int| 0 <= j < i ==> #[trigger] order_state@[j] == OrderState::NotOrdered,
                forall|j: int| 0 <= j < i ==> #[trigger] emit_state@[j] == EmitState::NotEmitted,
                forall|j: int| 0 <= j < i ==> #[trigger] fwd_emitted@[j] == false,
            decreases n - i,
        {
            flags.push(i < skip.len() && skip[i]);
            order_state.push(OrderState::NotOrdered);
            emit_state.push(EmitState::NotEmitted);
            fwd_emitted.push(false);
            i += 1;
        }
        assert(flags@ =~= selection(skip@, btf@.len()));
        let em = Emitter::new(btf, flags, verbose);
        let dumper = CDumper { em, order_state, emit_state, fwd_emitted, log: Ghost(Seq::empty()) };
        proof {
            let fresh = fresh_state(btf@.len());
            assert(dumper.order_states() =~= fresh.states);
            assert(dumper.dump_st().emit =~= fresh.dump.emit);
            assert(dumper.dump_st().fwd =~= fresh.dump.fwd);
            assert(dumper.dump_st().out =~= fresh.dump.out);
            assert(dumper.dump_st().log =~= fresh.dump.log);
        }
        dumper
    }

    /// Writes the named definitions that `filter` accepts, and everything
    /// that they depend on.
    pub fn dump_types<F: Fn(u32, &'a BtfType) -> bool>(&mut self, filter: F) -> (r: Result<
        (),
        BtfError,
    >)
        requires
            old(self).wf(),
            forall|id: u32, t: &'a BtfType| #[trigger] filter.requires((id, t)),
        ensures
            final(self).wf(),
            final(self).env() == old(self).env(),
            exists|accepted: Seq<bool>|
                {
                    &&& accepted.len() == old(self).env().len()
                    &&& forall|id: u32|
                        id < accepted.len() && is_named_definition(old(self).env().node(id as int))
                            ==> filter.ensures(
                            (id, &old(self).env().btf@[id as int]),
                            #[trigger] accepted[id as int],
                        )
                    &&& final(self).state() == dump_spec(
                        old(self).env(),
                        accepted,
                        old(self).state(),
                    ).1
                    &&& failed_as(
                        old(self).env(),
                        r,
                        dump_spec(old(self).env(), accepted, old(self).state()).0,
                    )
                },
    {
        let btf = self.em.btf();
        let n: u32 = btf.type_cnt();
        let mut accepted: Vec<bool> = Vec::new();
        let mut id: u32 = 0;
        while id < n
            invariant
                self.wf(),
                self == old(self),
                *btf == self.env().btf,
                n == btf@.len(),
                id <= n,
                accepted@.len() == id,
                forall|id: u32, t: &'a BtfType| #[trigger] filter.requires((id, t)),
                forall|j: u32|
                    j < id && is_named_definition(btf@[j as int]) ==> filter.ensures(
                        (j, &btf@[j as int]),
                        #[trigger] accepted@[j as int],
                    ),
            decreases n - id,
        {
            let bt = btf.type_by_id(id);
            let accept: bool = self.is_named_def(id) && filter(id, bt);
            accepted.push(accept);
            id += 1;
        }
        let r = self.dump_accepted(&accepted);
        proof {
            assert(selection(accepted@, old(self).env().len()) =~= accepted@);
        }
        r
    }

    /// Writes the named definitions that `accepted` selects, and everything
    /// that they depend on.
    pub fn dump_accepted(&mut self, accepted: &Vec<bool>) -> (r: Result<(), BtfError>)
        requires
            old(self).wf(),
        ensures
            final(self).wf(),
            final(self).env() == old(self).env(),
            final(self).state() == dump_spec(
                old(self).env(),
                selection(accepted@, old(self).env().len()),
                old(self).state(),
            ).1,
            failed_as(
                old(self).env(),
                r,
                dump_spec(
                    old(self).env(),
                    selection(accepted@, old(self).env().len()),
                    old(self).state(),
                ).0,
            ),
    {
        let btf = self.em.btf();
        let ghost env = self.env();
        let ghost chosen = selection(accepted@, env.len());
        let ghost st0 = OrderSt { states: self.order_states(), order: Seq::<u32>::empty() };
        let n: u32 = btf.type_cnt();
        let mut order: Vec<u32> = Vec::new();
        let mut id: u32 = 0;
        while id < n
            invariant
                self.wf(),
                self.env() == env,
                env == old(self).env(),
                *btf == env.btf,
                self.dump_st() == old(self).dump_st(),
                st0 == (OrderSt { states: old(self).order_states(), order: Seq::<u32>::empty() }),
                chosen == selection(accepted@, env.len()),
                n == env.len(),
                id <= n,
                crate::order::ids_below(order@, env.len()),
                order_roots_spec(env, chosen, st0, 0) == order_roots_spec(
                    env,
                    chosen,
                    OrderSt { states: self.order_states(), order: order@ },
                    id as nat,
                ),
            decreases n - id,
        {
            let selected: bool = (id as usize) < accepted.len() && accepted[id as usize];
            if self.is_named_def(id) && selected {
                proof {
                    crate::order::lemma_unmarked_bound(self.order_states());
                }
                match order_type(btf, &mut self.order_state, id, false, &mut order, Ghost(n as nat)) {
                    Ok(_) => {},
                    Err(e) => {
                        return Err(e);
                    },
                }
            }
            id += 1;
        }
        let ghost ordered = order@;
        let ghost dst0 = self.dump_st();
        let mut k: usize = 0;
        while k < order.len()
            invariant
                self.wf(),
                self.env() == env,
                env == old(self).env(),
                *btf == env.btf,
                n == env.len(),
                order@ == ordered,
                crate::order::ids_below(ordered, env.len()),
                dst0 == old(self).dump_st(),
                chosen == selection(accepted@, env.len()),
                order_roots_spec(env, chosen, st0, 0) == (
                    Ok::<(), u32>(()),
                    OrderSt { states: self.order_states(), order: ordered },
                ),
                st0 == (OrderSt { states: old(self).order_states(), order: Seq::<u32>::empty() }),
                k <= ordered.len(),
                emit_ordered_spec(env, ordered, dst0, 0) == emit_ordered_spec(
                    env,
                    ordered,
                    self.dump_st(),
                    k as nat,
                ),
            decreases ordered.len() - k,
        {
            let id: u32 = order[k];
            if self.is_named_def(id) {
                proof {
                    lemma_unemitted_bound(self.dump_st().emit);
                }
                match self.emit_type_fwds(id, id, true, Ghost(n as nat)) {
                    Ok(_) => {},
                    Err(e) => {
                        return Err(e);
                    },
                }
                match self.emit_type_def(id) {
                    Ok(_) => {},
                    Err(e) => {
                        return Err(e);
                    },
                }
            }
            k += 1;
        }
        Ok(())
    }
}

} // verus!
