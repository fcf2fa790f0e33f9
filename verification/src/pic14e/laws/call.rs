//! Arguments and results of calls.
use vstd::prelude::*;
use crate::emit::{at, goto_tmp, label_tmp, movf, movlw, movwf, note_z, ram_bit, St};
use crate::ir::{CallArg, Param, Ty};
use crate::line::{BitOp, Imm, Line, LitOp, Sym};
use crate::machine::{exec, group_exec, literal, Flow, Machine};
use crate::meaning::{apart, kept, limit, passes, signed, word};
use crate::pic14e::laws::float_order::lemma_masks;
use crate::pic14e::laws::ready;
use crate::pic14e::Gen;

verus! {

impl<'a> Gen<'a> {
    /// Where the parameter of an argument is.
    pub open spec fn param_at(&self, func: Seq<char>, p: Param) -> u32 {
        self.cx.slot(func, p.name@)->0
    }

    /// Whether an argument is a number as wide as its parameter, held in a
    /// constant or in a slot apart from the parameter.
    pub open spec fn scalar(&self, func: Seq<char>, p: Param, a: CallArg) -> bool {
        &&& a.byval is None && !a.sret
        &&& self.plain(a.val)
        &&& self.cx.slot(func, p.name@) is Some
        &&& a.ty matches Some(t) && t.bytes() >= p.width && self.fits(
            a.val,
            self.param_at(func, p),
            t.bytes() as int,
        )
    }

    /// Whether arguments are numbers whose parameters share no byte with
    /// each other or with other arguments.
    pub open spec fn scalars(&self, func: Seq<char>, ps: Seq<Param>, args: Seq<CallArg>) -> bool {
        &&& args.len() <= ps.len()
        &&& forall|i: int|
            #![trigger args[i]]
            0 <= i < args.len() ==> self.scalar(func, ps[i], args[i])
        &&& forall|i: int, j: int|
            #![trigger args[i], args[j]]
            0 <= i < args.len() && 0 <= j < args.len() && i != j ==> {
                let d = self.param_at(func, ps[i]);
                let n = args[i].ty->0.bytes() as int;
                let w = args[j].ty->0.bytes() as int;
                &&& apart(self.param_at(func, ps[j]), w, d, n)
                &&& self.slot_of(args[j].val) matches Some(s) ==> apart(s, w, d, n)
            }
    }

    /// The arguments from `i` on reach their parameters.
    proof fn lemma_args(
        &self,
        st: St,
        func: Seq<char>,
        ps: Seq<Param>,
        args: Seq<CallArg>,
        i: int,
        base: int,
        m: Machine,
    )
        requires
            ready(st, base, m),
            self.scalars(func, ps, args),
            0 <= i <= args.len(),
        ensures
            ({
                let s = self.args_from(st, func, ps, args, 0, i);
                let b = exec(st.rows, base, m);
                let a = exec(s.rows, base, m);
                &&& ready(s, base, m)
                &&& passes(b, a)
                &&& forall|j: int|
                    #![trigger args[j]]
                    i <= j < args.len() ==> word(
                        a,
                        self.param_at(func, ps[j]),
                        args[j].ty->0.bytes(),
                    ) == self.word_of(b, args[j].val, args[j].ty->0.bytes())
                &&& forall|x: u32|
                    (forall|j: int|
                        #![trigger args[j]]
                        i <= j < args.len() ==> x < self.param_at(func, ps[j]) || x
                            >= self.param_at(func, ps[j]) + args[j].ty->0.bytes())
                        ==> #[trigger] a.ram[x] == b.ram[x]
            }),
        decreases args.len() - i,
    {
        if i < args.len() {
            let p = ps[i];
            let arg = args[i];
            assert(self.scalar(func, p, arg));
            let t = arg.ty->0;
            let n = t.bytes();
            let pa = self.param_at(func, p);
            let b = exec(st.rows, base, m);
            let s1 = self.move_val(st, arg.val, t, pa);
            self.lemma_move_from(st, arg.val, n, pa, 0, base, m);
            self.lemma_moved(st, arg.val, n, pa, base, m);
            let c = exec(s1.rows, base, m);
            self.lemma_args(s1, func, ps, args, i + 1, base, m);
            let a = exec(self.args_from(st, func, ps, args, 0, i).rows, base, m);
            assert forall|j: int|
                #![trigger args[j]]
                i <= j < args.len() implies word(
                a,
                self.param_at(func, ps[j]),
                args[j].ty->0.bytes(),
            ) == self.word_of(b, args[j].val, args[j].ty->0.bytes()) by {
                assert(self.scalar(func, ps[j], args[j]));
                if j == i {
                    assert forall|x: u32| pa <= x < pa + n implies #[trigger] a.ram[x]
                        == c.ram[x] by {
                        assert forall|k: int|
                            #![trigger args[k]]
                            i + 1 <= k < args.len() implies x < self.param_at(func, ps[k]) || x
                            >= self.param_at(func, ps[k]) + args[k].ty->0.bytes() by {
                            assert(apart(
                                pa,
                                n as int,
                                self.param_at(func, ps[k]),
                                args[k].ty->0.bytes() as int,
                            ));
                        }
                    }
                    assert(word(a, pa, n) == word(c, pa, n));
                } else {
                    if let Some(s) = self.slot_of(args[j].val) {
                        assert(apart(s, args[j].ty->0.bytes() as int, pa, n as int));
                    }
                    assert(self.word_of(c, args[j].val, args[j].ty->0.bytes()) == self.word_of(
                        b,
                        args[j].val,
                        args[j].ty->0.bytes(),
                    ));
                }
            }
            assert forall|x: u32|
                (forall|j: int|
                    #![trigger args[j]]
                    i <= j < args.len() ==> x < self.param_at(func, ps[j]) || x >= self.param_at(
                        func,
                        ps[j],
                    ) + args[j].ty->0.bytes()) implies #[trigger] a.ram[x] == b.ram[x] by {
                assert(x < self.param_at(func, ps[i]) || x >= self.param_at(func, ps[i])
                    + args[i].ty->0.bytes());
                assert(c.ram[x] == b.ram[x]);
                assert(a.ram[x] == c.ram[x]);
            }
        }
    }

    /// A call leaves every numeric argument in the slot of its parameter.
    pub proof fn law_arguments_reach_their_parameters(
        &self,
        st: St,
        func: Seq<char>,
        ps: Seq<Param>,
        args: Seq<CallArg>,
        base: int,
        m: Machine,
    )
        requires
            ready(st, base, m),
            self.scalars(func, ps, args),
        ensures
            ({
                let s = self.args_from(st, func, ps, args, 0, 0);
                let b = exec(st.rows, base, m);
                let a = exec(s.rows, base, m);
                &&& ready(s, base, m)
                &&& passes(b, a)
                &&& forall|j: int|
                    #![trigger args[j]]
                    0 <= j < args.len() ==> word(
                        a,
                        self.param_at(func, ps[j]),
                        args[j].ty->0.bytes(),
                    ) == self.word_of(b, args[j].val, args[j].ty->0.bytes())
            }),
    {
        self.lemma_args(st, func, ps, args, 0, base, m);
    }

    /// The source of a conversion to a float is widened to four bytes: with
    /// zeros for an unsigned one, with its sign for a signed one. Nothing else changes.
    pub proof fn law_conversion_source_is_widened(
        &self,
        st: St,
        func: Seq<char>,
        p: Param,
        arg: CallArg,
        base: int,
        m: Machine,
    )
        requires
            ready(st, base, m),
            func == "__uitofp_f32"@ || func == "__sitofp_f32"@,
            arg.byval is None,
            !arg.sret,
            self.plain(arg.val),
            self.cx.slot(func, p.name@) is Some,
            arg.ty == Some(Ty::I8) || arg.ty == Some(Ty::I16),
            p.width == 4,
            self.fits_wide(arg.val, 4, self.param_at(func, p), 4),
        ensures
            ({
                let n = arg.ty->0.bytes();
                let s = self.arg_step(st, func, p, arg);
                let b = exec(st.rows, base, m);
                let a = exec(s.rows, base, m);
                let x = self.word_of(b, arg.val, n);
                ready(s, base, m) && passes(b, a) && kept(b, a, self.param_at(func, p), 4) && word(
                    a,
                    self.param_at(func, p),
                    4,
                ) == (if func == "__uitofp_f32"@ {
                    x
                } else {
                    signed(x, n) % limit(4)
                })
            }),
    {
        let t = arg.ty->0;
        let n = t.bytes();
        let pa = self.param_at(func, p);
        let s1 = self.move_val(st, arg.val, t, pa);
        self.lemma_move_from(st, arg.val, n, pa, 0, base, m);
        self.lemma_moved(st, arg.val, n, pa, base, m);
        let c = exec(s1.rows, base, m);
        if func == "__uitofp_f32"@ {
            self.lemma_clear_from(s1, pa, 4, n, base, m);
            let a = exec(self.clear_from(s1, pa, 4, n).rows, base, m);
            assert(a.ram[at(pa, 2)] == 0 && a.ram[at(pa, 3)] == 0);
            assert(a.ram[pa] == c.ram[pa]);
            if n == 1 {
                assert(a.ram[at(pa, 1)] == 0);
            } else {
                assert(a.ram[at(pa, 1)] == c.ram[at(pa, 1)]);
            }
        } else {
            let sign = at(pa, (n - 1) as u8);
            let s2 = s1.emit(movlw(0)).emit(ram_bit(BitOp::Btfsc, sign, 7)).emit(movlw(0xFF));
            let d = exec(s2.rows, base, m);
            let minus = c.ram[sign] >= 128;
            assert(ready(s2, base, m) && passes(c, d) && d.ram == c.ram && d.w == (if minus {
                0xFFu8
            } else {
                0u8
            })) by {
                broadcast use group_exec;

            }
            self.lemma_fill_from(s2, pa, 4, n, base, m);
            let a = exec(self.fill_from(s2, pa, 4, n).rows, base, m);
            assert(a.ram[at(pa, 2)] == d.w && a.ram[at(pa, 3)] == d.w);
            assert(a.ram[pa] == c.ram[pa]);
            if n == 1 {
                assert(a.ram[at(pa, 1)] == d.w);
            } else {
                assert(a.ram[at(pa, 1)] == c.ram[at(pa, 1)]);
            }
            reveal_strlit("__uitofp_f32");
            reveal_strlit("__sitofp_f32");
            assert("__uitofp_f32"@[2] != "__sitofp_f32"@[2]);
        }
    }

    proof fn lemma_result_shape(&self, st: St, da: u32, n: u8, i: u8)
        ensures
            self.result_from(st, da, n, i) == self.copy_bytes(st, self.retval, da, n, i),
        decreases n - i,
    {
        if i < n {
            let s1 = st.emit(movf(at(self.retval, i))).emit(movwf(at(da, i)));
            self.lemma_result_shape(s1, da, n, (i + 1) as u8);
        }
    }

    /// A call's result is taken from the result bytes.
    pub proof fn law_result_is_taken(&self, st: St, dst: String, t: Ty, base: int, m: Machine)
        requires
            ready(st, base, m),
            self.retval <= 0xFFFF,
            ({
                let da = self.cx.slot(self.cx.fname(), dst@);
                da is Some && da->0 <= 0xFFFF && apart(
                    self.retval,
                    t.bytes() as int,
                    da->0,
                    t.bytes() as int,
                )
            }),
        ensures
            ({
                let da = self.cx.slot(self.cx.fname(), dst@)->0;
                let s = self.take_result(st, Some(dst), Some(t));
                let b = exec(st.rows, base, m);
                let a = exec(s.rows, base, m);
                ready(s, base, m) && passes(b, a) && kept(b, a, da, t.bytes() as int) && word(
                    a,
                    da,
                    t.bytes(),
                ) == word(b, self.retval, t.bytes())
            }),
    {
        let da = self.cx.slot(self.cx.fname(), dst@)->0;
        self.lemma_result_shape(st, da, t.bytes(), 0);
        self.lemma_copied(st, self.retval, da, t.bytes(), base, m);
    }

    /// The test of a function pointer against one candidate.
    pub open spec fn candidate_test(&self, st: St, fp: u32, f: Sym) -> St {
        let l_next = st.next;
        st.bump().emit(movf(fp)).emit(Line::Lit(LitOp::Xorlw, Imm::Low(f))).emit(
            note_z(BitOp::Btfss),
        ).emit(goto_tmp(l_next)).emit(movf(at(fp, 1))).emit(
            Line::Lit(LitOp::Xorlw, Imm::High(f)),
        ).emit(note_z(BitOp::Btfss)).emit(goto_tmp(l_next))
    }

    /// A call through a pointer goes on to the arguments and the call of a
    /// candidate if and only if the pointer holds its address; else it goes to the
    /// next candidate. The test changes neither RAM nor PCLATH.
    pub proof fn law_candidate_is_called_on_a_match(
        &self,
        st: St,
        fp: u32,
        l_done: u32,
        args: Seq<CallArg>,
        callees: Seq<String>,
        i: int,
        base: int,
        m: Machine,
    )
        requires
            ready(st, base, m),
            fp <= 0xFFFF,
            st.next < u32::MAX,
            0 <= i < callees.len(),
        ensures
            ({
                let f = Sym::Func(self.cx.func_no(callees[i]@));
                let b = exec(st.rows, base, m);
                let s = self.candidate_test(st, fp, f);
                let a = exec(s.rows, base, m);
                &&& a.core == b.core && a.ram == b.ram
                &&& a.pclath == b.pclath && a.links == b.links
                &&& a.flow == (if b.ram[fp] == literal(b, Imm::Low(f)) && b.ram[at(fp, 1)] == literal(
                    b,
                    Imm::High(f),
                ) {
                    Flow::Next
                } else {
                    Flow::Seek(Sym::Tmp(st.next))
                })
                &&& self.candidates_from(st, fp, l_done, args, callees, i) == self.candidates_from(
                    self.far_call(self.call_args(s, callees[i]@, args), f).emit(
                        goto_tmp(l_done),
                    ).emit(label_tmp(st.next)),
                    fp,
                    l_done,
                    args,
                    callees,
                    i + 1,
                )
            }),
    {
        let f = Sym::Func(self.cx.func_no(callees[i]@));
        let b = exec(st.rows, base, m);
        let s0 = st.bump();
        assert(exec(s0.rows, base, m) == b);
        let s1 = s0.emit(movf(fp)).emit(Line::Lit(LitOp::Xorlw, Imm::Low(f))).emit(
            note_z(BitOp::Btfss),
        ).emit(goto_tmp(st.next));
        let c1 = exec(s1.rows, base, m);
        lemma_masks();
        assert(base <= s1.rows.len() && c1.core == b.core && c1.ram == b.ram && c1.links == b.links
            && c1.pclath == b.pclath && c1.flow == (if b.ram[fp] == literal(b, Imm::Low(f)) {
            Flow::Next
        } else {
            Flow::Seek(Sym::Tmp(st.next))
        })) by {
            broadcast use group_exec;

        }
        let s = self.candidate_test(st, fp, f);
        let a = exec(s.rows, base, m);
        if c1.flow is Next {
            assert(a.core == b.core && a.ram == b.ram && a.pclath == b.pclath && a.links == b.links
                && a.flow == (if b.ram[at(fp, 1)] == literal(
                c1,
                Imm::High(f),
            ) {
                Flow::Next
            } else {
                Flow::Seek(Sym::Tmp(st.next))
            })) by {
                broadcast use group_exec;

            }
        } else {
            assert(a == c1) by {
                broadcast use group_exec;

            }
        }
    }
}

} // verus!
