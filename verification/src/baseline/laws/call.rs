//! Arguments and results of calls.
use vstd::prelude::*;
use crate::baseline::Gen;
use crate::emit::{at, goto_tmp, label_tmp, movf, note_z, St};
use crate::ir::{CallArg, Param, Ty};
use crate::line::{BitOp, Imm, Line, LitOp, Op, Sym};
use crate::machine::{exec, group_exec, literal, Flow, Machine};
use crate::meaning::{apart, kept, passes, word};

verus! {

impl<'a> Gen<'a> {
    /// Where the parameter of an argument is.
    pub open spec fn param_at(&self, func: Seq<char>, p: Param) -> u32 {
        self.cx.slot(func, p.name@)->0
    }

    /// Whether an argument is a number as wide as its parameter, held in a
    /// constant or in a slot apart from the parameter.
    pub open spec fn scalar(&self, func: Seq<char>, p: Param, a: CallArg) -> bool {
        &&& a.byval is None && !a.sret
        &&& self.cx.slot(func, p.name@) is Some
        &&& a.ty matches Some(t) && t.bytes() >= p.width && self.plain(a.val, t.bytes())
            && self.fits(a.val, self.param_at(func, p), t.bytes())
    }

    /// Whether arguments are numbers whose parameters share no byte with
    /// each other or with other arguments.
    pub open spec fn scalars(&self, func: Seq<char>, ps: Seq<Param>, args: Seq<CallArg>) -> bool {
        &&& args.len() <= ps.len()
        &&& forall|i: int|
            #![trigger args[i]]
            0 <= i < args.len() ==> self.scalar(func, ps[i], args[i])
        &&& forall|i: int, j: int|
            #![trigger args[i], args[j]]
            0 <= i < args.len() && 0 <= j < args.len() && i != j ==> {
                let d = self.param_at(func, ps[i]);
                let n = args[i].ty->0.bytes() as int;
                let w = args[j].ty->0.bytes() as int;
                &&& apart(self.param_at(func, ps[j]), w, d, n)
                &&& self.slot_of(args[j].val) matches Some(s) ==> apart(s, w, d, n)
            }
    }

    /// The arguments from `i` on reach their parameters.
    proof fn lemma_args(
        &self,
        st: St,
        func: Seq<char>,
        ps: Seq<Param>,
        args: Seq<CallArg>,
        i: int,
        base: int,
        m: Machine,
    )
        requires
            self.at_row(st, base, m),
            self.scalars(func, ps, args),
            0 <= i <= args.len(),
        ensures
            ({
                let s = self.args_from(st, func, ps, args, i);
                let b = exec(st.rows, base, m);
                let a = exec(s.rows, base, m);
                &&& self.at_row(s, base, m)
                &&& passes(b, a)
                &&& forall|j: int|
                    #![trigger args[j]]
                    i <= j < args.len() ==> word(
                        a,
                        self.param_at(func, ps[j]),
                        args[j].ty->0.bytes(),
                    ) == self.word_of(b, args[j].val, args[j].ty->0.bytes())
                &&& forall|x: u32|
                    (forall|j: int|
                        #![trigger args[j]]
                        i <= j < args.len() ==> x < self.param_at(func, ps[j]) || x
                            >= self.param_at(func, ps[j]) + args[j].ty->0.bytes())
                        ==> #[trigger] a.ram[x] == b.ram[x]
            }),
        decreases args.len() - i,
    {
        if i < args.len() {
            let p = ps[i];
            let arg = args[i];
            assert(self.scalar(func, p, arg));
            let t = arg.ty->0;
            let n = t.bytes();
            let pa = self.param_at(func, p);
            let b = exec(st.rows, base, m);
            let s1 = self.move_val(st, arg.val, t, pa);
            self.lemma_moved(st, arg.val, n, pa, base, m);
            let c = exec(s1.rows, base, m);
            self.lemma_args(s1, func, ps, args, i + 1, base, m);
            let a = exec(self.args_from(st, func, ps, args, i).rows, base, m);
            assert forall|j: int|
                #![trigger args[j]]
                i <= j < args.len() implies word(
                a,
                self.param_at(func, ps[j]),
                args[j].ty->0.bytes(),
            ) == self.word_of(b, args[j].val, args[j].ty->0.bytes()) by {
                assert(self.scalar(func, ps[j], args[j]));
                if j == i {
                    assert forall|x: u32| pa <= x < pa + n implies #[trigger] a.ram[x]
                        == c.ram[x] by {
                        assert forall|k: int|
                            #![trigger args[k]]
                            i + 1 <= k < args.len() implies x < self.param_at(func, ps[k]) || x
                            >= self.param_at(func, ps[k]) + args[k].ty->0.bytes() by {
                            assert(apart(
                                pa,
                                n as int,
                                self.param_at(func, ps[k]),
                                args[k].ty->0.bytes() as int,
                            ));
                        }
                    }
                    assert(word(a, pa, n) == word(c, pa, n));
                } else {
                    if let Some(s) = self.slot_of(args[j].val) {
                        assert(apart(s, args[j].ty->0.bytes() as int, pa, n as int));
                    }
                    assert(self.word_of(c, args[j].val, args[j].ty->0.bytes()) == self.word_of(
                        b,
                        args[j].val,
                        args[j].ty->0.bytes(),
                    ));
                }
            }
            assert forall|x: u32|
                (forall|j: int|
                    #![trigger args[j]]
                    i <= j < args.len() ==> x < self.param_at(func, ps[j]) || x >= self.param_at(
                        func,
                        ps[j],
                    ) + args[j].ty->0.bytes()) implies #[trigger] a.ram[x] == b.ram[x] by {
                assert(x < self.param_at(func, ps[i]) || x >= self.param_at(func, ps[i])
                    + args[i].ty->0.bytes());
                assert(c.ram[x] == b.ram[x]);
                assert(a.ram[x] == c.ram[x]);
            }
        }
    }

    /// A call leaves every numeric argument in the slot of its parameter.
    pub proof fn law_arguments_reach_their_parameters(
        &self,
        st: St,
        func: Seq<char>,
        ps: Seq<Param>,
        args: Seq<CallArg>,
        base: int,
        m: Machine,
    )
        requires
            self.at_row(st, base, m),
            self.scalars(func, ps, args),
        ensures
            ({
                let s = self.args_from(st, func, ps, args, 0);
                let b = exec(st.rows, base, m);
                let a = exec(s.rows, base, m);
                &&& self.at_row(s, base, m)
                &&& passes(b, a)
                &&& forall|j: int|
                    #![trigger args[j]]
                    0 <= j < args.len() ==> word(
                        a,
                        self.param_at(func, ps[j]),
                        args[j].ty->0.bytes(),
                    ) == self.word_of(b, args[j].val, args[j].ty->0.bytes())
            }),
    {
        self.lemma_args(st, func, ps, args, 0, base, m);
    }

    proof fn lemma_result(&self, st: St, da: u32, n: u8, i: u8, base: int, m: Machine)
        requires
            self.at_row(st, base, m),
            self.sound_bytes(self.retval, n),
            self.retval + n <= 16,
            self.sound_bytes(da, n),
            apart(self.retval, n as int, da, n as int),
        ensures
            ({
                let s = self.result_from(st, da, n, i);
                let b = exec(st.rows, base, m);
                let a = exec(s.rows, base, m);
                self.at_row(s, base, m) && passes(b, a) && kept(b, a, da, n as int) && (forall|
                    j: u8,
                |
                    i <= j < n ==> #[trigger] a.ram[at(da, j)] == b.ram[at(self.retval, j)]) && (
                forall|j: u8| j < i ==> #[trigger] a.ram[at(da, j)] == b.ram[at(da, j)])
            }),
        decreases n - i,
    {
        if i < n {
            let b = exec(st.rows, base, m);
            assert(self.sound(at(self.retval, i)) && self.sound(at(da, i)));
            let s1 = self.acc_w(st, Op::Movf, at(self.retval, i));
            self.lemma_acc_w(st, Op::Movf, at(self.retval, i), base, m);
            assert(s1 == self.bank(st, at(self.retval, i)).emit(movf(at(self.retval, i))));
            let s2 = self.w_store(s1, at(da, i));
            self.lemma_w_store(s1, at(da, i), base, m);
            let c = exec(s2.rows, base, m);
            self.lemma_result(s2, da, n, (i + 1) as u8, base, m);
            let a = exec(self.result_from(st, da, n, i).rows, base, m);
            assert forall|j: u8| i <= j < n implies #[trigger] a.ram[at(da, j)] == b.ram[at(
                self.retval,
                j,
            )] by {
                if j > i {
                    assert(c.ram[at(self.retval, j)] == b.ram[at(self.retval, j)]);
                }
            }
        }
    }

    /// A call's result is taken from the result bytes.
    pub proof fn law_result_is_taken(&self, st: St, dst: String, t: Ty, base: int, m: Machine)
        requires
            self.at_row(st, base, m),
            self.sound_bytes(self.retval, t.bytes()),
            self.retval + t.bytes() <= 16,
            ({
                let da = self.cx.slot(self.cx.fname(), dst@);
                da is Some && self.sound_bytes(da->0, t.bytes()) && apart(
                    self.retval,
                    t.bytes() as int,
                    da->0,
                    t.bytes() as int,
                )
            }),
        ensures
            ({
                let da = self.cx.slot(self.cx.fname(), dst@)->0;
                let s = self.take_result(st, Some(dst), Some(t));
                let b = exec(st.rows, base, m);
                let a = exec(s.rows, base, m);
                self.at_row(s, base, m) && passes(b, a) && kept(b, a, da, t.bytes() as int) && word(
                    a,
                    da,
                    t.bytes(),
                ) == word(b, self.retval, t.bytes())
            }),
    {
        let da = self.cx.slot(self.cx.fname(), dst@)->0;
        let n = t.bytes();
        self.lemma_result(st, da, n, 0, base, m);
        let b = exec(st.rows, base, m);
        let a = exec(self.take_result(st, Some(dst), Some(t)).rows, base, m);
        assert(a.ram[at(da, 0)] == b.ram[at(self.retval, 0)]);
        if n > 1 {
            assert(a.ram[at(da, 1)] == b.ram[at(self.retval, 1)]);
        }
        if n > 2 {
            assert(a.ram[at(da, 2)] == b.ram[at(self.retval, 2)]);
            assert(a.ram[at(da, 3)] == b.ram[at(self.retval, 3)]);
        }
    }

    /// One byte of a function pointer tested against a byte of an address.
    pub open spec fn pointer_test(&self, st: St, a: u32, k: Imm, l_next: u32) -> St {
        self.acc_w(st, Op::Movf, a).emit(Line::Lit(LitOp::Xorlw, k)).emit(
            note_z(BitOp::Btfss),
        ).emit(goto_tmp(l_next))
    }

    /// The test of a function pointer against one candidate.
    pub open spec fn candidate_test(&self, st: St, fp: u32, f: Sym) -> St {
        let l_next = st.next;
        self.pointer_test(
            self.pointer_test(st.bump(), fp, Imm::Low(f), l_next),
            at(fp, 1),
            Imm::High(f),
            l_next,
        )
    }

    proof fn lemma_pointer_test(
        &self,
        st: St,
        a: u32,
        k: Imm,
        l_next: u32,
        base: int,
        m: Machine,
    )
        requires
            self.at_row(st, base, m),
            self.sound(a),
        ensures
            ({
                let b = exec(st.rows, base, m);
                let s = self.pointer_test(st, a, k, l_next);
                let z = exec(s.rows, base, m);
                &&& base <= s.rows.len()
                &&& z.ram == b.ram && z.links == b.links && z.core == b.core
                &&& if b.ram[a] == literal(b, k) {
                    self.at_row(s, base, m)
                } else {
                    z.flow == Flow::Seek(Sym::Tmp(l_next))
                }
            }),
    {
        let b = exec(st.rows, base, m);
        let s1 = self.acc_w(st, Op::Movf, a);
        self.lemma_acc_w(st, Op::Movf, a, base, m);
        let c1 = exec(s1.rows, base, m);
        let (x, y) = (b.ram[a], literal(b, k));
        assert(x ^ y == 0 <==> x == y) by (bit_vector);
        broadcast use group_exec;

    }

    /// A call through a pointer goes on to the arguments and the call of a
    /// candidate if and only if the pointer holds its address; else it goes to the
    /// next candidate. The test changes no byte of RAM.
    pub proof fn law_candidate_is_called_on_a_match(
        &self,
        st: St,
        fp: u32,
        l_done: u32,
        args: Seq<CallArg>,
        callees: Seq<String>,
        i: int,
        base: int,
        m: Machine,
    )
        requires
            self.at_row(st, base, m),
            self.sound(fp),
            self.sound(at(fp, 1)),
            st.next < u32::MAX,
            0 <= i < callees.len(),
        ensures
            ({
                let f = Sym::Func(self.cx.func_no(callees[i]@));
                let b = exec(st.rows, base, m);
                let s = self.candidate_test(st, fp, f);
                let a = exec(s.rows, base, m);
                &&& a.ram == b.ram && a.links == b.links && a.core == b.core
                &&& a.flow == (if b.ram[fp] == literal(b, Imm::Low(f)) && b.ram[at(fp, 1)] == literal(
                    b,
                    Imm::High(f),
                ) {
                    Flow::Next
                } else {
                    Flow::Seek(Sym::Tmp(st.next))
                })
                &&& self.candidates_from(st, fp, l_done, args, callees, i) == self.candidates_from(
                    self.call_args(s, callees[i]@, args).emit(Line::Call(f)).emit(
                        goto_tmp(l_done),
                    ).emit(label_tmp(st.next)),
                    fp,
                    l_done,
                    args,
                    callees,
                    i + 1,
                )
            }),
    {
        let f = Sym::Func(self.cx.func_no(callees[i]@));
        let b = exec(st.rows, base, m);
        let s0 = st.bump();
        assert(exec(s0.rows, base, m) == b);
        let s1 = self.pointer_test(s0, fp, Imm::Low(f), st.next);
        self.lemma_pointer_test(s0, fp, Imm::Low(f), st.next, base, m);
        let c1 = exec(s1.rows, base, m);
        let s = self.candidate_test(st, fp, f);
        if b.ram[fp] == literal(b, Imm::Low(f)) {
            self.lemma_pointer_test(s1, at(fp, 1), Imm::High(f), st.next, base, m);
        } else {
            self.lemma_bank_over(s1, at(fp, 1), base, m);
            assert(exec(s.rows, base, m) == c1) by {
                broadcast use group_exec;

            }
        }
    }
}

} // verus!
