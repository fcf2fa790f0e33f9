//! A call as a whole: what the callee finds, and what the caller goes on with.
use vstd::prelude::*;
use crate::emit::{at, const_byte, goto_tmp, label_tmp, movf, movwf, St};
use crate::ir::{Call, CallArg, Inst, Param, Ty, Val};
use crate::line::{sym_text, Imm, Line, Sym};
use crate::machine::{exec, exec_to, group_exec, group_exec_pointer, literal, Flow, Machine};
use crate::meaning::{apart, kept, word};
use crate::names::func_index;
use crate::pic14e::laws::ready;
use crate::pic14e::{page_in, Gen, HOLD};
use crate::runs::{at_call, grown, lemma_grown_seek, lemma_number_bytes, lemma_seek_past, lemma_tidy_emit, lemma_upto, lemma_word_bytes, no_label, tidy};

verus! {

impl<'a> Gen<'a> {
    /// Whether a callee's code and its caller's are known to share a page.
    pub open spec fn pages_agree(&self, f: usize) -> bool {
        self.pages matches Some(p) && page_in(
            self.cx.m,
            p,
            sym_text(self.cx.m, Sym::Func(f)),
        ) == page_in(self.cx.m, p, self.cx.fname())
    }

    /// Whether the result of a call has a slot apart from the result bytes.
    pub open spec fn result_fits(&self, dst: Option<String>, ty: Option<Ty>) -> bool {
        dst matches Some(d) ==> {
            &&& ty is Some
            &&& self.retval <= 0xFFFF
            &&& self.cx.slot(self.cx.fname(), d@) is Some
            &&& self.cx.slot(self.cx.fname(), d@)->0 <= 0xFFFF
            &&& apart(
                self.retval,
                ty->0.bytes() as int,
                self.cx.slot(self.cx.fname(), d@)->0,
                ty->0.bytes() as int,
            )
        }
    }

    /// Whether the caller goes on from `r`, as the callee `f` left it, to `a`: the
    /// result is taken, nothing else changes, and PCLATH is the caller's page again.
    pub open spec fn goes_on(
        &self,
        r: Machine,
        a: Machine,
        f: usize,
        dst: Option<String>,
        ty: Option<Ty>,
    ) -> bool {
        &&& a.flow is Next
        &&& a.core == r.core
        &&& a.links == r.links
        &&& a.pclath == (if self.pages_agree(f) {
            r.pclath
        } else {
            literal(r, Imm::Page(Sym::Func(self.cx.func)))
        })
        &&& match dst {
            Some(d) => {
                let da = self.cx.slot(self.cx.fname(), d@)->0;
                let n = ty->0.bytes();
                word(a, da, n) == word(r, self.retval, n) && kept(r, a, da, n as int)
            },
            None => a.ram == r.ram,
        }
    }

    /// Whether a call of `f` is reached in row `n` with every argument of `b` in its
    /// place and PCLATH at the page of `f`, and the caller goes on behind it.
    pub open spec fn calls_with(
        &self,
        s: St,
        base: int,
        m: Machine,
        b: Machine,
        n: int,
        name: Seq<char>,
        args: Seq<CallArg>,
        dst: Option<String>,
        ty: Option<Ty>,
    ) -> bool {
        let f = func_index(self.cx.m, name)->0;
        let c = exec_to(s.rows, base, n, m);
        &&& at_call(s, base, m, n, f)
        &&& c.pclath == literal(b, Imm::Page(Sym::Func(f)))
        &&& self.all_in_place(
            b,
            Machine { pclath: b.pclath, ..c },
            name,
            self.cx.m.funcs@[f as int].params@,
            args,
        )
        &&& forall|r: Machine|
            r.flow is Next && r.core is Enhanced ==> self.goes_on(
                r,
                #[trigger] exec(s.rows, n + 1, r),
                f,
                dst,
                ty,
            )
    }

    /// PCLATH becomes the page of a label.
    proof fn lemma_page(&self, st: St, target: Sym, base: int, m: Machine)
        requires
            ready(st, base, m),
        ensures
            ({
                let b = exec(st.rows, base, m);
                let s = self.set_page(st, target);
                let a = exec(s.rows, base, m);
                &&& ready(s, base, m)
                &&& a.core == b.core && a.links == b.links && a.ram == b.ram
                &&& a.pclath == literal(b, Imm::Page(target))
            }),
    {
        broadcast use group_exec_pointer;

    }

    /// What stands behind a call runs from what the callee left.
    proof fn lemma_after_call(&self, st: St, f: usize, r: Machine)
        requires
            r.flow is Next,
            r.core is Enhanced,
        ensures
            ({
                let s1 = st.emit(Line::Call(Sym::Func(f)));
                let n = st.rows.len() as int;
                let s = self.restore_page(s1, Sym::Func(f));
                let a = exec(s.rows, n + 1, r);
                &&& ready(s, n + 1, r)
                &&& a.core == r.core && a.links == r.links && a.ram == r.ram
                &&& a.pclath == (if self.pages_agree(f) {
                    r.pclath
                } else {
                    literal(r, Imm::Page(Sym::Func(self.cx.func)))
                })
            }),
    {
        let s1 = st.emit(Line::Call(Sym::Func(f)));
        let n = st.rows.len() as int;
        assert(ready(s1, n + 1, r) && exec(s1.rows, n + 1, r) == r) by {
            reveal(exec);
        }
        if !self.pages_agree(f) {
            self.lemma_page(s1, Sym::Func(self.cx.func), n + 1, r);
        }
    }

    proof fn lemma_result_tidy(&self, st: St, da: u32, n: u8, i: u8)
        requires
            st.err is None,
        ensures
            tidy(st.rows, st.next, self.result_from(st, da, n, i)),
        decreases n - i,
    {
        if i < n {
            let s1 = st.emit(movf(at(self.retval, i))).emit(
                movwf(at(da, i)),
            );
            self.lemma_result_tidy(s1, da, n, (i + 1) as u8);
        }
    }

    /// The result is taken from what the callee left.
    proof fn lemma_result(
        &self,
        st: St,
        dst: Option<String>,
        ty: Option<Ty>,
        f: usize,
        base: int,
        r: Machine,
    )
        requires
            st.err is None,
            self.result_fits(dst, ty),
            ready(st, base, r),
            ({
                let a = exec(st.rows, base, r);
                &&& a.core == r.core && a.links == r.links && a.ram == r.ram
                &&& a.pclath == (if self.pages_agree(f) {
                    r.pclath
                } else {
                    literal(r, Imm::Page(Sym::Func(self.cx.func)))
                })
            }),
        ensures
            self.goes_on(
                r,
                exec(self.take_result(st, dst, ty).rows, base, r),
                f,
                dst,
                ty,
            ),
    {
        if let Some(d) = dst {
            self.law_result_is_taken(st, d, ty->0, base, r);
        }
    }

    /// A direct call reaches its callee with every argument in the place that the
    /// callee reads it from, and goes on with the callee's result in the slot of its
    /// own.
    pub proof fn law_call_passes_and_returns(&self, st: St, x: Call, f: usize, base: int, m: Machine)
        requires
            ready(st, base, m),
            st.err is None,
            x.callees@.len() == 0,
            func_index(self.cx.m, x.func@) == Some(f),
            self.passable(
                exec(st.rows, base, m),
                x.func@,
                self.cx.m.funcs@[f as int].params@,
                x.args@,
            ),
            self.result_fits(x.dst, x.ty),
        ensures
            ({
                let s = self.inst(st, Inst::Call(x));
                let b = exec(st.rows, base, m);
                &&& s.err is None
                &&& exists|n: int| #[trigger]
                    self.calls_with(s, base, m, b, n, x.func@, x.args@, x.dst, x.ty)
            }),
    {
        reveal(Gen::inst);
        reveal(Gen::call);
        let b = exec(st.rows, base, m);
        let sym = Sym::Func(f);
        let s2 = self.set_page(self.call_args(st, x.func@, x.args@), sym);
        self.lemma_call_ready(st, x.func@, f, x.args@, b, base, m);
        let n = s2.rows.len() as int;
        let s3 = s2.emit(Line::Call(sym));
        let s4 = self.restore_page(s3, sym);
        let s = self.take_result(s4, x.dst, x.ty);
        assert(s4.err is None);
        assert(s == self.inst(st, Inst::Call(x)));
        assert(grown(s3.rows, s4.rows));
        if let Some(d) = x.dst {
            let da = self.cx.slot(self.cx.fname(), d@)->0;
            self.lemma_result_tidy(s4, da, x.ty->0.bytes(), 0);
        }
        assert(grown(s4.rows, s.rows) && s.err is None);
        assert(s.rows[n] == s4.rows[n] && s4.rows[n] == s3.rows[n]);
        lemma_upto(s2.rows, s.rows, base, m);
        assert forall|r: Machine| r.flow is Next && r.core is Enhanced implies self.goes_on(
            r,
            #[trigger] exec(s.rows, n + 1, r),
            f,
            x.dst,
            x.ty,
        ) by {
            self.lemma_after_call(s2, f, r);
            self.lemma_result(s4, x.dst, x.ty, f, n + 1, r);
        }
        assert(self.calls_with(s, base, m, b, n, x.func@, x.args@, x.dst, x.ty));
    }

    /// Whether every candidate of a call through a pointer is a function that the
    /// arguments can be passed to.
    pub open spec fn candidates_stand(&self, b: Machine, args: Seq<CallArg>, callees: Seq<String>) -> bool {
        forall|i: int|
            #![trigger callees[i]]
            0 <= i < callees.len() ==> self.cx.is_func(callees[i]@) && self.passable(
                b,
                callees[i]@,
                self.cx.m.funcs@[self.cx.func_no(callees[i]@) as int].params@,
                args,
            )
    }

    /// One candidate and what leads to the next one.
    pub open spec fn candidate(&self, st: St, fp: u32, l_done: u32, args: Seq<CallArg>, name: Seq<char>) -> St {
        let f = Sym::Func(self.cx.func_no(name));
        self.far_call(self.call_args(self.candidate_test(st, fp, f), name, args), f).emit(
            goto_tmp(l_done),
        ).emit(label_tmp(st.next))
    }

    /// A candidate adds one label, that of the next one.
    proof fn lemma_candidate_rows(
        &self,
        st: St,
        fp: u32,
        l_done: u32,
        args: Seq<CallArg>,
        name: Seq<char>,
        b: Machine,
    )
        requires
            st.err is None,
            st.next < u32::MAX,
            l_done < st.next,
            self.cx.is_func(name),
            self.passable(
                b,
                name,
                self.cx.m.funcs@[self.cx.func_no(name) as int].params@,
                args,
            ),
        ensures
            ({
                let f = self.cx.func_no(name);
                let s = self.candidate(st, fp, l_done, args, name);
                let t = self.candidate_test(st, fp, Sym::Func(f));
                let u = self.far_call(self.call_args(t, name, args), Sym::Func(f)).emit(
                    goto_tmp(l_done),
                );
                &&& s.err is None
                &&& s.next == st.next + 1
                &&& grown(st.rows, t.rows)
                &&& t.err is None
                &&& grown(t.rows, u.rows)
                &&& s == u.emit(label_tmp(st.next))
                &&& no_label(st.rows, s.rows, Sym::Tmp(l_done))
            }),
    {
        let f = self.cx.func_no(name);
        let t = self.candidate_test(st, fp, Sym::Func(f));
        assert(grown(st.rows, t.rows) && t.err is None && t.next == st.next + 1) by {
            assert(tidy(st.rows, (st.next + 1) as u32, st.bump()));
            broadcast use lemma_tidy_emit;

        }
        self.lemma_tidy_call(t, name, f, args, b);
        let u1 = self.set_page(self.call_args(t, name, args), Sym::Func(f));
        let u = self.far_call(self.call_args(t, name, args), Sym::Func(f)).emit(goto_tmp(l_done));
        assert(tidy(t.rows, t.next, u)) by {
            broadcast use lemma_tidy_emit;

        }
    }

    /// The candidates from `i` on add no label but those that lead from one to the
    /// next.
    proof fn lemma_candidates_rows(
        &self,
        st: St,
        fp: u32,
        l_done: u32,
        args: Seq<CallArg>,
        callees: Seq<String>,
        i: int,
        b: Machine,
    )
        requires
            st.err is None,
            st.next + callees.len() - i < u32::MAX,
            l_done < st.next,
            0 <= i <= callees.len(),
            self.candidates_stand(b, args, callees),
        ensures
            ({
                let s = self.candidates_from(st, fp, l_done, args, callees, i);
                &&& s.err is None
                &&& s.next == st.next + callees.len() - i
                &&& no_label(st.rows, s.rows, Sym::Tmp(l_done))
            }),
        decreases callees.len() - i,
    {
        if i < callees.len() {
            self.lemma_candidate_rows(st, fp, l_done, args, callees[i]@, b);
            let s1 = self.candidate(st, fp, l_done, args, callees[i]@);
            self.lemma_candidates_rows(s1, fp, l_done, args, callees, i + 1, b);
            let s = self.candidates_from(st, fp, l_done, args, callees, i);
            assert(s == self.candidates_from(s1, fp, l_done, args, callees, i + 1));
            assert forall|k: int| 0 <= k < st.rows.len() implies #[trigger] s.rows[k]
                == st.rows[k] by {
                assert(s1.rows[k] == st.rows[k]);
            }
            assert forall|k: int| st.rows.len() <= k < s.rows.len() implies (
            #[trigger] s.rows[k]).line != Line::Label(Sym::Tmp(l_done)) by {
                if k < s1.rows.len() {
                    assert(s.rows[k] == s1.rows[k]);
                }
            }
        }
    }

    /// Whether two machines agree in all but W, the flags and the clock.
    pub open spec fn same_data(b: Machine, c: Machine) -> bool {
        c.core == b.core && c.pclath == b.pclath && c.links == b.links && c.ram == b.ram
    }

    /// A candidate whose address the pointer does not hold is passed over.
    proof fn lemma_candidate_passed_over(
        &self,
        st: St,
        fp: u32,
        l_done: u32,
        args: Seq<CallArg>,
        callees: Seq<String>,
        i: int,
        b: Machine,
        base: int,
        m: Machine,
    )
        requires
            ready(st, base, m),
            st.err is None,
            fp <= 0xFFFF,
            st.next < u32::MAX,
            l_done < st.next,
            0 <= i < callees.len(),
            self.candidates_stand(b, args, callees),
            Self::same_data(b, exec(st.rows, base, m)),
            word(b, fp, 2) != self.entry(b, callees[i]@),
        ensures
            ({
                let s = self.candidate(st, fp, l_done, args, callees[i]@);
                ready(s, base, m) && Self::same_data(b, exec(s.rows, base, m))
            }),
    {
        let f = Sym::Func(self.cx.func_no(callees[i]@));
        self.law_candidate_is_called_on_a_match(st, fp, l_done, args, callees, i, base, m);
        self.lemma_candidate_rows(st, fp, l_done, args, callees[i]@, b);
        let t = self.candidate_test(st, fp, f);
        let u = self.far_call(self.call_args(t, callees[i]@, args), f).emit(goto_tmp(l_done));
        assert(at(fp, 0) == fp);
        let c = exec(t.rows, base, m);
        assert(c.flow == Flow::Seek(Sym::Tmp(st.next)));
        lemma_grown_seek(t.rows, u.rows, base, m);
        let s = u.emit(label_tmp(st.next));
        assert(ready(s, base, m) && exec(s.rows, base, m) == (Machine { flow: Flow::Next, ..c })) by {
            broadcast use group_exec;

        }
    }

    /// Where the test of candidate `k` starts, none before it having matched.
    proof fn lemma_candidate_found(
        &self,
        st: St,
        fp: u32,
        l_done: u32,
        args: Seq<CallArg>,
        callees: Seq<String>,
        i: int,
        k: int,
        b: Machine,
        base: int,
        m: Machine,
    ) -> (t: St)
        requires
            ready(st, base, m),
            st.err is None,
            fp <= 0xFFFF,
            st.next + callees.len() - i < u32::MAX,
            l_done < st.next,
            0 <= i <= k <= callees.len(),
            self.candidates_stand(b, args, callees),
            Self::same_data(b, exec(st.rows, base, m)),
            forall|j: int|
                #![trigger callees[j]]
                i <= j < k ==> word(b, fp, 2) != self.entry(b, callees[j]@),
        ensures
            ready(t, base, m),
            t.err is None,
            t.next == st.next + k - i,
            Self::same_data(b, exec(t.rows, base, m)),
            self.candidates_from(st, fp, l_done, args, callees, i) == self.candidates_from(
                t,
                fp,
                l_done,
                args,
                callees,
                k,
            ),
        decreases k - i,
    {
        if i < k {
            let z = callees[i];
            self.lemma_candidate_passed_over(st, fp, l_done, args, callees, i, b, base, m);
            self.lemma_candidate_rows(st, fp, l_done, args, callees[i]@, b);
            let s = self.candidate(st, fp, l_done, args, callees[i]@);
            assert(self.candidates_from(st, fp, l_done, args, callees, i) == self.candidates_from(
                s,
                fp,
                l_done,
                args,
                callees,
                i + 1,
            ));
            self.lemma_candidate_found(s, fp, l_done, args, callees, i + 1, k, b, base, m)
        } else {
            st
        }
    }

    /// A call through a pointer reaches the candidate whose address the pointer holds,
    /// the first where two have the same one, with every argument of the instruction
    /// in the place that this candidate reads it from, and goes on with its result.
    #[verifier::rlimit(40)]
    pub proof fn law_indirect_call_passes_and_returns(
        &self,
        st: St,
        x: Call,
        k: int,
        base: int,
        m: Machine,
    )
        requires
            ready(st, base, m),
            st.err is None,
            st.next + x.callees@.len() + 2 < u32::MAX,
            0 <= k < x.callees@.len(),
            self.cx.slot(self.cx.fname(), x.func@) is Some,
            self.cx.slot(self.cx.fname(), x.func@)->0 <= 0xFFFF,
            self.candidates_stand(exec(st.rows, base, m), x.args@, x.callees@),
            self.result_fits(x.dst, x.ty),
            ({
                let b = exec(st.rows, base, m);
                let fp = self.cx.slot(self.cx.fname(), x.func@)->0;
                &&& word(b, fp, 2) == self.entry(b, x.callees@[k]@)
                &&& forall|j: int|
                    #![trigger x.callees@[j]]
                    0 <= j < k ==> word(b, fp, 2) != self.entry(b, x.callees@[j]@)
            }),
        ensures
            ({
                let s = self.inst(st, Inst::Call(x));
                let b = exec(st.rows, base, m);
                &&& s.err is None
                &&& exists|n: int| #[trigger]
                    self.calls_with(s, base, m, b, n, x.callees@[k]@, x.args@, x.dst, x.ty)
            }),
    {
        reveal(Gen::inst);
        reveal(Gen::call);
        let b = exec(st.rows, base, m);
        let (args, callees) = (x.args@, x.callees@);
        let fp = self.cx.slot(self.cx.fname(), x.func@)->0;
        let l_done = st.next;
        let name = callees[k]@;
        let f = self.cx.func_no(name);
        let sym = Sym::Func(f);
        let s0 = st.bump();
        assert(ready(s0, base, m));
        let t = self.lemma_candidate_found(s0, fp, l_done, args, callees, 0, k, b, base, m);
        self.law_candidate_is_called_on_a_match(t, fp, l_done, args, callees, k, base, m);
        self.lemma_candidate_rows(t, fp, l_done, args, name, b);
        assert(at(fp, 0) == fp);
        let u = self.candidate_test(t, fp, sym);
        assert(ready(u, base, m));
        self.lemma_call_ready(u, name, f, args, b, base, m);
        let s2 = self.set_page(self.call_args(u, name, args), sym);
        let n = s2.rows.len() as int;
        let s3 = s2.emit(Line::Call(sym));
        let s4 = self.restore_page(s3, sym);
        let s5 = s4.emit(goto_tmp(l_done));
        let s6 = s5.emit(label_tmp(t.next));
        assert(s6 == self.candidate(t, fp, l_done, args, name));
        self.lemma_candidates_rows(s6, fp, l_done, args, callees, k + 1, b);
        let s7 = self.candidates_from(s6, fp, l_done, args, callees, k + 1);
        assert(s7 == self.candidates_from(s0, fp, l_done, args, callees, 0));
        let s8 = self.trap(s7);
        let s9 = s8.emit(label_tmp(l_done));
        let s = self.take_result(s9, x.dst, x.ty);
        assert(s == self.inst(st, Inst::Call(x)));
        self.lemma_rows_after(s3, s4, s5, s6, s7, s8, s9, sym, l_done);
        if let Some(d) = x.dst {
            let da = self.cx.slot(self.cx.fname(), d@)->0;
            self.lemma_result_tidy(s9, da, x.ty->0.bytes(), 0);
        }
        assert(grown(s9.rows, s.rows) && s.err is None);
        assert(s.rows[n] == s9.rows[n] && s9.rows[n] == s3.rows[n]);
        assert forall|i: int| 0 <= i < s2.rows.len() implies #[trigger] s.rows[i] == s2.rows[i] by {
            assert(s.rows[i] == s9.rows[i] && s9.rows[i] == s3.rows[i]);
        }
        lemma_upto(s2.rows, s.rows, base, m);
        assert forall|r: Machine| r.flow is Next && r.core is Enhanced implies self.goes_on(
            r,
            #[trigger] exec(s.rows, n + 1, r),
            f,
            x.dst,
            x.ty,
        ) by {
            self.lemma_after_call(s2, f, r);
            let c = exec(s4.rows, n + 1, r);
            let d = exec(s5.rows, n + 1, r);
            assert(d.flow == Flow::Seek(Sym::Tmp(l_done)) && d.core == c.core && d.ram == c.ram && d.pclath
                == c.pclath && d.links == c.links) by {
                broadcast use group_exec;

            }
            lemma_seek_past(s5.rows, s8.rows, Sym::Tmp(l_done), n + 1, r);
            assert(ready(s9, n + 1, r) && exec(s9.rows, n + 1, r) == (Machine {
                flow: Flow::Next,
                ..d
            })) by {
                broadcast use group_exec;

            }
            self.lemma_result(s9, x.dst, x.ty, f, n + 1, r);
        }
        assert(self.calls_with(s, base, m, b, n, name, args, x.dst, x.ty));
    }

    /// The rows behind the call of a candidate.
    proof fn lemma_rows_after(
        &self,
        s3: St,
        s4: St,
        s5: St,
        s6: St,
        s7: St,
        s8: St,
        s9: St,
        sym: Sym,
        l_done: u32,
    )
        requires
            s4 == self.restore_page(s3, sym),
            s5 == s4.emit(goto_tmp(l_done)),
            s6 == s5.emit(label_tmp((s6.next - 1) as u32)),
            s6.next - 1 > l_done,
            no_label(s6.rows, s7.rows, Sym::Tmp(l_done)),
            s7.next > l_done,
            s7.err is None,
            s7.next < u32::MAX,
            s8 == self.trap(s7),
            s9 == s8.emit(label_tmp(l_done)),
        ensures
            no_label(s5.rows, s8.rows, Sym::Tmp(l_done)),
            s3.rows.len() <= s5.rows.len(),
            s8.rows.len() + 1 == s9.rows.len(),
            s9.err is None,
            forall|i: int| 0 <= i < s3.rows.len() ==> #[trigger] s9.rows[i] == s3.rows[i],
    {
        assert forall|i: int| 0 <= i < s5.rows.len() implies #[trigger] s8.rows[i] == s5.rows[i] by {
            assert(s7.rows[i] == s6.rows[i]);
        }
        assert forall|i: int| s5.rows.len() <= i < s8.rows.len() implies (
        #[trigger] s8.rows[i]).line != Line::Label(Sym::Tmp(l_done)) by {
            if i < s6.rows.len() {
                assert(s7.rows[i] == s6.rows[i]);
            }
        }
        assert forall|i: int| 0 <= i < s3.rows.len() implies #[trigger] s9.rows[i] == s3.rows[i] by {
            assert(s8.rows[i] == s5.rows[i]);
        }
    }

    /// Whether a call through a pointer that holds the address of none of its
    /// candidates ends in a jump to itself.
    pub open spec fn traps_at(s: St, base: int, m: Machine, n: int) -> bool {
        &&& base <= n
        &&& n + 1 < s.rows.len()
        &&& exec_to(s.rows, base, n, m).flow is Next
        &&& s.rows[n].line is Label
        &&& s.rows[n + 1].line == Line::Goto(s.rows[n].line->Label_0)
    }

    /// A call through a pointer that holds the address of none of its candidates calls
    /// nothing: it ends in a jump to itself, with RAM as it was.
    pub proof fn law_unknown_callee_is_trapped(&self, st: St, x: Call, base: int, m: Machine)
        requires
            ready(st, base, m),
            st.err is None,
            st.next + x.callees@.len() + 2 < u32::MAX,
            x.callees@.len() > 0,
            self.cx.slot(self.cx.fname(), x.func@) is Some,
            self.cx.slot(self.cx.fname(), x.func@)->0 <= 0xFFFF,
            self.candidates_stand(exec(st.rows, base, m), x.args@, x.callees@),
            self.result_fits(x.dst, x.ty),
            ({
                let b = exec(st.rows, base, m);
                let fp = self.cx.slot(self.cx.fname(), x.func@)->0;
                forall|j: int|
                    #![trigger x.callees@[j]]
                    0 <= j < x.callees@.len() ==> word(b, fp, 2) != self.entry(b, x.callees@[j]@)
            }),
        ensures
            ({
                let s = self.inst(st, Inst::Call(x));
                let b = exec(st.rows, base, m);
                exists|n: int| #[trigger]
                    Self::traps_at(s, base, m, n) && exec_to(s.rows, base, n, m).ram == b.ram
            }),
    {
        reveal(Gen::inst);
        reveal(Gen::call);
        let b = exec(st.rows, base, m);
        let (args, callees) = (x.args@, x.callees@);
        let fp = self.cx.slot(self.cx.fname(), x.func@)->0;
        let l_done = st.next;
        let s0 = st.bump();
        assert(ready(s0, base, m));
        let t = self.lemma_candidate_found(
            s0,
            fp,
            l_done,
            args,
            callees,
            0,
            callees.len() as int,
            b,
            base,
            m,
        );
        assert(t == self.candidates_from(s0, fp, l_done, args, callees, 0));
        let s9 = self.trap(t).emit(label_tmp(l_done));
        let s = self.take_result(s9, x.dst, x.ty);
        if let Some(d) = x.dst {
            let da = self.cx.slot(self.cx.fname(), d@)->0;
            self.lemma_result_tidy(s9, da, x.ty->0.bytes(), 0);
        }
        assert(grown(s9.rows, s.rows));
        let n = t.rows.len() as int;
        assert(s.rows[n] == s9.rows[n] && s.rows[n + 1] == s9.rows[n + 1]);
        assert forall|i: int| 0 <= i < t.rows.len() implies #[trigger] s.rows[i] == t.rows[i] by {
            assert(s.rows[i] == s9.rows[i]);
        }
        lemma_upto(t.rows, s.rows, base, m);
        assert(Self::traps_at(s, base, m, n));
    }

    /// Whether the arguments are numbers, each in a constant or a slot of its own, and
    /// neither they nor their parameters lie in the bytes that are used on the way.
    pub open spec fn numbers(&self, func: Seq<char>, ps: Seq<Param>, args: Seq<CallArg>) -> bool {
        &&& self.scalars(func, ps, args)
        &&& forall|i: int|
            #![trigger args[i]]
            0 <= i < args.len() ==> {
                let n = args[i].ty->0.bytes() as int;
                &&& apart(self.param_at(func, ps[i]), n, self.scratch, 1)
                &&& apart(self.param_at(func, ps[i]), n, HOLD, 1)
                &&& self.slot_of(args[i].val) matches Some(a) ==> a <= 0xFFFF && apart(
                    a,
                    n,
                    self.scratch,
                    1,
                ) && apart(a, n, HOLD, 1)
            }
    }

    /// Numbers can be passed one after the other.
    pub proof fn law_numbers_can_be_passed(
        &self,
        b: Machine,
        func: Seq<char>,
        ps: Seq<Param>,
        args: Seq<CallArg>,
    )
        requires
            self.numbers(func, ps, args),
        ensures
            self.passable(b, func, ps, args),
    {
        reveal(Gen::passable);
        assert forall|i: int| 0 <= i < args.len() implies #[trigger] self.arg_steady(
            b,
            func,
            ps,
            args,
            i,
        ) by {
            let arg = args[i];
            assert(self.scalar(func, ps[i], arg));
            let n = arg.ty->0.bytes();
            assert forall|c: Machine| #[trigger] self.agrees(b, c, func, ps, args, i) implies self.arg_stands(
                c,
                func,
                ps,
                args,
                i,
            ) && (forall|j: u8|
                j < n ==> #[trigger] self.arg_byte(c, func, ps, args, i, j) == self.arg_byte(
                    b,
                    func,
                    ps,
                    args,
                    i,
                    j,
                )) by {
                if let Some(a) = self.slot_of(arg.val) {
                    assert forall|x: u32| a <= x < a + n implies #[trigger] c.ram[x] == b.ram[x] by {
                        assert(self.untouched(func, ps, args, i, x)) by {
                            assert forall|k: int|
                                #![trigger args[k]]
                                0 <= k < i implies x < self.arg_at(func, ps, args, k) || x
                                >= self.arg_at(func, ps, args, k) + self.arg_len(ps, args, k) by {
                                assert(self.scalar(func, ps[k], args[k]));
                                assert(apart(
                                    a,
                                    n as int,
                                    self.param_at(func, ps[k]),
                                    args[k].ty->0.bytes() as int,
                                ));
                            }
                        }
                    }
                    assert(word(c, a, n) == word(b, a, n));
                }
            }
        }
        assert forall|i: int, k: int|
            #![trigger args[i], args[k]]
            0 <= i < args.len() && 0 <= k < args.len() && i != k implies apart(
            self.arg_at(func, ps, args, i),
            self.arg_len(ps, args, i) as int,
            self.arg_at(func, ps, args, k),
            self.arg_len(ps, args, k) as int,
        ) by {
            assert(self.scalar(func, ps[i], args[i]) && self.scalar(func, ps[k], args[k]));
        }
        assert forall|i: int|
            #![trigger args[i]]
            0 <= i < args.len() implies apart(
            self.arg_at(func, ps, args, i),
            self.arg_len(ps, args, i) as int,
            self.scratch,
            1,
        ) && apart(
            self.arg_at(func, ps, args, i),
            self.arg_len(ps, args, i) as int,
            HOLD,
            1,
        ) by {
            assert(self.scalar(func, ps[i], args[i]));
        }
    }

    /// Numbers that are in place are those of the caller, each in the slot of the
    /// parameter with its index.
    proof fn lemma_numbers_in_place(
        &self,
        b: Machine,
        a: Machine,
        func: Seq<char>,
        ps: Seq<Param>,
        args: Seq<CallArg>,
        i: int,
    )
        requires
            self.numbers(func, ps, args),
            self.all_in_place(b, a, func, ps, args),
            0 <= i < args.len(),
        ensures
            word(a, self.param_at(func, ps[i]), args[i].ty->0.bytes()) == self.value(
                b,
                args[i].val,
                args[i].ty->0.bytes(),
            ),
    {
        reveal(Gen::all_in_place);
        assert(self.scalar(func, ps[i], args[i]));
        assert(self.in_place(b, a, func, ps, args, i));
        let pa = self.param_at(func, ps[i]);
        let n = args[i].ty->0.bytes();
        let v = args[i].val;
        self.lemma_plain_value(b, v, n);
        assert forall|j: u8| j < n implies #[trigger] a.ram[at(pa, j)] == self.byte_of(b, v, j) by {
            assert(j < self.arg_len(ps, args, i));
            assert(a.ram[at(self.arg_at(func, ps, args, i), j)] == self.arg_byte(
                b,
                func,
                ps,
                args,
                i,
                j,
            ));
            match v {
                Val::Const(k) => lemma_number_bytes(
                    const_byte(k, 0),
                    const_byte(k, 1),
                    const_byte(k, 2),
                    const_byte(k, 3),
                    n,
                    j,
                ),
                _ => lemma_word_bytes(b, self.slot_of(v)->0, n, j),
            }
        }
        assert(a.ram[at(pa, 0)] == self.byte_of(b, v, 0));
        if n > 1 {
            assert(a.ram[at(pa, 1)] == self.byte_of(b, v, 1));
        }
        if n > 2 {
            assert(a.ram[at(pa, 2)] == self.byte_of(b, v, 2));
            assert(a.ram[at(pa, 3)] == self.byte_of(b, v, 3));
        }
    }

    /// When control reaches the call of the candidate whose address the pointer holds,
    /// every numeric argument of the instruction stands in the slot of the candidate's
    /// parameter with its index.
    pub proof fn law_numbers_reach_the_pointed_callee(
        &self,
        st: St,
        x: Call,
        k: int,
        base: int,
        m: Machine,
    )
        requires
            ready(st, base, m),
            st.err is None,
            st.next + x.callees@.len() + 2 < u32::MAX,
            0 <= k < x.callees@.len(),
            self.cx.slot(self.cx.fname(), x.func@) is Some,
            self.cx.slot(self.cx.fname(), x.func@)->0 <= 0xFFFF,
            forall|i: int|
                #![trigger x.callees@[i]]
                0 <= i < x.callees@.len() ==> self.cx.is_func(x.callees@[i]@) && self.numbers(
                    x.callees@[i]@,
                    self.cx.m.funcs@[self.cx.func_no(x.callees@[i]@) as int].params@,
                    x.args@,
                ),
            self.result_fits(x.dst, x.ty),
            ({
                let b = exec(st.rows, base, m);
                let fp = self.cx.slot(self.cx.fname(), x.func@)->0;
                &&& word(b, fp, 2) == self.entry(b, x.callees@[k]@)
                &&& forall|j: int|
                    #![trigger x.callees@[j]]
                    0 <= j < k ==> word(b, fp, 2) != self.entry(b, x.callees@[j]@)
            }),
        ensures
            ({
                let s = self.inst(st, Inst::Call(x));
                let b = exec(st.rows, base, m);
                let name = x.callees@[k]@;
                let f = self.cx.func_no(name);
                let ps = self.cx.m.funcs@[f as int].params@;
                exists|n: int| #[trigger]
                    at_call(s, base, m, n, f) && (forall|i: int|
                        0 <= i < x.args@.len() ==> word(
                            exec_to(s.rows, base, n, m),
                            self.param_at(name, #[trigger] ps[i]),
                            x.args@[i].ty->0.bytes(),
                        ) == self.value(b, x.args@[i].val, x.args@[i].ty->0.bytes()))
            }),
    {
        let b = exec(st.rows, base, m);
        assert forall|i: int|
            #![trigger x.callees@[i]]
            0 <= i < x.callees@.len() implies self.cx.is_func(x.callees@[i]@) && self.passable(
            b,
            x.callees@[i]@,
            self.cx.m.funcs@[self.cx.func_no(x.callees@[i]@) as int].params@,
            x.args@,
        ) by {
            self.law_numbers_can_be_passed(
                b,
                x.callees@[i]@,
                self.cx.m.funcs@[self.cx.func_no(x.callees@[i]@) as int].params@,
                x.args@,
            );
        }
        self.law_indirect_call_passes_and_returns(st, x, k, base, m);
        let s = self.inst(st, Inst::Call(x));
        let name = x.callees@[k]@;
        let f = self.cx.func_no(name);
        let ps = self.cx.m.funcs@[f as int].params@;
        let n = choose|n: int| #[trigger]
            self.calls_with(s, base, m, b, n, name, x.args@, x.dst, x.ty);
        let c = exec_to(s.rows, base, n, m);
        assert forall|i: int| 0 <= i < x.args@.len() implies word(
            c,
            self.param_at(name, #[trigger] ps[i]),
            x.args@[i].ty->0.bytes(),
        ) == self.value(b, x.args@[i].val, x.args@[i].ty->0.bytes()) by {
            self.lemma_numbers_in_place(b, Machine { pclath: b.pclath, ..c }, name, ps, x.args@, i);
        }
        assert(at_call(s, base, m, n, f));
    }
}

} // verus!
