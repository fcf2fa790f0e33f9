//! The four-byte multiplication routine computes products.
use vstd::prelude::*;
use crate::emit::{at, clrf, f_op, goto_tmp, label_tmp, on_c, ram_bit, St};
use crate::line::{BitOp, Op, Sym};
use crate::machine::{exec, group_exec, runs_to, settle, Flow, Machine};
use crate::meaning::{apart, limit, passed_over, pow2, seeking, word};
use crate::pic14e::laws::multiply::{lemma_bits, lemma_pending_turn, pending, Product};
use crate::pic14e::laws::ready;
use crate::pic14e::Gen;

verus! {

/// Where the routine keeps its numbers.
pub open spec fn long_product(scr: u32) -> Product {
    Product { bk: scr, nb: 2, cnt: at(scr, 2), r: at(scr, 3), t: at(scr, 7), n: 4 }
}

impl<'a> Gen<'a> {
    /// Whether the slots of a four-byte multiplication share no byte.
    pub open spec fn long_slots(&self, a: u32, b: u32, scr: u32) -> bool {
        &&& a <= 0xFFFF && b <= 0xFFFF && scr <= 0xFFFF && self.retval <= 0xFFFF
        &&& apart(a, 4, scr, 11)
        &&& apart(b, 4, scr, 11)
        &&& apart(self.retval, 4, scr, 11)
    }

    /// What the routine does before its first loop.
    pub open spec fn long_start(&self, st: St, a: u32, b: u32, scr: u32) -> St {
        let r = at(scr, 3);
        let t = at(scr, 7);
        let st = st.emit(clrf(r)).emit(clrf(t)).emit(clrf(at(r, 1))).emit(clrf(at(t, 1))).emit(
            clrf(at(r, 2)),
        ).emit(clrf(at(t, 2))).emit(clrf(at(r, 3))).emit(clrf(at(t, 3)));
        let st = self.copy_bytes(st, a, t, 4, 0);
        let st = self.copy_bytes(st, b, scr, 2, 0);
        self.set_count(st, at(scr, 2), 16)
    }

    /// What it does between its loops.
    pub open spec fn long_middle(&self, st: St, b: u32, scr: u32) -> St {
        self.set_count(self.copy_bytes(st, at(b, 2), scr, 2, 0), at(scr, 2), 16)
    }

    /// The rows up to the end of the first loop.
    pub open spec fn long_first(&self, st: St, a: u32, b: u32, scr: u32) -> St {
        let d = long_product(scr);
        let s = self.long_start(st, a, b, scr).bump().bump();
        self.mul_loop(s, st.next, st.bump().next, d.bk, d.nb, d.cnt, d.r, d.t, d.n)
    }

    /// The rows up to the end of the second loop.
    pub open spec fn long_second(&self, st: St, a: u32, b: u32, scr: u32) -> St {
        let d = long_product(scr);
        let s = self.long_middle(self.long_first(st, a, b, scr), b, scr).bump().bump();
        let l = st.bump().bump().next;
        self.mul_loop(s, l, st.bump().bump().bump().next, d.bk, d.nb, d.cnt, d.r, d.t, d.n)
    }

    proof fn lemma_long_wf(&self, a: u32, b: u32, scr: u32)
        requires
            self.long_slots(a, b, scr),
        ensures
            long_product(scr).wf(),
    {
    }

    pub(crate) proof fn lemma_copy_next(&self, st: St, src: u32, dst: u32, n: u8, i: u8)
        ensures
            self.copy_bytes(st, src, dst, n, i).next == st.next,
            self.copy_bytes(st, src, dst, n, i).err == st.err,
            st.w is None ==> self.copy_bytes(st, src, dst, n, i).w is None,
        decreases n - i,
    {
        if i < n {
            let s1 = st.emit(crate::emit::movf(at(src, i))).emit(crate::emit::movwf(at(dst, i)));
            self.lemma_copy_next(s1, src, dst, n, (i + 1) as u8);
        }
    }

    /// The loops take no label numbers.
    proof fn lemma_loop_next(&self, st: St, again: u32, skip: u32, d: Product)
        requires
            d.n == 4,
            d.nb == 2,
        ensures
            self.mul_loop(st, again, skip, d.bk, d.nb, d.cnt, d.r, d.t, d.n).next == st.next,
    {
        reveal_with_fuel(Gen::add_chain, 4);
        reveal_with_fuel(Gen::rotate_up, 5);
        reveal_with_fuel(Gen::rotate_down, 5);
    }

    /// The routine is its two loops and its end.
    proof fn lemma_long_shape(&self, st: St, a: u32, b: u32, scr: u32)
        ensures
            self.mul_long(st, a, b, scr) == self.give_back(
                self.long_second(st, a, b, scr),
                at(scr, 3),
                4,
            ),
    {
        let r = at(scr, 3);
        let t = at(scr, 7);
        let s0 = st.emit(clrf(r)).emit(clrf(t)).emit(clrf(at(r, 1))).emit(clrf(at(t, 1))).emit(
            clrf(at(r, 2)),
        ).emit(clrf(at(t, 2))).emit(clrf(at(r, 3))).emit(clrf(at(t, 3)));
        self.lemma_copy_next(s0, a, t, 4, 0);
        let s1 = self.copy_bytes(s0, a, t, 4, 0);
        self.lemma_copy_next(s1, b, scr, 2, 0);
        let s3 = self.long_start(st, a, b, scr);
        assert(s3.next == st.next);
        self.lemma_loop_next(
            s3.bump().bump(),
            st.next,
            st.bump().next,
            long_product(scr),
        );
        let s4 = self.long_first(st, a, b, scr);
        assert(s4.next == st.bump().bump().next);
        self.lemma_copy_next(s4, at(b, 2), scr, 2, 0);
    }

    proof fn lemma_long_start(&self, st: St, a: u32, b: u32, scr: u32, base: int, m: Machine)
        requires
            self.long_slots(a, b, scr),
            ready(st, base, m),
        ensures
            ({
                let d = long_product(scr);
                let s = self.long_start(st, a, b, scr);
                let x = exec(st.rows, base, m);
                let y = exec(s.rows, base, m);
                ready(s, base, m) && y.ram[d.cnt] == 16 && word(y, d.r, 4) == 0 && word(y, d.t, 4)
                    == word(x, a, 4) && word(y, d.bk, 2) == word(x, b, 2) && d.alike(x, y)
            }),
    {
        let d = long_product(scr);
        let x = exec(st.rows, base, m);
        let r = d.r;
        let t = d.t;
        let s0 = st.emit(clrf(r)).emit(clrf(t)).emit(clrf(at(r, 1))).emit(clrf(at(t, 1))).emit(
            clrf(at(r, 2)),
        ).emit(clrf(at(t, 2))).emit(clrf(at(r, 3))).emit(clrf(at(t, 3)));
        let m0 = exec(s0.rows, base, m);
        assert(ready(s0, base, m) && m0.core == x.core && m0.fsr0 == x.fsr0 && m0.pclath == x.pclath
            && m0.links == x.links && word(m0, r, 4) == 0 && (forall|z: u32|
            d.outside(z) || z == scr || z == at(scr, 1) || z == d.cnt ==> #[trigger] m0.ram[z]
                == x.ram[z])) by {
            broadcast use group_exec;

        }
        let s1 = self.copy_bytes(s0, a, t, 4, 0);
        self.lemma_copied(s0, a, t, 4, base, m);
        let m1 = exec(s1.rows, base, m);
        assert(word(m0, a, 4) == word(x, a, 4));
        let s2 = self.copy_bytes(s1, b, scr, 2, 0);
        self.lemma_copied(s1, b, scr, 2, base, m);
        let m2 = exec(s2.rows, base, m);
        assert(word(m1, b, 2) == word(x, b, 2));
        self.lemma_set_count(s2, d.cnt, 16, base, m);
        let y = exec(self.long_start(st, a, b, scr).rows, base, m);
        assert(word(y, t, 4) == word(m1, t, 4));
        assert(word(y, scr, 2) == word(m2, scr, 2));
        assert(word(y, r, 4) == word(m0, r, 4));
        assert forall|z: u32| d.outside(z) implies #[trigger] y.ram[z] == x.ram[z] by {
            assert(m0.ram[z] == x.ram[z]);
            assert(m1.ram[z] == m0.ram[z]);
        }
    }

    proof fn lemma_long_start_over(&self, st: St, a: u32, b: u32, scr: u32, base: int, m: Machine)
        requires
            seeking(st, base, m),
        ensures
            passed_over(st, self.long_start(st, a, b, scr), base, m),
    {
        let r = at(scr, 3);
        let t = at(scr, 7);
        let s0 = st.emit(clrf(r)).emit(clrf(t)).emit(clrf(at(r, 1))).emit(clrf(at(t, 1))).emit(
            clrf(at(r, 2)),
        ).emit(clrf(at(t, 2))).emit(clrf(at(r, 3))).emit(clrf(at(t, 3)));
        assert(passed_over(st, s0, base, m)) by {
            broadcast use group_exec;

        }
        self.lemma_copy_over(s0, a, t, 4, 0, base, m);
        let s1 = self.copy_bytes(s0, a, t, 4, 0);
        self.lemma_copy_over(s1, b, scr, 2, 0, base, m);
        let s2 = self.copy_bytes(s1, b, scr, 2, 0);
        self.lemma_count_over(s2, at(scr, 2), 16, base, m);
    }

    proof fn lemma_long_middle(&self, st: St, b: u32, scr: u32, base: int, m: Machine)
        requires
            b <= 0xFFFF && scr <= 0xFFFF,
            apart(b, 4, scr, 11),
            ready(st, base, m),
        ensures
            ({
                let d = long_product(scr);
                let s = self.long_middle(st, b, scr);
                let x = exec(st.rows, base, m);
                let y = exec(s.rows, base, m);
                ready(s, base, m) && y.ram[d.cnt] == 16 && word(y, d.r, 4) == word(x, d.r, 4)
                    && word(y, d.t, 4) == word(x, d.t, 4) && word(y, d.bk, 2) == word(x, at(b, 2), 2)
                    && d.alike(x, y)
            }),
    {
        let d = long_product(scr);
        let x = exec(st.rows, base, m);
        let s1 = self.copy_bytes(st, at(b, 2), scr, 2, 0);
        self.lemma_copied(st, at(b, 2), scr, 2, base, m);
        let m1 = exec(s1.rows, base, m);
        self.lemma_set_count(s1, d.cnt, 16, base, m);
        let y = exec(self.long_middle(st, b, scr).rows, base, m);
        assert(word(y, d.bk, 2) == word(m1, d.bk, 2));
        assert(word(y, d.r, 4) == word(x, d.r, 4));
        assert(word(y, d.t, 4) == word(x, d.t, 4));
        assert forall|z: u32| d.outside(z) implies #[trigger] y.ram[z] == x.ram[z] by {
            assert(m1.ram[z] == x.ram[z]);
        }
    }

    proof fn lemma_long_middle_over(&self, st: St, b: u32, scr: u32, base: int, m: Machine)
        requires
            seeking(st, base, m),
        ensures
            passed_over(st, self.long_middle(st, b, scr), base, m),
    {
        self.lemma_copy_over(st, at(b, 2), scr, 2, 0, base, m);
        self.lemma_count_over(self.copy_bytes(st, at(b, 2), scr, 2, 0), at(scr, 2), 16, base, m);
    }

    /// A jump to another label passes over a loop.
    proof fn lemma_loop_over(
        &self,
        st: St,
        again: u32,
        skip: u32,
        d: Product,
        base: int,
        m: Machine,
    )
        requires
            seeking(st, base, m),
            exec(st.rows, base, m).flow != Flow::Seek(Sym::Tmp(again)),
            exec(st.rows, base, m).flow != Flow::Seek(Sym::Tmp(skip)),
            d.n == 4,
            d.nb == 2,
        ensures
            passed_over(
                st,
                self.mul_loop(st, again, skip, d.bk, d.nb, d.cnt, d.r, d.t, d.n),
                base,
                m,
            ),
    {
        let s1 = st.emit(label_tmp(again)).emit(ram_bit(BitOp::Btfss, d.bk, 0)).emit(
            goto_tmp(skip),
        );
        assert(passed_over(st, s1, base, m)) by {
            broadcast use group_exec;

        }
        let s2 = self.add_bytes(s1, d.t, d.r, d.n);
        self.lemma_add_over(s1, d.t, d.r, d.n, base, m);
        let s3 = s2.emit(label_tmp(skip)).emit(on_c(BitOp::Bcf));
        assert(passed_over(s2, s3, base, m)) by {
            broadcast use group_exec;

        }
        let s4 = self.rotate_up(s3, d.t, 4, 0);
        assert(passed_over(s3, s4, base, m)) by {
            broadcast use group_exec;

            reveal_with_fuel(Gen::rotate_up, 5);
        }
        let s5 = s4.emit(on_c(BitOp::Bcf));
        let s6 = self.rotate_down(s5, d.bk, 2);
        let s7 = s6.emit(f_op(Op::Decfsz, d.cnt)).emit(goto_tmp(again));
        assert(passed_over(s4, s7, base, m)) by {
            broadcast use group_exec;

            reveal_with_fuel(Gen::rotate_down, 3);
        }
    }

    /// A turn of the second loop, and the end after the last one.
    proof fn lemma_second_turn(
        &self,
        st: St,
        s: St,
        a: u32,
        b: u32,
        scr: u32,
        left: int,
        x: int,
        base: int,
        m: Machine,
    )
        requires
            self.long_slots(a, b, scr),
            st.next <= u32::MAX - 4,
            1 <= left <= 255,
            0 <= base <= s.rows.len(),
            s == self.long_middle(self.long_first(st, a, b, scr), b, scr).bump().bump(),
            ({
                let y = exec(s.rows, base, m);
                let l = (st.next + 2) as u32;
                (y.flow == Flow::Next || y.flow == Flow::Seek(Sym::Tmp(l))) && pending(
                    long_product(scr),
                    Machine { flow: Flow::Seek(Sym::Tmp(l)), ..y },
                    l,
                    left,
                    x,
                    0,
                )
            }),
        ensures
            ({
                let z = exec(self.mul_long(st, a, b, scr).rows, base, m);
                if left == 1 {
                    z.flow is Gone && word(z, self.retval, 4) == x % limit(4)
                } else {
                    pending(long_product(scr), z, (st.next + 2) as u32, left - 1, x, 0)
                }
            }),
    {
        let d = long_product(scr);
        let l = (st.next + 2) as u32;
        let k = (st.next + 3) as u32;
        let y = exec(s.rows, base, m);
        self.lemma_long_wf(a, b, scr);
        self.lemma_mul_turn(s, l, k, d, base, m);
        let s2 = self.long_second(st, a, b, scr);
        let y2 = exec(s2.rows, base, m);
        lemma_pending_turn(d, y, y2, l, left, x, 0);
        assert(word(y2, d.t, d.n) * 0 == 0);
        self.lemma_long_shape(st, a, b, scr);
        if left == 1 {
            self.lemma_give_back(s2, d.r, 4, base, m);
        } else {
            self.lemma_give_back_over(s2, d.r, 4, base, m);
        }
    }

    /// The end of a pass whose turn of the first loop is done.
    proof fn lemma_after_first(
        &self,
        st: St,
        a: u32,
        b: u32,
        scr: u32,
        left: int,
        x: int,
        h: int,
        base: int,
        m: Machine,
    )
        requires
            self.long_slots(a, b, scr),
            st.next <= u32::MAX - 4,
            1 <= left <= 255,
            0 <= base <= self.long_first(st, a, b, scr).rows.len(),
            h >= 0,
            ({
                let d = long_product(scr);
                let y = exec(self.long_first(st, a, b, scr).rows, base, m);
                &&& y.core is Enhanced
                &&& word(y, at(b, 2), 2) == h
                &&& if left == 1 {
                    y.flow is Next && (word(y, d.r, 4) + word(y, d.t, 4) * h) % limit(4) == x
                        % limit(4)
                } else {
                    pending(d, y, st.next, left - 1, x, h)
                }
            }),
        ensures
            ({
                let d = long_product(scr);
                let z = exec(self.mul_long(st, a, b, scr).rows, base, m);
                if left == 1 {
                    pending(d, z, (st.next + 2) as u32, 15, x, 0)
                } else {
                    pending(d, z, st.next, left - 1, x, h) && word(z, at(b, 2), 2) == h
                }
            }),
    {
        let d = long_product(scr);
        let l = (st.next + 2) as u32;
        let k = (st.next + 3) as u32;
        let s1 = self.long_first(st, a, b, scr);
        let s2 = self.long_middle(s1, b, scr).bump().bump();
        let y = exec(s1.rows, base, m);
        if left == 1 {
            self.lemma_long_middle(s1, b, scr, base, m);
            let y2 = exec(s2.rows, base, m);
            lemma_bits(h, 2);
            assert(pow2(16) * 0 == 0);
            assert(word(y2, d.t, 4) * (word(y2, d.bk, 2) + 0) == word(y, d.t, 4) * h);
            self.lemma_second_turn(st, s2, a, b, scr, 16, x, base, m);
        } else {
            self.lemma_long_middle_over(s1, b, scr, base, m);
            self.lemma_loop_over(s2, l, k, d, base, m);
            self.lemma_long_shape(st, a, b, scr);
            self.lemma_give_back_over(self.long_second(st, a, b, scr), d.r, 4, base, m);
        }
    }

    /// One pass, once the first loop jumped back.
    proof fn lemma_first_pass_on(
        &self,
        st: St,
        a: u32,
        b: u32,
        scr: u32,
        left: int,
        x: int,
        h: int,
        m: Machine,
    )
        requires
            self.long_slots(a, b, scr),
            st.next <= u32::MAX - 4,
            1 <= left <= 255,
            h >= 0,
            pending(long_product(scr), m, st.next, left, x, h),
            word(m, at(b, 2), 2) == h,
        ensures
            ({
                let d = long_product(scr);
                let z = exec(self.mul_long(st, a, b, scr).rows, st.rows.len() as int, m);
                if left == 1 {
                    pending(d, z, (st.next + 2) as u32, 15, x, 0)
                } else {
                    pending(d, z, st.next, left - 1, x, h) && word(z, at(b, 2), 2) == h
                }
            }),
    {
        let d = long_product(scr);
        let base = st.rows.len() as int;
        assert(exec(st.rows, base, m) == m) by {
            broadcast use group_exec;

        }
        self.lemma_long_wf(a, b, scr);
        self.lemma_long_start_over(st, a, b, scr, base, m);
        let s0 = self.long_start(st, a, b, scr).bump().bump();
        self.lemma_mul_turn(s0, st.next, st.bump().next, d, base, m);
        let y = exec(self.long_first(st, a, b, scr).rows, base, m);
        lemma_pending_turn(d, m, y, st.next, left, x, h);
        assert(word(y, at(b, 2), 2) == h) by {
            assert(d.outside(at(b, 2)) && d.outside(at(b, 3)));
        }
        self.lemma_after_first(st, a, b, scr, left, x, h, base, m);
    }

    /// One pass, once the second loop jumped back.
    proof fn lemma_second_pass(
        &self,
        st: St,
        a: u32,
        b: u32,
        scr: u32,
        left: int,
        x: int,
        m: Machine,
    )
        requires
            self.long_slots(a, b, scr),
            st.next <= u32::MAX - 4,
            1 <= left <= 255,
            pending(long_product(scr), m, (st.next + 2) as u32, left, x, 0),
        ensures
            ({
                let z = exec(self.mul_long(st, a, b, scr).rows, st.rows.len() as int, m);
                if left == 1 {
                    z.flow is Gone && word(z, self.retval, 4) == x % limit(4)
                } else {
                    pending(long_product(scr), z, (st.next + 2) as u32, left - 1, x, 0)
                }
            }),
    {
        let d = long_product(scr);
        let base = st.rows.len() as int;
        assert(exec(st.rows, base, m) == m) by {
            broadcast use group_exec;

        }
        self.lemma_long_start_over(st, a, b, scr, base, m);
        let s0 = self.long_start(st, a, b, scr).bump().bump();
        self.lemma_loop_over(s0, st.next, st.bump().next, d, base, m);
        let s1 = self.long_first(st, a, b, scr);
        self.lemma_long_middle_over(s1, b, scr, base, m);
        let s2 = self.long_middle(s1, b, scr).bump().bump();
        self.lemma_second_turn(st, s2, a, b, scr, left, x, base, m);
    }

    proof fn lemma_second_turns(
        &self,
        st: St,
        a: u32,
        b: u32,
        scr: u32,
        left: nat,
        x: int,
        m: Machine,
    )
        requires
            self.long_slots(a, b, scr),
            st.next <= u32::MAX - 4,
            1 <= left <= 255,
            pending(long_product(scr), m, (st.next + 2) as u32, left as int, x, 0),
        ensures
            ({
                let z = settle(
                    self.mul_long(st, a, b, scr).rows,
                    st.rows.len() as int,
                    m,
                    left,
                );
                z.flow is Gone && word(z, self.retval, 4) == x % limit(4)
            }),
        decreases left,
    {
        self.lemma_second_pass(st, a, b, scr, left as int, x, m);
        if left > 1 {
            let z = exec(self.mul_long(st, a, b, scr).rows, st.rows.len() as int, m);
            self.lemma_second_turns(st, a, b, scr, (left - 1) as nat, x, z);
        }
    }

    proof fn lemma_first_turns(
        &self,
        st: St,
        a: u32,
        b: u32,
        scr: u32,
        left: nat,
        x: int,
        h: int,
        m: Machine,
    )
        requires
            self.long_slots(a, b, scr),
            st.next <= u32::MAX - 4,
            1 <= left <= 255,
            h >= 0,
            pending(long_product(scr), m, st.next, left as int, x, h),
            word(m, at(b, 2), 2) == h,
        ensures
            ({
                let z = settle(
                    self.mul_long(st, a, b, scr).rows,
                    st.rows.len() as int,
                    m,
                    left + 15,
                );
                z.flow is Gone && word(z, self.retval, 4) == x % limit(4)
            }),
        decreases left,
    {
        self.lemma_first_pass_on(st, a, b, scr, left as int, x, h, m);
        let z = exec(self.mul_long(st, a, b, scr).rows, st.rows.len() as int, m);
        if left > 1 {
            self.lemma_first_turns(st, a, b, scr, (left - 1) as nat, x, h, z);
        } else {
            self.lemma_second_turns(st, a, b, scr, 15, x, z);
        }
    }

    /// The four-byte multiplication routine leaves the product modulo its
    /// limit in the result bytes.
    pub proof fn law_mul_long_multiplies(&self, st: St, a: u32, b: u32, scr: u32, m: Machine)
        requires
            self.long_slots(a, b, scr),
            st.next <= u32::MAX - 4,
            st.w is None,
            m.flow is Next,
            m.core is Enhanced,
        ensures
            exists|y: Machine| #[trigger]
                runs_to(self.mul_long(st, a, b, scr).rows, st.rows.len() as int, m, y)
                    && y.flow is Gone && word(y, self.retval, 4) == (word(m, a, 4) * word(m, b, 4))
                    % limit(4),
    {
        let d = long_product(scr);
        let base = st.rows.len() as int;
        let rows = self.mul_long(st, a, b, scr).rows;
        assert(exec(st.rows, base, m) == m) by {
            broadcast use group_exec;

        }
        let x = word(m, a, 4) * word(m, b, 4);
        let low = word(m, b, 2);
        let h = word(m, at(b, 2), 2);
        self.lemma_long_wf(a, b, scr);
        self.lemma_long_start(st, a, b, scr, base, m);
        let s0 = self.long_start(st, a, b, scr).bump().bump();
        let y0 = exec(s0.rows, base, m);
        lemma_bits(low, 2);
        assert(pow2(16) == 65536) by {
            reveal_with_fuel(pow2, 17);
        }
        assert(word(m, b, 4) == low + pow2(16) * h);
        assert(0 + word(y0, d.t, 4) * (word(y0, d.bk, 2) + pow2(16) * h) == x);
        self.lemma_mul_turn(s0, st.next, st.bump().next, d, base, m);
        let y = exec(self.long_first(st, a, b, scr).rows, base, m);
        lemma_pending_turn(d, y0, y, st.next, 16, x, h);
        assert(word(y, at(b, 2), 2) == h) by {
            assert(d.outside(at(b, 2)) && d.outside(at(b, 3)));
        }
        self.lemma_after_first(st, a, b, scr, 16, x, h, base, m);
        let z = exec(rows, base, m);
        self.lemma_first_turns(st, a, b, scr, 15, x, h, z);
        let e = settle(rows, base, z, 30);
        assert(settle(rows, base, m, 31) == e);
        assert(runs_to(rows, base, m, e));
    }
}

} // verus!
