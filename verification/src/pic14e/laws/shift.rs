//! The shift routines shift by the count, modulo the width.
use vstd::prelude::*;
use crate::emit::{at, clrf, f_op, goto_tmp, label_tmp, lit, movf, movwf, on_c, on_z, St};
use crate::ir::BinOp;
use crate::line::{BitOp, LitOp, Op, Sym};
use crate::machine::{exec, group_exec, runs_to, settle, Flow, Machine};
use crate::meaning::{
    apart, bin_value, lemma_shift_more, lemma_shift_none, lemma_word_kept, passed_over, seeking,
    word,
};
use crate::pic14e::laws::multiply::lemma_count_down;
use crate::pic14e::laws::ready;
use crate::pic14e::routine::{bits_of, count_mask};
use crate::pic14e::Gen;

verus! {

pub open spec fn is_shift(op: BinOp) -> bool {
    op == BinOp::Shl || op == BinOp::LShr || op == BinOp::AShr
}

/// The mask of a count is the count modulo the width.
proof fn lemma_count(x: u8, n: u8)
    requires
        n == 1 || n == 2 || n == 4,
    ensures
        x & count_mask(n) == x % bits_of(n),
{
    assert(x & 0x07u8 == x % 8u8 && x & 0x0Fu8 == x % 16u8 && x & 0x1Fu8 == x % 32u8)
        by (bit_vector);
}

impl<'a> Gen<'a> {
    proof fn lemma_up_over(&self, st: St, da: u32, n: u8, i: u8, base: int, m: Machine)
        requires
            seeking(st, base, m),
        ensures
            passed_over(st, self.rotate_up(st, da, n, i), base, m),
        decreases n - i,
    {
        broadcast use group_exec;

        if i < n {
            self.lemma_up_over(st.emit(f_op(Op::Rlf, at(da, i))), da, n, (i + 1) as u8, base, m);
        }
    }

    proof fn lemma_down_over(&self, st: St, da: u32, n: u8, base: int, m: Machine)
        requires
            seeking(st, base, m),
        ensures
            passed_over(st, self.rotate_down(st, da, n), base, m),
        decreases n,
    {
        broadcast use group_exec;

        if n > 0 {
            let i = (n - 1) as u8;
            self.lemma_down_over(st.emit(f_op(Op::Rrf, at(da, i))), da, i, base, m);
        }
    }

    proof fn lemma_shift_over(&self, st: St, op: BinOp, da: u32, n: u8, base: int, m: Machine)
        requires
            seeking(st, base, m),
        ensures
            passed_over(st, self.shift_once(st, op, da, n), base, m),
    {
        let s1 = st.emit(on_c(BitOp::Bcf));
        let s2 = self.sign_to_c(st, at(da, (n - 1) as u8));
        assert(passed_over(st, s1, base, m) && passed_over(st, s2, base, m)) by {
            broadcast use group_exec;

        }
        match op {
            BinOp::Shl => self.lemma_up_over(s1, da, n, 0, base, m),
            BinOp::LShr => self.lemma_down_over(s1, da, n, base, m),
            _ => self.lemma_down_over(s2, da, n, base, m),
        }
    }

    /// Whether the slots of a shift of `n` bytes share no byte.
    pub open spec fn shift_slots(&self, n: u8, val: u32, scr: u32) -> bool {
        &&& n == 1 || n == 2 || n == 4
        &&& val <= 0xFFFF && scr <= 0xFFFF && self.retval <= 0xFFFF
        &&& apart(val, n as int, scr, 2)
        &&& apart(val, n as int, self.retval, n as int)
    }

    /// What a shift does before its loop.
    pub open spec fn shift_start(&self, st: St, n: u8, cnt: u32, scr: u32) -> St {
        let st = st.emit(movf(cnt)).emit(lit(LitOp::Andlw, count_mask(n))).emit(movwf(scr));
        let st = if n == 2 {
            st.emit(clrf(at(scr, 1)))
        } else {
            st
        };
        let done = st.bump().next;
        st.bump().bump().emit(f_op(Op::Movf, scr)).emit(on_z(BitOp::Btfsc)).emit(goto_tmp(done))
    }

    /// One turn of its loop.
    pub open spec fn shift_turn(&self, st: St, n: u8, op: BinOp, val: u32, scr: u32, l: u32) -> St {
        self.shift_once(st.emit(label_tmp(l)), op, val, n).emit(f_op(Op::Decfsz, scr)).emit(
            goto_tmp(l),
        )
    }

    proof fn lemma_shift_start(
        &self,
        st: St,
        n: u8,
        val: u32,
        cnt: u32,
        scr: u32,
        base: int,
        m: Machine,
    )
        requires
            self.shift_slots(n, val, scr),
            ready(st, base, m),
            st.next < u32::MAX - 1,
        ensures
            ({
                let s = self.shift_start(st, n, cnt, scr);
                let b = exec(st.rows, base, m);
                let a = exec(s.rows, base, m);
                base <= s.rows.len() && a.core == b.core && word(a, val, n) == word(b, val, n)
                    && a.ram[scr] == b.ram[cnt] % bits_of(n) && a.flow == (if a.ram[scr] == 0 {
                    Flow::Seek(Sym::Tmp((st.next + 1) as u32))
                } else {
                    Flow::Next
                })
            }),
    {
        let b = exec(st.rows, base, m);
        let s = self.shift_start(st, n, cnt, scr);
        let a = exec(s.rows, base, m);
        lemma_count(b.ram[cnt], n);
        let k = b.ram[cnt] & count_mask(n);
        assert(base <= s.rows.len() && a.core == b.core && a.ram[scr] == k && a.flow == (if k
            == 0 {
            Flow::Seek(Sym::Tmp((st.next + 1) as u32))
        } else {
            Flow::Next
        }) && (forall|x: u32| x < scr || x >= scr + 2 ==> #[trigger] a.ram[x] == b.ram[x])) by {
            broadcast use group_exec;

        }
        lemma_word_kept(b, a, val, n, scr, 2);
    }

    proof fn lemma_shift_turn(
        &self,
        st: St,
        n: u8,
        op: BinOp,
        val: u32,
        scr: u32,
        l: u32,
        base: int,
        m: Machine,
    )
        requires
            self.shift_slots(n, val, scr),
            is_shift(op),
            0 <= base <= st.rows.len(),
            exec(st.rows, base, m).core is Enhanced,
            exec(st.rows, base, m).flow is Next || exec(st.rows, base, m).flow == Flow::Seek(
                Sym::Tmp(l),
            ),
            exec(st.rows, base, m).ram[scr] > 0,
        ensures
            ({
                let s = self.shift_turn(st, n, op, val, scr, l);
                let b = exec(st.rows, base, m);
                let a = exec(s.rows, base, m);
                base <= s.rows.len() && a.core == b.core && a.ram[scr] == b.ram[scr] - 1
                    && bin_value(op, word(a, val, n), a.ram[scr] as int, n) == bin_value(
                    op,
                    word(b, val, n),
                    b.ram[scr] as int,
                    n,
                ) && a.flow == (if b.ram[scr] == 1 {
                    Flow::Next
                } else {
                    Flow::Seek(Sym::Tmp(l))
                })
            }),
    {
        let b = exec(st.rows, base, m);
        let s1 = st.emit(label_tmp(l));
        let m1 = exec(s1.rows, base, m);
        assert(m1 == (Machine { flow: Flow::Next, ..b })) by {
            broadcast use group_exec;

        }
        let s2 = self.shift_once(s1, op, val, n);
        self.lemma_shift_once(s1, op, val, n, base, m);
        let m2 = exec(s2.rows, base, m);
        lemma_count_down(s2, scr, l, base, m);
        let a = exec(self.shift_turn(st, n, op, val, scr, l).rows, base, m);
        assert(word(m1, val, n) == word(b, val, n));
        assert(m2.ram[scr] == b.ram[scr]);
        lemma_word_kept(m2, a, val, n, scr, 1);
        lemma_shift_more(op, word(b, val, n), word(a, val, n), b.ram[scr] as int, n);
    }

    proof fn lemma_shift_turn_over(
        &self,
        st: St,
        n: u8,
        op: BinOp,
        val: u32,
        scr: u32,
        l: u32,
        base: int,
        m: Machine,
    )
        requires
            seeking(st, base, m),
            exec(st.rows, base, m).flow != Flow::Seek(Sym::Tmp(l)),
        ensures
            passed_over(st, self.shift_turn(st, n, op, val, scr, l), base, m),
    {
        let s1 = st.emit(label_tmp(l));
        assert(passed_over(st, s1, base, m)) by {
            broadcast use group_exec;

        }
        self.lemma_shift_over(s1, op, val, n, base, m);
        let s2 = self.shift_once(s1, op, val, n);
        assert(passed_over(
            s2,
            s2.emit(f_op(Op::Decfsz, scr)).emit(goto_tmp(l)),
            base,
            m,
        )) by {
            broadcast use group_exec;

        }
    }

    /// Where a shift has got to: `r` is what comes out.
    pub open spec fn shifting(
        &self,
        st: St,
        n: u8,
        op: BinOp,
        val: u32,
        scr: u32,
        m: Machine,
        left: nat,
        r: int,
    ) -> bool {
        &&& m.core is Enhanced
        &&& m.flow == Flow::Seek(Sym::Tmp(st.next))
        &&& m.ram[scr] == left
        &&& bin_value(op, word(m, val, n), left as int, n) == r
    }

    /// From the end of a pass over the loop on.
    proof fn lemma_shift_end(
        &self,
        s: St,
        n: u8,
        op: BinOp,
        val: u32,
        done: u32,
        base: int,
        m: Machine,
    )
        requires
            n == 1 || n == 2 || n == 4,
            val <= 0xFFFF,
            self.retval <= 0xFFFF,
            apart(val, n as int, self.retval, n as int),
            is_shift(op),
            0 <= base <= s.rows.len(),
            s.w is None,
            exec(s.rows, base, m).core is Enhanced,
            exec(s.rows, base, m).flow is Next || exec(s.rows, base, m).flow is Seek,
        ensures
            ({
                let b = exec(s.rows, base, m);
                let a = exec(self.give_back(s.emit(label_tmp(done)), val, n).rows, base, m);
                if b.flow is Next || b.flow == Flow::Seek(Sym::Tmp(done)) {
                    a.flow is Gone && word(a, self.retval, n) == bin_value(
                        op,
                        word(b, val, n),
                        0,
                        n,
                    )
                } else {
                    a == b
                }
            }),
    {
        let b = exec(s.rows, base, m);
        let s1 = s.emit(label_tmp(done));
        let m1 = exec(s1.rows, base, m);
        if b.flow is Next || b.flow == Flow::Seek(Sym::Tmp(done)) {
            assert(m1 == (Machine { flow: Flow::Next, ..b })) by {
                broadcast use group_exec;

            }
            self.lemma_give_back(s1, val, n, base, m);
            lemma_shift_none(op, word(b, val, n), n);
        } else {
            assert(m1 == b) by {
                broadcast use group_exec;

            }
            self.lemma_give_back_over(s1, val, n, base, m);
        }
    }

    proof fn lemma_shift_pass(
        &self,
        st: St,
        n: u8,
        op: BinOp,
        val: u32,
        cnt: u32,
        scr: u32,
        m: Machine,
        first: bool,
        left: nat,
        r: int,
    )
        requires
            self.shift_slots(n, val, scr),
            is_shift(op),
            st.next < u32::MAX - 1,
            if first {
                &&& st.w is None
                &&& m.flow is Next
                &&& m.core is Enhanced
                &&& left == m.ram[cnt] % bits_of(n)
                &&& r == bin_value(op, word(m, val, n), left as int, n)
            } else {
                left > 0 && self.shifting(st, n, op, val, scr, m, left, r)
            },
        ensures
            ({
                let a = exec(
                    self.shift_body(st, n, op, val, cnt, scr).rows,
                    st.rows.len() as int,
                    m,
                );
                if left <= 1 {
                    a.flow is Gone && word(a, self.retval, n) == r
                } else {
                    self.shifting(st, n, op, val, scr, a, (left - 1) as nat, r)
                }
            }),
    {
        let base = st.rows.len() as int;
        assert(exec(st.rows, base, m) == m) by {
            broadcast use group_exec;

        }
        let again = st.next;
        let done = (st.next + 1) as u32;
        let s1 = self.shift_start(st, n, cnt, scr);
        let m1 = exec(s1.rows, base, m);
        if first {
            self.lemma_shift_start(st, n, val, cnt, scr, base, m);
        } else {
            assert(passed_over(st, s1, base, m)) by {
                broadcast use group_exec;

            }
        }
        let s2 = self.shift_turn(s1, n, op, val, scr, again);
        if first && left == 0 {
            self.lemma_shift_turn_over(s1, n, op, val, scr, again, base, m);
        } else {
            self.lemma_shift_turn(s1, n, op, val, scr, again, base, m);
        }
        self.lemma_shift_end(s2, n, op, val, done, base, m);
        assert(self.shift_body(st, n, op, val, cnt, scr) == self.give_back(
            s2.emit(label_tmp(done)),
            val,
            n,
        ));
    }

    proof fn lemma_shift_turns(
        &self,
        st: St,
        n: u8,
        op: BinOp,
        val: u32,
        cnt: u32,
        scr: u32,
        m: Machine,
        left: nat,
        r: int,
    )
        requires
            self.shift_slots(n, val, scr),
            is_shift(op),
            st.next < u32::MAX - 1,
            left > 0,
            self.shifting(st, n, op, val, scr, m, left, r),
        ensures
            ({
                let a = settle(
                    self.shift_body(st, n, op, val, cnt, scr).rows,
                    st.rows.len() as int,
                    m,
                    left,
                );
                a.flow is Gone && word(a, self.retval, n) == r
            }),
        decreases left,
    {
        self.lemma_shift_pass(st, n, op, val, cnt, scr, m, false, left, r);
        let a = exec(self.shift_body(st, n, op, val, cnt, scr).rows, st.rows.len() as int, m);
        if left > 1 {
            self.lemma_shift_turns(st, n, op, val, cnt, scr, a, (left - 1) as nat, r);
        }
    }

    /// The shift routine leaves the number, shifted by the count modulo its
    /// width, in the result bytes.
    pub proof fn law_shift_routine_shifts(
        &self,
        st: St,
        n: u8,
        op: BinOp,
        val: u32,
        cnt: u32,
        scr: u32,
        m: Machine,
    )
        requires
            self.shift_slots(n, val, scr),
            is_shift(op),
            st.next < u32::MAX - 1,
            st.w is None,
            m.flow is Next,
            m.core is Enhanced,
        ensures
            exists|a: Machine| #[trigger]
                runs_to(
                    self.shift_body(st, n, op, val, cnt, scr).rows,
                    st.rows.len() as int,
                    m,
                    a,
                ) && a.flow is Gone && word(a, self.retval, n) == bin_value(
                    op,
                    word(m, val, n),
                    m.ram[cnt] as int % bits_of(n) as int,
                    n,
                ),
    {
        let rows = self.shift_body(st, n, op, val, cnt, scr).rows;
        let base = st.rows.len() as int;
        let left = (m.ram[cnt] % bits_of(n)) as nat;
        let r = bin_value(op, word(m, val, n), left as int, n);
        self.lemma_shift_pass(st, n, op, val, cnt, scr, m, true, left, r);
        let y = exec(rows, base, m);
        if left <= 1 {
            assert(settle(rows, base, m, 1) == y);
            assert(runs_to(rows, base, m, y));
        } else {
            self.lemma_shift_turns(st, n, op, val, cnt, scr, y, (left - 1) as nat, r);
            let a = settle(rows, base, y, (left - 1) as nat);
            assert(settle(rows, base, m, left) == a);
            assert(runs_to(rows, base, m, a));
        }
    }
}

} // verus!
