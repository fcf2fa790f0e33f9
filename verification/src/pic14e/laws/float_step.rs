//! One turn of each loop of the float quotient.
use vstd::prelude::*;
use crate::emit::{
    at, f_op, goto_tmp, label_at, label_tmp, lit, movlw, on_c, ram_bit, St,
};
use crate::line::{BitOp, LitOp, Op};
use crate::machine::{exec, group_exec, Flow, Machine};
use crate::meaning::{apart, flag, word};
use crate::pic14e::laws::float_chain::three;
use crate::pic14e::laws::float_div::quotient_slots;
use crate::pic14e::laws::float_int::{tmp, under_way};
use crate::pic14e::laws::multiply::lemma_count_down;
use crate::pic14e::laws::ready;
use crate::pic14e::Gen;

verus! {

/// Whether nothing outside the four bytes at `p` changed.
pub open spec fn kept4(b: Machine, a: Machine, p: u32) -> bool {
    forall|y: u32| y < p || y >= p + 4 ==> #[trigger] a.ram[y] == b.ram[y]
}

/// Four bytes are three and one.
pub(crate) proof fn lemma_four(m: Machine, p: u32)
    ensures
        word(m, p, 4) == three(m, p) + 0x100_0000 * m.ram[at(p, 3)],
        0 <= three(m, p) < 0x100_0000,
{
}

impl<'a> Gen<'a> {
    /// The carry rotated into the four bytes at `p` from below.
    pub open spec fn left4(&self, st: St, p: u32) -> St {
        self.left3(st, p).emit(f_op(Op::Rlf, at(p, 3)))
    }

    proof fn lemma_left4(&self, st: St, p: u32, base: int, m: Machine)
        requires
            ready(st, base, m),
            p <= 0x1_FFFF,
        ensures
            ({
                let b = exec(st.rows, base, m);
                let s = self.left4(st, p);
                let a = exec(s.rows, base, m);
                &&& ready(s, base, m)
                &&& a.core == b.core
                &&& word(a, p, 4) + 0x1_0000_0000 * flag(a.c) == 2 * word(b, p, 4) + flag(b.c)
                &&& kept4(b, a, p)
            }),
    {
        let b = exec(st.rows, base, m);
        let s1 = self.left3(st, p);
        self.lemma_left3(st, p, base, m);
        let c = exec(s1.rows, base, m);
        let s = self.left4(st, p);
        let a = exec(s.rows, base, m);
        let z = c.ram[at(p, 3)];
        assert(ready(s, base, m) && a.core == b.core && a.c == (z >= 128) && a.ram[at(p, 3)] + 256
            * flag(z >= 128) == 2 * z + flag(c.c) && (forall|y: u32|
            y != at(p, 3) ==> #[trigger] a.ram[y] == c.ram[y])) by {
            broadcast use group_exec;

        }
        lemma_four(a, p);
        lemma_four(b, p);
        assert(three(a, p) == three(c, p));
    }

    /// The three bytes at `den` taken from the four at `rem`.
    pub open spec fn fdiv_take(&self, st: St, rem: u32, den: u32) -> St {
        self.take3(st, den, rem).emit(movlw(0x00)).emit(on_c(BitOp::Btfss)).emit(
            lit(LitOp::Addlw, 0x01),
        ).emit(f_op(Op::Subwf, at(rem, 3)))
    }

    /// The three bytes at `den` added to the four at `rem`.
    pub open spec fn fdiv_give(&self, st: St, rem: u32, den: u32) -> St {
        self.add3(st, den, rem).emit(movlw(0x00)).emit(on_c(BitOp::Btfsc)).emit(
            lit(LitOp::Addlw, 0x01),
        ).emit(f_op(Op::Addwf, at(rem, 3)))
    }

    proof fn lemma_fdiv_take(&self, st: St, rem: u32, den: u32, base: int, m: Machine)
        requires
            ready(st, base, m),
            rem <= 0x1_FFFF,
            den <= 0x1_FFFF,
            apart(rem, 4, den, 3),
        ensures
            ({
                let b = exec(st.rows, base, m);
                let s = self.fdiv_take(st, rem, den);
                let a = exec(s.rows, base, m);
                &&& ready(s, base, m)
                &&& a.core == b.core
                &&& word(a, rem, 4) + 0x1_0000_0000 * (flag(a.c) - 1) == word(b, rem, 4) - three(b, den)
                &&& kept4(b, a, rem)
            }),
    {
        let b = exec(st.rows, base, m);
        let s1 = self.take3(st, den, rem);
        self.lemma_take3(st, den, rem, base, m);
        let c = exec(s1.rows, base, m);
        let s = self.fdiv_take(st, rem, den);
        let a = exec(s.rows, base, m);
        assert(ready(s, base, m) && a.core == b.core && a.ram[at(rem, 3)] + 256 * (flag(a.c) - 1)
            == c.ram[at(rem, 3)] + flag(c.c) - 1 && (forall|y: u32|
            y != at(rem, 3) ==> #[trigger] a.ram[y] == c.ram[y])) by {
            broadcast use group_exec;

        }
        lemma_four(a, rem);
        lemma_four(b, rem);
        assert(three(a, rem) == three(c, rem));
    }

    proof fn lemma_fdiv_give(&self, st: St, rem: u32, den: u32, base: int, m: Machine)
        requires
            ready(st, base, m),
            rem <= 0x1_FFFF,
            den <= 0x1_FFFF,
            apart(rem, 4, den, 3),
        ensures
            ({
                let b = exec(st.rows, base, m);
                let s = self.fdiv_give(st, rem, den);
                let a = exec(s.rows, base, m);
                &&& ready(s, base, m)
                &&& a.core == b.core
                &&& word(a, rem, 4) + 0x1_0000_0000 * flag(a.c) == word(b, rem, 4) + three(b, den)
                &&& kept4(b, a, rem)
            }),
    {
        let b = exec(st.rows, base, m);
        let s1 = self.add3(st, den, rem);
        self.lemma_add3(st, den, rem, base, m);
        let c = exec(s1.rows, base, m);
        let s = self.fdiv_give(st, rem, den);
        let a = exec(s.rows, base, m);
        assert(ready(s, base, m) && a.core == b.core && a.ram[at(rem, 3)] + 256 * flag(a.c) == c.ram[at(
            rem,
            3,
        )] + flag(c.c) && (forall|y: u32| y != at(rem, 3) ==> #[trigger] a.ram[y] == c.ram[y])) by {
            broadcast use group_exec;

        }
        lemma_four(a, rem);
        lemma_four(b, rem);
        assert(three(a, rem) == three(c, rem));
    }

    /// The quotient bit, or the way to the restoring rows.
    pub open spec fn fdiv_decide(&self, st: St, qbit: u32, l_restore: u32, l_next: u32) -> St {
        st.emit(on_c(BitOp::Btfss)).emit(goto_tmp(l_restore)).emit(
            ram_bit(BitOp::Bsf, qbit, 0),
        ).emit(goto_tmp(l_next)).emit(label_tmp(l_restore))
    }

    #[verifier::rlimit(50)]
    proof fn lemma_fdiv_decide(
        &self,
        st: St,
        qbit: u32,
        l: u32,
        i: u32,
        j: u32,
        base: int,
        m: Machine,
    )
        requires
            ready(st, base, m),
            l <= u32::MAX - 50,
            i <= 49 && j <= 49 && i != j,
            exec(st.rows, base, m).ram[qbit] % 2 == 0,
        ensures
            ({
                let b = exec(st.rows, base, m);
                let s = self.fdiv_decide(st, qbit, (l + i) as u32, (l + j) as u32);
                let a = exec(s.rows, base, m);
                &&& under_way(s, base, m)
                &&& a.core == b.core
                &&& if b.c {
                    a.flow == tmp(l, j) && a.ram == b.ram.insert(qbit, (b.ram[qbit] + 1) as u8)
                } else {
                    a.flow is Next && a.ram == b.ram
                }
            }),
    {
        let b = exec(st.rows, base, m);
        let s = self.fdiv_decide(st, qbit, (l + i) as u32, (l + j) as u32);
        let a = exec(s.rows, base, m);
        assert(base <= s.rows.len());
        if b.c {
            assert(a.core == b.core && a.flow == tmp(l, j) && a.ram == b.ram.insert(
                qbit,
                (b.ram[qbit] + 1) as u8,
            )) by {
                broadcast use group_exec;

            }
        } else {
            assert(a.core == b.core && a.flow is Next && a.ram == b.ram) by {
                broadcast use group_exec;

            }
        }
    }

    /// Rows that do not name the place looked for are passed over.
    proof fn lemma_fdiv_give_over(
        &self,
        st: St,
        rem: u32,
        den: u32,
        base: int,
        m: Machine,
    )
        requires
            under_way(st, base, m),
            exec(st.rows, base, m).flow is Seek,
        ensures
            under_way(self.fdiv_give(st, rem, den), base, m),
            exec(self.fdiv_give(st, rem, den).rows, base, m) == exec(st.rows, base, m),
    {
        broadcast use group_exec;

    }

    proof fn lemma_fdiv_take_over(
        &self,
        st: St,
        rem: u32,
        den: u32,
        base: int,
        m: Machine,
    )
        requires
            under_way(st, base, m),
            exec(st.rows, base, m).flow is Seek,
        ensures
            under_way(self.fdiv_take(st, rem, den), base, m),
            exec(self.fdiv_take(st, rem, den).rows, base, m) == exec(st.rows, base, m),
    {
        broadcast use group_exec;

    }

    /// One step of the division.
    proof fn lemma_fdiv_step(
        &self,
        st: St,
        rem: u32,
        den: u32,
        qbit: u32,
        l: u32,
        i: u32,
        j: u32,
        base: int,
        m: Machine,
    )
        requires
            ready(st, base, m),
            rem <= 0x1_FFFF,
            den <= 0x1_FFFF,
            apart(rem, 4, den, 3),
            apart(rem, 4, qbit, 1),
            l <= u32::MAX - 50,
            i <= 49 && j <= 49 && i != j,
            exec(st.rows, base, m).ram[qbit] % 2 == 0,
        ensures
            ({
                let b = exec(st.rows, base, m);
                let s = self.div_step(st, rem, den, qbit, (l + i) as u32, (l + j) as u32);
                let a = exec(s.rows, base, m);
                let (r, d) = (word(b, rem, 4), three(b, den));
                &&& ready(s, base, m)
                &&& a.core == b.core
                &&& word(a, rem, 4) == (if r >= d {
                    r - d
                } else {
                    r
                })
                &&& a.ram[qbit] == b.ram[qbit] + flag(r >= d)
                &&& forall|y: u32|
                    (y < rem || y >= rem + 4) && y != qbit ==> #[trigger] a.ram[y] == b.ram[y]
            }),
    {
        let b = exec(st.rows, base, m);
        let (r, d) = (word(b, rem, 4), three(b, den));
        let s1 = self.fdiv_take(st, rem, den);
        self.lemma_fdiv_take(st, rem, den, base, m);
        let c1 = exec(s1.rows, base, m);
        lemma_four(b, rem);
        lemma_four(c1, rem);
        assert(c1.c == (r >= d));
        assert(three(c1, den) == d);
        let s2 = self.fdiv_decide(s1, qbit, (l + i) as u32, (l + j) as u32);
        self.lemma_fdiv_decide(s1, qbit, l, i, j, base, m);
        let c2 = exec(s2.rows, base, m);
        let s3 = self.fdiv_give(s2, rem, den);
        let c3 = exec(s3.rows, base, m);
        if r >= d {
            self.lemma_fdiv_give_over(s2, rem, den, base, m);
            assert(word(c3, rem, 4) == word(c1, rem, 4));
        } else {
            assert(three(c2, den) == d);
            assert(word(c2, rem, 4) == word(c1, rem, 4));
            self.lemma_fdiv_give(s2, rem, den, base, m);
            lemma_four(c3, rem);
        }
        let s = self.div_step(st, rem, den, qbit, (l + i) as u32, (l + j) as u32);
        assert(s == s3.emit(label_tmp((l + j) as u32)));
        let a = exec(s.rows, base, m);
        assert(ready(s, base, m) && a.core == b.core && a.ram == c3.ram) by {
            broadcast use group_exec;

        }
        assert(word(a, rem, 4) == word(c3, rem, 4));
    }

    #[verifier::rlimit(50)]
    proof fn lemma_fdiv_step_over(
        &self,
        st: St,
        rem: u32,
        den: u32,
        qbit: u32,
        l: u32,
        i: u32,
        j: u32,
        base: int,
        m: Machine,
    )
        requires
            under_way(st, base, m),
            l <= u32::MAX - 50,
            i <= 49 && j <= 49,
            exec(st.rows, base, m).flow is Seek,
            exec(st.rows, base, m).flow != tmp(l, i),
            exec(st.rows, base, m).flow != tmp(l, j),
        ensures
            ({
                let s = self.div_step(st, rem, den, qbit, (l + i) as u32, (l + j) as u32);
                under_way(s, base, m) && exec(s.rows, base, m) == exec(st.rows, base, m)
            }),
    {
        let b = exec(st.rows, base, m);
        let s1 = self.fdiv_take(st, rem, den);
        self.lemma_fdiv_take_over(st, rem, den, base, m);
        let s2 = self.fdiv_decide(s1, qbit, (l + i) as u32, (l + j) as u32);
        assert(base <= s2.rows.len() && exec(s2.rows, base, m) == b) by {
            broadcast use group_exec;

        }
        let s3 = self.fdiv_give(s2, rem, den);
        self.lemma_fdiv_give_over(s2, rem, den, base, m);
        let s = self.div_step(st, rem, den, qbit, (l + i) as u32, (l + j) as u32);
        assert(s == s3.emit(label_tmp((l + j) as u32)));
        assert(base <= s.rows.len() && exec(s.rows, base, m) == b) by {
            broadcast use group_exec;

        }
    }

    /// The next bit of the dividend shifted into the remainder.
    pub open spec fn fdiv_shift_first(&self, st: St, pa: u32, scr: u32, l: u32) -> St {
        self.left4(
            self.left3(st.emit(label_tmp(label_at(l, 3))).emit(on_c(BitOp::Bcf)), pa),
            at(scr, 3),
        )
    }

    proof fn lemma_fdiv_shift_first(
        &self,
        st: St,
        pa: u32,
        pb: u32,
        scr: u32,
        l: u32,
        base: int,
        m: Machine,
    )
        requires
            under_way(st, base, m),
            exec(st.rows, base, m).flow is Next || exec(st.rows, base, m).flow == tmp(l, 3),
            quotient_slots(pa, pb, scr, self.retval),
            l <= u32::MAX - 50,
            word(exec(st.rows, base, m), at(scr, 3), 4) < 0x4000_0000,
        ensures
            ({
                let b = exec(st.rows, base, m);
                let s = self.fdiv_shift_first(st, pa, scr, l);
                let a = exec(s.rows, base, m);
                let v = three(b, pa);
                let bit = flag(v >= 0x80_0000);
                &&& ready(s, base, m)
                &&& three(a, pa) == 2 * v - 0x100_0000 * bit
                &&& a.ram[pa] % 2 == 0
                &&& word(a, at(scr, 3), 4) == 2 * word(b, at(scr, 3), 4) + bit
                &&& forall|y: u32|
                    (y < pa || y >= pa + 4) && (y < scr + 3 || y >= scr + 7) ==> #[trigger] a.ram[y]
                        == b.ram[y]
            }),
    {
        let b = exec(st.rows, base, m);
        let rem = at(scr, 3);
        let s1 = st.emit(label_tmp(label_at(l, 3))).emit(on_c(BitOp::Bcf));
        let c1 = exec(s1.rows, base, m);
        assert(ready(s1, base, m) && c1.core == b.core && c1.ram == b.ram && !c1.c) by {
            broadcast use group_exec;

        }
        let s2 = self.left3(s1, pa);
        self.lemma_left3(s1, pa, base, m);
        let c2 = exec(s2.rows, base, m);
        let s3 = self.left4(s2, rem);
        self.lemma_left4(s2, rem, base, m);
        let c3 = exec(s3.rows, base, m);
        let v = three(b, pa);
        assert(three(c1, pa) == v);
        assert(word(c2, rem, 4) == word(b, rem, 4));
        lemma_four(b, pa);
        lemma_four(c2, pa);
        lemma_four(c3, rem);
        assert(c2.c == (v >= 0x80_0000));
        assert(three(c3, pa) == three(c2, pa));
    }

    /// One turn of the loop for the integer part.
    pub open spec fn fdiv_turn_first(&self, st: St, pa: u32, scr: u32, l: u32) -> St {
        self.div_step(
            self.fdiv_shift_first(st, pa, scr, l),
            at(scr, 3),
            at(scr, 7),
            pa,
            label_at(l, 4),
            label_at(l, 5),
        ).emit(f_op(Op::Decfsz, at(scr, 10))).emit(goto_tmp(label_at(l, 3)))
    }

    pub(crate) proof fn lemma_fdiv_turn_first(
        &self,
        st: St,
        pa: u32,
        pb: u32,
        scr: u32,
        l: u32,
        base: int,
        m: Machine,
    )
        requires
            under_way(st, base, m),
            exec(st.rows, base, m).flow is Next || exec(st.rows, base, m).flow == tmp(l, 3),
            quotient_slots(pa, pb, scr, self.retval),
            l <= u32::MAX - 50,
            word(exec(st.rows, base, m), at(scr, 3), 4) < 0x4000_0000,
            exec(st.rows, base, m).ram[at(scr, 10)] > 0,
        ensures
            ({
                let b = exec(st.rows, base, m);
                let s = self.fdiv_turn_first(st, pa, scr, l);
                let a = exec(s.rows, base, m);
                let v = three(b, pa);
                let bit = flag(v >= 0x80_0000);
                let r = 2 * word(b, at(scr, 3), 4) + bit;
                let d = three(b, at(scr, 7));
                &&& under_way(s, base, m)
                &&& s.next == st.next
                &&& a.flow == (if b.ram[at(scr, 10)] == 1 {
                    Flow::Next
                } else {
                    tmp(l, 3)
                })
                &&& a.ram[at(scr, 10)] == b.ram[at(scr, 10)] - 1
                &&& three(a, pa) == 2 * v - 0x100_0000 * bit + flag(r >= d)
                &&& word(a, at(scr, 3), 4) == (if r >= d {
                    r - d
                } else {
                    r
                })
                &&& three(a, at(scr, 7)) == d
                &&& a.ram[scr] == b.ram[scr] && a.ram[at(scr, 1)] == b.ram[at(scr, 1)] && a.ram[at(
                    scr,
                    2,
                )] == b.ram[at(scr, 2)]
            }),
    {
        let b = exec(st.rows, base, m);
        let rem = at(scr, 3);
        let den = at(scr, 7);
        let s3 = self.fdiv_shift_first(st, pa, scr, l);
        self.lemma_fdiv_shift_first(st, pa, pb, scr, l, base, m);
        let c3 = exec(s3.rows, base, m);
        assert(three(c3, den) == three(b, den));
        let s4 = self.div_step(s3, rem, den, pa, label_at(l, 4), label_at(l, 5));
        self.lemma_fdiv_step(s3, rem, den, pa, l, 4, 5, base, m);
        let c4 = exec(s4.rows, base, m);
        lemma_count_down(s4, at(scr, 10), label_at(l, 3), base, m);
        let a = exec(self.fdiv_turn_first(st, pa, scr, l).rows, base, m);
        assert(c4.ram[at(scr, 10)] == b.ram[at(scr, 10)]);
        assert(three(a, pa) == three(c3, pa) + flag(word(c3, rem, 4) >= three(c3, den)));
        assert(word(a, rem, 4) == word(c4, rem, 4));
    }

    #[verifier::rlimit(50)]
    pub(crate) proof fn lemma_fdiv_turn_first_over(
        &self,
        st: St,
        pa: u32,
        scr: u32,
        l: u32,
        base: int,
        m: Machine,
    )
        requires
            under_way(st, base, m),
            l <= u32::MAX - 50,
            ({
                let f = exec(st.rows, base, m).flow;
                f == tmp(l, 8) || f == tmp(l, 11) || f == tmp(l, 17) || f == tmp(l, 19)
            }),
        ensures
            ({
                let s = self.fdiv_turn_first(st, pa, scr, l);
                &&& under_way(s, base, m)
                &&& s.next == st.next
                &&& exec(s.rows, base, m) == exec(st.rows, base, m)
            }),
    {
        let b = exec(st.rows, base, m);
        let s3 = self.fdiv_shift_first(st, pa, scr, l);
        assert(base <= s3.rows.len() && exec(s3.rows, base, m) == b) by {
            broadcast use group_exec;

        }
        let s4 = self.div_step(s3, at(scr, 3), at(scr, 7), pa, label_at(l, 4), label_at(l, 5));
        self.lemma_fdiv_step_over(s3, at(scr, 3), at(scr, 7), pa, l, 4, 5, base, m);
        let s = self.fdiv_turn_first(st, pa, scr, l);
        assert(base <= s.rows.len() && exec(s.rows, base, m) == b) by {
            broadcast use group_exec;

        }
    }

    /// The quotient and the remainder doubled.
    pub open spec fn fdiv_shift_second(&self, st: St, pa: u32, scr: u32, l: u32) -> St {
        self.left4(
            self.left4(st.emit(label_tmp(label_at(l, 8))).emit(on_c(BitOp::Bcf)), pa).emit(
                on_c(BitOp::Bcf),
            ),
            at(scr, 3),
        )
    }

    #[verifier::rlimit(50)]
    proof fn lemma_fdiv_shift_second(
        &self,
        st: St,
        pa: u32,
        pb: u32,
        scr: u32,
        l: u32,
        base: int,
        m: Machine,
    )
        requires
            under_way(st, base, m),
            exec(st.rows, base, m).flow is Next || exec(st.rows, base, m).flow == tmp(l, 8),
            quotient_slots(pa, pb, scr, self.retval),
            l <= u32::MAX - 50,
            word(exec(st.rows, base, m), at(scr, 3), 4) < 0x4000_0000,
            word(exec(st.rows, base, m), pa, 4) < 0x4000_0000,
        ensures
            ({
                let b = exec(st.rows, base, m);
                let s = self.fdiv_shift_second(st, pa, scr, l);
                let a = exec(s.rows, base, m);
                &&& ready(s, base, m)
                &&& a.core == b.core
                &&& word(a, pa, 4) == 2 * word(b, pa, 4)
                &&& a.ram[pa] % 2 == 0
                &&& word(a, at(scr, 3), 4) == 2 * word(b, at(scr, 3), 4)
                &&& forall|y: u32|
                    (y < pa || y >= pa + 4) && (y < scr + 3 || y >= scr + 7) ==> #[trigger] a.ram[y]
                        == b.ram[y]
            }),
    {
        let b = exec(st.rows, base, m);
        let rem = at(scr, 3);
        let s1 = st.emit(label_tmp(label_at(l, 8))).emit(on_c(BitOp::Bcf));
        let c1 = exec(s1.rows, base, m);
        assert(ready(s1, base, m) && c1.core == b.core && c1.ram == b.ram && !c1.c) by {
            broadcast use group_exec;

        }
        let s2 = self.left4(s1, pa);
        self.lemma_left4(s1, pa, base, m);
        let c2 = exec(s2.rows, base, m);
        let s3 = s2.emit(on_c(BitOp::Bcf));
        let c3 = exec(s3.rows, base, m);
        assert(ready(s3, base, m) && c3.core == b.core && c3.ram == c2.ram && !c3.c) by {
            broadcast use group_exec;

        }
        let s4 = self.left4(s3, rem);
        self.lemma_left4(s3, rem, base, m);
        let c4 = exec(s4.rows, base, m);
        assert(word(c3, rem, 4) == word(b, rem, 4));
        assert(word(c4, pa, 4) == word(c2, pa, 4));
        lemma_four(c4, pa);
        lemma_four(c4, rem);
    }

    /// One turn of the loop for the fraction.
    pub open spec fn fdiv_turn_second(&self, st: St, pa: u32, scr: u32, l: u32) -> St {
        self.div_step(
            self.fdiv_shift_second(st, pa, scr, l),
            at(scr, 3),
            at(scr, 7),
            pa,
            label_at(l, 9),
            label_at(l, 10),
        ).emit(f_op(Op::Decfsz, at(scr, 10))).emit(goto_tmp(label_at(l, 8)))
    }

    pub(crate) proof fn lemma_fdiv_turn_second(
        &self,
        st: St,
        pa: u32,
        pb: u32,
        scr: u32,
        l: u32,
        base: int,
        m: Machine,
    )
        requires
            under_way(st, base, m),
            exec(st.rows, base, m).flow is Next || exec(st.rows, base, m).flow == tmp(l, 8),
            quotient_slots(pa, pb, scr, self.retval),
            l <= u32::MAX - 50,
            word(exec(st.rows, base, m), at(scr, 3), 4) < 0x4000_0000,
            word(exec(st.rows, base, m), pa, 4) < 0x4000_0000,
            exec(st.rows, base, m).ram[at(scr, 10)] > 0,
        ensures
            ({
                let b = exec(st.rows, base, m);
                let s = self.fdiv_turn_second(st, pa, scr, l);
                let a = exec(s.rows, base, m);
                let r = 2 * word(b, at(scr, 3), 4);
                let d = three(b, at(scr, 7));
                &&& under_way(s, base, m)
                &&& s.next == st.next
                &&& a.flow == (if b.ram[at(scr, 10)] == 1 {
                    Flow::Next
                } else {
                    tmp(l, 8)
                })
                &&& a.ram[at(scr, 10)] == b.ram[at(scr, 10)] - 1
                &&& word(a, pa, 4) == 2 * word(b, pa, 4) + flag(r >= d)
                &&& word(a, at(scr, 3), 4) == (if r >= d {
                    r - d
                } else {
                    r
                })
                &&& three(a, at(scr, 7)) == d
                &&& a.ram[at(scr, 11)] == b.ram[at(scr, 11)]
                &&& a.ram[scr] == b.ram[scr] && a.ram[at(scr, 1)] == b.ram[at(scr, 1)] && a.ram[at(
                    scr,
                    2,
                )] == b.ram[at(scr, 2)]
            }),
    {
        let b = exec(st.rows, base, m);
        let rem = at(scr, 3);
        let den = at(scr, 7);
        let s4 = self.fdiv_shift_second(st, pa, scr, l);
        self.lemma_fdiv_shift_second(st, pa, pb, scr, l, base, m);
        let c4 = exec(s4.rows, base, m);
        assert(three(c4, den) == three(b, den));
        let s5 = self.div_step(s4, rem, den, pa, label_at(l, 9), label_at(l, 10));
        self.lemma_fdiv_step(s4, rem, den, pa, l, 9, 10, base, m);
        let c5 = exec(s5.rows, base, m);
        lemma_count_down(s5, at(scr, 10), label_at(l, 8), base, m);
        let a = exec(self.fdiv_turn_second(st, pa, scr, l).rows, base, m);
        assert(c5.ram[at(scr, 10)] == b.ram[at(scr, 10)]);
        assert(word(a, pa, 4) == word(c4, pa, 4) + flag(word(c4, rem, 4) >= three(c4, den))) by {
            lemma_four(a, pa);
            lemma_four(c4, pa);
        }
        assert(word(a, rem, 4) == word(c5, rem, 4));
    }

    #[verifier::rlimit(50)]
    pub(crate) proof fn lemma_fdiv_turn_second_over(
        &self,
        st: St,
        pa: u32,
        scr: u32,
        l: u32,
        base: int,
        m: Machine,
    )
        requires
            under_way(st, base, m),
            l <= u32::MAX - 50,
            ({
                let f = exec(st.rows, base, m).flow;
                f == tmp(l, 3) || f == tmp(l, 11) || f == tmp(l, 17) || f == tmp(l, 19)
            }),
        ensures
            ({
                let s = self.fdiv_turn_second(st, pa, scr, l);
                &&& under_way(s, base, m)
                &&& s.next == st.next
                &&& exec(s.rows, base, m) == exec(st.rows, base, m)
            }),
    {
        let b = exec(st.rows, base, m);
        let s3 = self.fdiv_shift_second(st, pa, scr, l);
        assert(base <= s3.rows.len() && exec(s3.rows, base, m) == b) by {
            broadcast use group_exec;

        }
        let s4 = self.div_step(s3, at(scr, 3), at(scr, 7), pa, label_at(l, 9), label_at(l, 10));
        self.lemma_fdiv_step_over(s3, at(scr, 3), at(scr, 7), pa, l, 9, 10, base, m);
        let s = self.fdiv_turn_second(st, pa, scr, l);
        assert(base <= s.rows.len() && exec(s.rows, base, m) == b) by {
            broadcast use group_exec;

        }
    }
}

} // verus!
