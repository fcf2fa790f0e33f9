//! The pieces of the runtime routines: sums and differences in place, copies
//! and negations, and how a jump passes over them.
use vstd::prelude::*;
use crate::emit::{at, clrf, f_op, movf, movwf, on_c, w_op, St};
use crate::line::{BitOp, Line, Op};
use crate::machine::{exec, group_exec, Flow, Machine};
use crate::meaning::{apart, carried, flag, kept, passed_over, passes, seeking, word};
use crate::pic14e::laws::ready;
use crate::pic14e::Gen;

verus! {

/// One byte of a sum in place.
proof fn lemma_add_link(st: St, t: u32, r: u32, base: int, m: Machine)
    requires
        ready(st, base, m),
        t != r,
    ensures
        ({
            let s = st.emit(movf(t)).emit(on_c(BitOp::Btfsc)).emit(w_op(Op::Incfsz, t)).emit(
                f_op(Op::Addwf, r),
            );
            let b = exec(st.rows, base, m);
            let a = exec(s.rows, base, m);
            ready(s, base, m) && passes(b, a) && kept(b, a, r, 1) && a.ram[r] + 256 * flag(a.c)
                == b.ram[r] + b.ram[t] + flag(b.c)
        }),
{
    broadcast use group_exec;

}

/// One byte of a difference in place.
proof fn lemma_sub_link(st: St, t: u32, r: u32, base: int, m: Machine)
    requires
        ready(st, base, m),
        t != r,
    ensures
        ({
            let s = st.emit(movf(t)).emit(on_c(BitOp::Btfss)).emit(w_op(Op::Incfsz, t)).emit(
                f_op(Op::Subwf, r),
            );
            let b = exec(st.rows, base, m);
            let a = exec(s.rows, base, m);
            ready(s, base, m) && passes(b, a) && kept(b, a, r, 1) && a.ram[r] - 256 * flag(!a.c)
                == b.ram[r] - b.ram[t] - flag(!b.c)
        }),
{
    broadcast use group_exec;

}

/// The first byte of a sum in place.
proof fn lemma_add_first(st: St, t: u32, r: u32, base: int, m: Machine)
    requires
        ready(st, base, m),
    ensures
        ({
            let s = st.emit(movf(t)).emit(f_op(Op::Addwf, r));
            let b = exec(st.rows, base, m);
            let a = exec(s.rows, base, m);
            ready(s, base, m) && passes(b, a) && kept(b, a, r, 1) && a.ram[r] + 256 * flag(a.c)
                == b.ram[r] + b.ram[t]
        }),
{
    broadcast use group_exec;

}

/// The first byte of a difference in place.
proof fn lemma_sub_first(st: St, t: u32, r: u32, base: int, m: Machine)
    requires
        ready(st, base, m),
    ensures
        ({
            let s = st.emit(movf(t)).emit(f_op(Op::Subwf, r));
            let b = exec(st.rows, base, m);
            let a = exec(s.rows, base, m);
            ready(s, base, m) && passes(b, a) && kept(b, a, r, 1) && a.ram[r] - 256 * flag(!a.c)
                == b.ram[r] - b.ram[t]
        }),
{
    broadcast use group_exec;

}

impl<'a> Gen<'a> {
    /// A sum in place, with its carry.
    pub(crate) proof fn lemma_add_bytes(
        &self,
        st: St,
        t: u32,
        r: u32,
        n: u8,
        base: int,
        m: Machine,
    )
        requires
            ready(st, base, m),
            n == 1 || n == 2 || n == 4,
            t <= 0x1_FFFF,
            r <= 0x1_FFFF,
            apart(t, n as int, r, n as int),
        ensures
            ready(self.add_bytes(st, t, r, n), base, m),
            ({
                let b = exec(st.rows, base, m);
                let a = exec(self.add_bytes(st, t, r, n).rows, base, m);
                passes(b, a) && kept(b, a, r, n as int) && word(a, r, n) + carried(n, a.c)
                    == word(b, r, n) + word(b, t, n)
            }),
    {
        reveal_with_fuel(Gen::add_chain, 4);
        let s0 = st.emit(movf(t)).emit(f_op(Op::Addwf, r));
        lemma_add_first(st, t, r, base, m);
        if n > 1 {
            let s1 = s0.emit(movf(at(t, 1))).emit(on_c(BitOp::Btfsc)).emit(
                w_op(Op::Incfsz, at(t, 1)),
            ).emit(f_op(Op::Addwf, at(r, 1)));
            lemma_add_link(s0, at(t, 1), at(r, 1), base, m);
            if n > 2 {
                let s2 = s1.emit(movf(at(t, 2))).emit(on_c(BitOp::Btfsc)).emit(
                    w_op(Op::Incfsz, at(t, 2)),
                ).emit(f_op(Op::Addwf, at(r, 2)));
                lemma_add_link(s1, at(t, 2), at(r, 2), base, m);
                let s3 = s2.emit(movf(at(t, 3))).emit(on_c(BitOp::Btfsc)).emit(
                    w_op(Op::Incfsz, at(t, 3)),
                ).emit(f_op(Op::Addwf, at(r, 3)));
                lemma_add_link(s2, at(t, 3), at(r, 3), base, m);
                assert(self.add_bytes(st, t, r, n) == s3);
            } else {
                assert(self.add_bytes(st, t, r, n) == s1);
            }
        } else {
            assert(self.add_bytes(st, t, r, n) == s0);
        }
    }

    /// A difference in place, with its borrow.
    pub(crate) proof fn lemma_sub_bytes(
        &self,
        st: St,
        t: u32,
        r: u32,
        n: u8,
        base: int,
        m: Machine,
    )
        requires
            ready(st, base, m),
            n == 1 || n == 2 || n == 4,
            t <= 0x1_FFFF,
            r <= 0x1_FFFF,
            apart(t, n as int, r, n as int),
        ensures
            ready(self.sub_bytes(st, t, r, n), base, m),
            ({
                let b = exec(st.rows, base, m);
                let a = exec(self.sub_bytes(st, t, r, n).rows, base, m);
                passes(b, a) && kept(b, a, r, n as int) && word(a, r, n) - carried(n, !a.c)
                    == word(b, r, n) - word(b, t, n)
            }),
    {
        reveal_with_fuel(Gen::sub_chain, 4);
        let s0 = st.emit(movf(t)).emit(f_op(Op::Subwf, r));
        lemma_sub_first(st, t, r, base, m);
        if n > 1 {
            let s1 = s0.emit(movf(at(t, 1))).emit(on_c(BitOp::Btfss)).emit(
                w_op(Op::Incfsz, at(t, 1)),
            ).emit(f_op(Op::Subwf, at(r, 1)));
            lemma_sub_link(s0, at(t, 1), at(r, 1), base, m);
            if n > 2 {
                let s2 = s1.emit(movf(at(t, 2))).emit(on_c(BitOp::Btfss)).emit(
                    w_op(Op::Incfsz, at(t, 2)),
                ).emit(f_op(Op::Subwf, at(r, 2)));
                lemma_sub_link(s1, at(t, 2), at(r, 2), base, m);
                let s3 = s2.emit(movf(at(t, 3))).emit(on_c(BitOp::Btfss)).emit(
                    w_op(Op::Incfsz, at(t, 3)),
                ).emit(f_op(Op::Subwf, at(r, 3)));
                lemma_sub_link(s2, at(t, 3), at(r, 3), base, m);
                assert(self.sub_bytes(st, t, r, n) == s3);
            } else {
                assert(self.sub_bytes(st, t, r, n) == s1);
            }
        } else {
            assert(self.sub_bytes(st, t, r, n) == s0);
        }
    }

    pub(crate) proof fn lemma_add_over(
        &self,
        st: St,
        t: u32,
        r: u32,
        n: u8,
        base: int,
        m: Machine,
    )
        requires
            seeking(st, base, m),
        ensures
            passed_over(st, self.add_bytes(st, t, r, n), base, m),
    {
        broadcast use group_exec;

        self.lemma_add_chain_over(st.emit(movf(t)).emit(f_op(Op::Addwf, r)), t, r, n, 1, base, m);
    }

    proof fn lemma_add_chain_over(
        &self,
        st: St,
        t: u32,
        r: u32,
        n: u8,
        i: u8,
        base: int,
        m: Machine,
    )
        requires
            seeking(st, base, m),
        ensures
            passed_over(st, self.add_chain(st, t, r, n, i), base, m),
        decreases n - i,
    {
        broadcast use group_exec;

        if i < n {
            let s1 = st.emit(movf(at(t, i))).emit(on_c(BitOp::Btfsc)).emit(
                w_op(Op::Incfsz, at(t, i)),
            ).emit(f_op(Op::Addwf, at(r, i)));
            self.lemma_add_chain_over(s1, t, r, n, (i + 1) as u8, base, m);
        }
    }

    /// Bytes copied one by one.
    pub(crate) proof fn lemma_copy_bytes(
        &self,
        st: St,
        src: u32,
        dst: u32,
        n: u8,
        i: u8,
        base: int,
        m: Machine,
    )
        requires
            ready(st, base, m),
            src <= 0x1_FFFF,
            dst <= 0x1_FFFF,
            apart(src, n as int, dst, n as int),
        ensures
            ready(self.copy_bytes(st, src, dst, n, i), base, m),
            ({
                let b = exec(st.rows, base, m);
                let a = exec(self.copy_bytes(st, src, dst, n, i).rows, base, m);
                passes(b, a) && kept(b, a, dst, n as int) && (forall|j: u8|
                    i <= j < n ==> #[trigger] a.ram[at(dst, j)] == b.ram[at(src, j)]) && (forall|
                    j: u8,
                | j < i ==> #[trigger] a.ram[at(dst, j)] == b.ram[at(dst, j)])
            }),
        decreases n - i,
    {
        if i < n {
            let b = exec(st.rows, base, m);
            let s1 = st.emit(movf(at(src, i))).emit(movwf(at(dst, i)));
            assert({
                let c = exec(s1.rows, base, m);
                ready(s1, base, m) && passes(b, c) && c.ram == b.ram.insert(
                    at(dst, i),
                    b.ram[at(src, i)],
                )
            }) by {
                broadcast use group_exec;

            }
            let c = exec(s1.rows, base, m);
            self.lemma_copy_bytes(s1, src, dst, n, (i + 1) as u8, base, m);
            let a = exec(self.copy_bytes(st, src, dst, n, i).rows, base, m);
            assert forall|j: u8| i <= j < n implies #[trigger] a.ram[at(dst, j)] == b.ram[at(
                src,
                j,
            )] by {
                if j > i {
                    assert(c.ram[at(src, j)] == b.ram[at(src, j)]);
                }
            }
        }
    }

    /// The copied number.
    pub(crate) proof fn lemma_copied(
        &self,
        st: St,
        src: u32,
        dst: u32,
        n: u8,
        base: int,
        m: Machine,
    )
        requires
            ready(st, base, m),
            src <= 0x1_FFFF,
            dst <= 0x1_FFFF,
            n == 1 || n == 2 || n == 4,
            apart(src, n as int, dst, n as int),
        ensures
            ready(self.copy_bytes(st, src, dst, n, 0), base, m),
            ({
                let b = exec(st.rows, base, m);
                let a = exec(self.copy_bytes(st, src, dst, n, 0).rows, base, m);
                passes(b, a) && kept(b, a, dst, n as int) && word(a, dst, n) == word(b, src, n)
            }),
    {
        self.lemma_copy_bytes(st, src, dst, n, 0, base, m);
        let b = exec(st.rows, base, m);
        let a = exec(self.copy_bytes(st, src, dst, n, 0).rows, base, m);
        assert(a.ram[at(dst, 0)] == b.ram[at(src, 0)]);
        if n > 1 {
            assert(a.ram[at(dst, 1)] == b.ram[at(src, 1)]);
        }
        if n > 2 {
            assert(a.ram[at(dst, 2)] == b.ram[at(src, 2)]);
            assert(a.ram[at(dst, 3)] == b.ram[at(src, 3)]);
        }
    }

    pub(crate) proof fn lemma_copy_over(
        &self,
        st: St,
        src: u32,
        dst: u32,
        n: u8,
        i: u8,
        base: int,
        m: Machine,
    )
        requires
            seeking(st, base, m),
        ensures
            passed_over(st, self.copy_bytes(st, src, dst, n, i), base, m),
        decreases n - i,
    {
        broadcast use group_exec;

        if i < n {
            let s1 = st.emit(movf(at(src, i))).emit(movwf(at(dst, i)));
            self.lemma_copy_over(s1, src, dst, n, (i + 1) as u8, base, m);
        }
    }

    pub(crate) proof fn lemma_clear_over(
        &self,
        st: St,
        da: u32,
        n: u8,
        i: u8,
        base: int,
        m: Machine,
    )
        requires
            seeking(st, base, m),
        ensures
            passed_over(st, self.clear_from(st, da, n, i), base, m),
        decreases n - i,
    {
        broadcast use group_exec;

        if i < n {
            self.lemma_clear_over(st.emit(clrf(at(da, i))), da, n, (i + 1) as u8, base, m);
        }
    }

    pub(crate) proof fn lemma_count_over(&self, st: St, cnt: u32, k: u8, base: int, m: Machine)
        requires
            seeking(st, base, m),
        ensures
            passed_over(st, self.set_count(st, cnt, k), base, m),
    {
        broadcast use group_exec;

    }

    pub(crate) proof fn lemma_set_count(&self, st: St, cnt: u32, k: u8, base: int, m: Machine)
        requires
            ready(st, base, m),
        ensures
            ready(self.set_count(st, cnt, k), base, m),
            ({
                let b = exec(st.rows, base, m);
                let a = exec(self.set_count(st, cnt, k).rows, base, m);
                passes(b, a) && a.ram == b.ram.insert(cnt, k)
            }),
    {
        broadcast use group_exec;

    }

    /// The result bytes hold the number, and the routine is left.
    pub(crate) proof fn lemma_give_back(
        &self,
        st: St,
        src: u32,
        n: u8,
        base: int,
        m: Machine,
    )
        requires
            ready(st, base, m),
            n == 1 || n == 2 || n == 4,
            src <= 0x1_FFFF,
            self.retval <= 0x1_FFFF,
            apart(src, n as int, self.retval, n as int),
        ensures
            ({
                let b = exec(st.rows, base, m);
                let a = exec(self.give_back(st, src, n).rows, base, m);
                a.flow is Gone && kept(b, a, self.retval, n as int) && word(a, self.retval, n)
                    == word(b, src, n)
            }),
    {
        self.lemma_copied(st, src, self.retval, n, base, m);
        let s1 = self.copy_bytes(st, src, self.retval, n, 0);
        assert(exec(s1.emit(Line::Return).rows, base, m) == (Machine {
            flow: Flow::Gone,
            cycles: exec(s1.rows, base, m).cycles + 2,
            ..exec(s1.rows, base, m)
        })) by {
            broadcast use group_exec;

            reveal(crate::machine::step);
        }
    }

    pub(crate) proof fn lemma_give_back_over(
        &self,
        st: St,
        src: u32,
        n: u8,
        base: int,
        m: Machine,
    )
        requires
            seeking(st, base, m),
        ensures
            passed_over(st, self.give_back(st, src, n), base, m),
    {
        broadcast use group_exec;

        self.lemma_copy_over(st, src, self.retval, n, 0, base, m);
    }
}

} // verus!
