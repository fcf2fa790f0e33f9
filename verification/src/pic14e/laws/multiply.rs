//! The multiplication routines compute products.
use vstd::arithmetic::div_mod::{lemma_add_mod_noop, lemma_mod_twice, lemma_mul_mod_noop_left};
use vstd::prelude::*;
use crate::emit::{at, f_op, goto_tmp, label_tmp, on_c, ram_bit, St};
use crate::line::{BitOp, Op, Sym};
use crate::machine::{exec, group_exec, runs_to, settle, wrap, Flow, Machine};
use crate::meaning::{
    apart, kept, lemma_pow2_positive, lemma_residue, limit, passed_over, passes, pow2, seeking,
    word,
};
use crate::pic14e::laws::ready;
use crate::pic14e::routine::{bits_of, four_times, wide_of};
use crate::pic14e::Gen;

verus! {

/// Where a multiplication loop keeps its numbers: the multiplier of `nb`
/// bytes, the count of turns, the product and the multiplicand of `n` bytes.
pub ghost struct Product {
    pub bk: u32,
    pub nb: u8,
    pub cnt: u32,
    pub r: u32,
    pub t: u32,
    pub n: u8,
}

impl Product {
    /// Whether the numbers share no byte.
    pub open spec fn wf(self) -> bool {
        &&& self.nb == 1 || self.nb == 2
        &&& self.n == 2 || self.n == 4
        &&& self.bk <= 0x1_FFF0 && self.cnt <= 0x1_FFF0 && self.r <= 0x1_FFF0 && self.t <= 0x1_FFF0
        &&& apart(self.bk, self.nb as int, self.cnt, 1)
        &&& apart(self.bk, self.nb as int, self.r, self.n as int)
        &&& apart(self.bk, self.nb as int, self.t, self.n as int)
        &&& apart(self.cnt, 1, self.r, self.n as int)
        &&& apart(self.cnt, 1, self.t, self.n as int)
        &&& apart(self.r, self.n as int, self.t, self.n as int)
    }

    /// Whether a byte is outside all of them.
    pub open spec fn outside(self, x: u32) -> bool {
        &&& x < self.bk || x >= self.bk + self.nb
        &&& x != self.cnt
        &&& x < self.r || x >= self.r + self.n
        &&& x < self.t || x >= self.t + self.n
    }

    /// Whether one turn of the loop leads from `b` to `a`, as far as the
    /// numbers go.
    pub open spec fn turned(self, b: Machine, a: Machine) -> bool {
        &&& word(a, self.r, self.n) == (word(b, self.r, self.n) + (if b.ram[self.bk] % 2 == 1 {
            word(b, self.t, self.n)
        } else {
            0
        })) % limit(self.n)
        &&& word(a, self.t, self.n) == (2 * word(b, self.t, self.n)) % limit(self.n)
        &&& word(a, self.bk, self.nb) == word(b, self.bk, self.nb) / 2
        &&& a.ram[self.cnt] == wrap(b.ram[self.cnt] - 1)
        &&& self.alike(b, a)
    }

    /// Whether nothing else changed.
    pub open spec fn alike(self, b: Machine, a: Machine) -> bool {
        &&& a.core == b.core
        &&& a.fsr0 == b.fsr0
        &&& a.pclath == b.pclath
        &&& a.links == b.links
        &&& forall|x: u32| self.outside(x) ==> #[trigger] a.ram[x] == b.ram[x]
    }
}

pub(crate) proof fn lemma_count_down(st: St, cnt: u32, again: u32, base: int, m: Machine)
    requires
        ready(st, base, m),
    ensures
        ({
            let s = st.emit(f_op(Op::Decfsz, cnt)).emit(goto_tmp(again));
            let b = exec(st.rows, base, m);
            let a = exec(s.rows, base, m);
            a == (Machine {
                ram: b.ram.insert(cnt, wrap(b.ram[cnt] - 1)),
                flow: if b.ram[cnt] == 1 {
                    Flow::Next
                } else {
                    Flow::Seek(Sym::Tmp(again))
                },
                cycles: a.cycles,
                ..b
            })
        }),
{
    broadcast use group_exec;

}

/// One turn keeps product plus multiplicand times multiplier, modulo `l`.
proof fn lemma_turn_keeps(r: int, t: int, b: int, l: int)
    requires
        l > 0,
        b >= 0,
    ensures
        ((r + (if b % 2 == 1 {
            t
        } else {
            0
        })) % l + ((2 * t) % l) * (b / 2)) % l == (r + t * b) % l,
{
    let s = if b % 2 == 1 {
        t
    } else {
        0
    };
    let h = b / 2;
    lemma_mul_mod_noop_left(2 * t, h, l);
    lemma_add_mod_noop((r + s) % l, ((2 * t) % l) * h, l);
    lemma_mod_twice(r + s, l);
    lemma_add_mod_noop(r + s, (2 * t) * h, l);
    assert(r + s + (2 * t) * h == r + t * b) by (nonlinear_arith)
        requires
            b == 2 * h + b % 2,
            s == (if b % 2 == 1 {
                t
            } else {
                0
            }),
            b % 2 == 0 || b % 2 == 1,
    ;
}

/// Whether a multiplication loop that jumped back has `left` turns to go,
/// and `h` is the multiplier above the one it works on: the product will be
/// `x` modulo the limit.
pub open spec fn pending(d: Product, m: Machine, again: u32, left: int, x: int, h: int) -> bool {
    &&& m.core is Enhanced
    &&& m.flow == Flow::Seek(Sym::Tmp(again))
    &&& m.ram[d.cnt] == left
    &&& word(m, d.bk, d.nb) < pow2(left)
    &&& (word(m, d.r, d.n) + word(m, d.t, d.n) * (word(m, d.bk, d.nb) + pow2(left) * h)) % limit(
        d.n,
    ) == x % limit(d.n)
}

/// One turn brings a loop one turn closer to its end.
pub(crate) proof fn lemma_pending_turn(
    d: Product,
    b: Machine,
    a: Machine,
    again: u32,
    left: int,
    x: int,
    h: int,
)
    requires
        d.wf(),
        pending(d, Machine { flow: Flow::Seek(Sym::Tmp(again)), ..b }, again, left, x, h),
        1 <= left <= 255,
        h >= 0,
        d.turned(b, a),
    ensures
        a.ram[d.cnt] == left - 1,
        word(a, d.bk, d.nb) < pow2(left - 1),
        (word(a, d.r, d.n) + word(a, d.t, d.n) * (word(a, d.bk, d.nb) + pow2(left - 1) * h)) % limit(
            d.n,
        ) == x % limit(d.n),
        left == 1 ==> (word(a, d.r, d.n) + word(a, d.t, d.n) * h) % limit(d.n) == x % limit(d.n),
{
    let k = word(b, d.bk, d.nb);
    let p = pow2(left - 1);
    let whole = k + pow2(left) * h;
    assert(pow2(left) == 2 * p);
    assert(pow2(left) * h == 2 * (p * h)) by (nonlinear_arith)
        requires
            pow2(left) == 2 * p,
    ;
    lemma_pow2_positive(left - 1);
    assert(p * h >= 0) by (nonlinear_arith)
        requires
            p > 0,
            h >= 0,
    ;
    assert(whole % 2 == k % 2 && whole / 2 == k / 2 + p * h);
    lemma_turn_keeps(word(b, d.r, d.n), word(b, d.t, d.n), whole, limit(d.n));
    assert(b.ram[d.bk] % 2 == k % 2);
    if left == 1 {
        assert(word(a, d.bk, d.nb) == 0);
        assert(p == 1);
        assert(p * h == h) by (nonlinear_arith)
            requires
                p == 1,
        ;
    }
}

impl<'a> Gen<'a> {
    /// The multiplicand added to the product, if the low bit of the
    /// multiplier is set.
    proof fn lemma_mul_add(
        &self,
        st: St,
        again: u32,
        skip: u32,
        d: Product,
        base: int,
        m: Machine,
    )
        requires
            d.wf(),
            again != skip,
            0 <= base <= st.rows.len(),
            exec(st.rows, base, m).core is Enhanced,
            exec(st.rows, base, m).flow == Flow::Next || exec(st.rows, base, m).flow == Flow::Seek(
                Sym::Tmp(again),
            ),
        ensures
            ({
                let s = self.mul_add(st, again, skip, d.bk, d.r, d.t, d.n);
                let b = exec(st.rows, base, m);
                let a = exec(s.rows, base, m);
                ready(s, base, m) && passes(b, a) && !a.c && kept(
                    b,
                    a,
                    d.r,
                    d.n as int,
                ) && word(a, d.r, d.n) == (word(b, d.r, d.n) + (if b.ram[d.bk] % 2 == 1 {
                    word(b, d.t, d.n)
                } else {
                    0
                })) % limit(d.n)
            }),
    {
        let b = exec(st.rows, base, m);
        let s0 = st.emit(label_tmp(again));
        assert(exec(s0.rows, base, m) == (Machine { flow: Flow::Next, ..b })) by {
            broadcast use group_exec;

        }
        let set = b.ram[d.bk] % 2 == 1;
        let s1 = s0.emit(ram_bit(BitOp::Btfss, d.bk, 0)).emit(goto_tmp(skip));
        let m1 = exec(s1.rows, base, m);
        assert(m1 == (Machine {
            flow: if set {
                Flow::Next
            } else {
                Flow::Seek(Sym::Tmp(skip))
            },
            cycles: m1.cycles,
            ..b
        })) by {
            broadcast use group_exec;

        }
        let s2 = self.add_bytes(s1, d.t, d.r, d.n);
        if set {
            self.lemma_add_bytes(s1, d.t, d.r, d.n, base, m);
        } else {
            self.lemma_add_over(s1, d.t, d.r, d.n, base, m);
        }
        let m2 = exec(s2.rows, base, m);
        let s3 = s2.emit(label_tmp(skip)).emit(on_c(BitOp::Bcf));
        let m3 = exec(s3.rows, base, m);
        assert(m3 == (Machine { flow: Flow::Next, c: false, cycles: m3.cycles, ..m2 })) by {
            broadcast use group_exec;

        }
    }

    /// The multiplicand doubled, the multiplier halved.
    proof fn lemma_mul_shift(&self, st: St, d: Product, base: int, m: Machine)
        requires
            d.wf(),
            ready(st, base, m),
            !exec(st.rows, base, m).c,
        ensures
            ({
                let s = self.mul_shift(st, d.bk, d.nb, d.t, d.n);
                let b = exec(st.rows, base, m);
                let a = exec(s.rows, base, m);
                ready(s, base, m) && passes(b, a) && word(a, d.t, d.n) == (2 * word(b, d.t, d.n))
                    % limit(d.n) && word(a, d.bk, d.nb) == word(b, d.bk, d.nb) / 2 && (forall|
                    x: u32,
                |
                    (x < d.bk || x >= d.bk + d.nb) && (x < d.t || x >= d.t + d.n)
                        ==> #[trigger] a.ram[x] == b.ram[x])
            }),
    {
        let b = exec(st.rows, base, m);
        let s4 = self.rotate_up(st, d.t, d.n, 0);
        self.lemma_rotate_up(st, d.t, d.n, base, m);
        let m4 = exec(s4.rows, base, m);
        lemma_residue(word(m4, d.t, d.n), 2 * word(b, d.t, d.n), d.n);
        let s5 = s4.emit(on_c(BitOp::Bcf));
        let m5 = exec(s5.rows, base, m);
        assert(m5 == (Machine { c: false, cycles: m5.cycles, ..m4 })) by {
            broadcast use group_exec;

        }
        self.lemma_rotate_down(s5, d.bk, d.nb, base, m);
        let a = exec(self.mul_shift(st, d.bk, d.nb, d.t, d.n).rows, base, m);
        assert(word(m5, d.bk, d.nb) == word(b, d.bk, d.nb));
        assert(word(a, d.bk, d.nb) == word(b, d.bk, d.nb) / 2);
        assert(word(a, d.t, d.n) == word(m5, d.t, d.n));
        assert forall|x: u32|
            (x < d.bk || x >= d.bk + d.nb) && (x < d.t || x >= d.t
                + d.n) implies #[trigger] a.ram[x] == b.ram[x] by {
            assert(m4.ram[x] == b.ram[x]);
        }
    }

    /// One turn of a multiplication loop.
    pub(crate) proof fn lemma_mul_turn(
        &self,
        st: St,
        again: u32,
        skip: u32,
        d: Product,
        base: int,
        m: Machine,
    )
        requires
            d.wf(),
            again != skip,
            0 <= base <= st.rows.len(),
            exec(st.rows, base, m).core is Enhanced,
            exec(st.rows, base, m).flow == Flow::Next || exec(st.rows, base, m).flow == Flow::Seek(
                Sym::Tmp(again),
            ),
        ensures
            ({
                let s = self.mul_loop(st, again, skip, d.bk, d.nb, d.cnt, d.r, d.t, d.n);
                let b = exec(st.rows, base, m);
                let a = exec(s.rows, base, m);
                base <= s.rows.len() && d.turned(b, a) && a.flow == (if b.ram[d.cnt] == 1 {
                    Flow::Next
                } else {
                    Flow::Seek(Sym::Tmp(again))
                })
            }),
    {
        let b = exec(st.rows, base, m);
        let s1 = self.mul_add(st, again, skip, d.bk, d.r, d.t, d.n);
        self.lemma_mul_add(st, again, skip, d, base, m);
        let m1 = exec(s1.rows, base, m);
        assert(word(m1, d.t, d.n) == word(b, d.t, d.n));
        assert(word(m1, d.bk, d.nb) == word(b, d.bk, d.nb));
        let s2 = self.mul_shift(s1, d.bk, d.nb, d.t, d.n);
        self.lemma_mul_shift(s1, d, base, m);
        let m2 = exec(s2.rows, base, m);
        assert(word(m2, d.r, d.n) == word(m1, d.r, d.n));
        lemma_count_down(s2, d.cnt, again, base, m);
        let a = exec(
            self.mul_loop(st, again, skip, d.bk, d.nb, d.cnt, d.r, d.t, d.n).rows,
            base,
            m,
        );
        assert(word(a, d.t, d.n) == word(m2, d.t, d.n));
        assert(word(a, d.r, d.n) == word(m2, d.r, d.n));
        assert(word(a, d.bk, d.nb) == word(m2, d.bk, d.nb));
        assert(m2.ram[d.cnt] == b.ram[d.cnt]);
        assert forall|x: u32| d.outside(x) implies #[trigger] a.ram[x] == b.ram[x] by {
            assert(m2.ram[x] == m1.ram[x]);
        }
    }

    /// What a multiplication of one or two bytes does before its loop.
    pub open spec fn mul_start(&self, st: St, n: u8, a: u32, b: u32, scr: u32) -> St {
        let r = at(at(scr, n), 1);
        let st = self.clear_from(st.bump().bump(), r, four_times(n), 0);
        let st = self.copy_bytes(st, a, at(at(r, n), n), n, 0);
        let st = self.copy_bytes(st, b, scr, n, 0);
        self.set_count(st, at(scr, n), bits_of(n))
    }

    /// Where that multiplication keeps its numbers.
    pub open spec fn product_at(n: u8, scr: u32) -> Product {
        let r = at(at(scr, n), 1);
        Product { bk: scr, nb: n, cnt: at(scr, n), r, t: at(at(r, n), n), n: wide_of(n) }
    }

    /// Whether the slots of a multiplication of `n` bytes share no byte.
    pub open spec fn mul_slots(&self, n: u8, a: u32, b: u32, scr: u32) -> bool {
        &&& a <= 0xFFFF && b <= 0xFFFF && scr <= 0xFFFF && self.retval <= 0xFFFF
        &&& apart(a, n as int, scr, 5 * n + 1)
        &&& apart(b, n as int, scr, 5 * n + 1)
        &&& apart(self.retval, 4, scr, 5 * n + 1)
    }

    proof fn lemma_mul_start(
        &self,
        st: St,
        n: u8,
        a: u32,
        b: u32,
        scr: u32,
        base: int,
        m: Machine,
    )
        requires
            n == 1 || n == 2,
            self.mul_slots(n, a, b, scr),
            ready(st, base, m),
        ensures
            ({
                let d = Self::product_at(n, scr);
                let s = self.mul_start(st, n, a, b, scr);
                let x = exec(st.rows, base, m);
                let y = exec(s.rows, base, m);
                ready(s, base, m) && y.ram[d.cnt] == bits_of(n) && word(y, d.r, d.n) == 0 && word(
                    y,
                    d.t,
                    d.n,
                ) == word(x, a, n) && word(y, d.bk, d.nb) == word(x, b, n) && d.alike(x, y)
            }),
    {
        let d = Self::product_at(n, scr);
        let x = exec(st.rows, base, m);
        let s0 = st.bump().bump();
        let s1 = self.clear_from(s0, d.r, four_times(n), 0);
        self.lemma_clear_from(s0, d.r, four_times(n), 0, base, m);
        let m1 = exec(s1.rows, base, m);
        assert(m1.ram[at(d.r, 0)] == 0 && m1.ram[at(d.r, 1)] == 0 && m1.ram[at(d.r, 2)] == 0
            && m1.ram[at(d.r, 3)] == 0);
        if n == 2 {
            assert(m1.ram[at(d.r, 4)] == 0 && m1.ram[at(d.r, 5)] == 0 && m1.ram[at(d.r, 6)] == 0
                && m1.ram[at(d.r, 7)] == 0);
        }
        let s2 = self.copy_bytes(s1, a, d.t, n, 0);
        self.lemma_copied(s1, a, d.t, n, base, m);
        let m2 = exec(s2.rows, base, m);
        assert(word(m2, d.t, d.n) == word(x, a, n));
        let s3 = self.copy_bytes(s2, b, scr, n, 0);
        self.lemma_copied(s2, b, scr, n, base, m);
        let m3 = exec(s3.rows, base, m);
        assert(word(m2, b, n) == word(x, b, n));
        self.lemma_set_count(s3, d.cnt, bits_of(n), base, m);
        let y = exec(self.mul_start(st, n, a, b, scr).rows, base, m);
        assert(word(y, d.t, d.n) == word(m2, d.t, d.n));
        assert(word(y, d.bk, d.nb) == word(m3, d.bk, d.nb));
        assert(word(y, d.r, d.n) == 0);
        assert forall|z: u32| d.outside(z) implies #[trigger] y.ram[z] == x.ram[z] by {
            assert(m1.ram[z] == x.ram[z]);
            assert(m2.ram[z] == m1.ram[z]);
        }
    }

    /// A jump back passes over what comes before the loop.
    proof fn lemma_mul_start_over(
        &self,
        st: St,
        n: u8,
        a: u32,
        b: u32,
        scr: u32,
        base: int,
        m: Machine,
    )
        requires
            seeking(st, base, m),
        ensures
            passed_over(st, self.mul_start(st, n, a, b, scr), base, m),
    {
        let r = at(at(scr, n), 1);
        let s0 = st.bump().bump();
        self.lemma_clear_over(s0, r, four_times(n), 0, base, m);
        let s1 = self.clear_from(s0, r, four_times(n), 0);
        self.lemma_copy_over(s1, a, at(at(r, n), n), n, 0, base, m);
        let s2 = self.copy_bytes(s1, a, at(at(r, n), n), n, 0);
        self.lemma_copy_over(s2, b, scr, n, 0, base, m);
        let s3 = self.copy_bytes(s2, b, scr, n, 0);
        self.lemma_count_over(s3, at(scr, n), bits_of(n), base, m);
    }

    proof fn lemma_product_wf(&self, n: u8, a: u32, b: u32, scr: u32)
        requires
            n == 1 || n == 2,
            self.mul_slots(n, a, b, scr),
        ensures
            Self::product_at(n, scr).wf(),
            Self::product_at(n, scr).r <= 0x1_FFFF,
            apart(Self::product_at(n, scr).r, 2, self.retval, 2),
    {
    }

    /// The end of the routine, once the loop is done.
    proof fn lemma_mul_end(&self, s: St, r: u32, n: u8, x: int, base: int, m: Machine)
        requires
            n == 2 || n == 4,
            ready(s, base, m),
            r <= 0x1_FFFF,
            self.retval <= 0xFFFF,
            apart(r, 2, self.retval, 2),
            word(exec(s.rows, base, m), r, n) == x % limit(n),
        ensures
            ({
                let y = exec(self.give_back(s, r, 2).rows, base, m);
                y.flow is Gone && word(y, self.retval, 2) == x % limit(2)
            }),
    {
        self.lemma_give_back(s, r, 2, base, m);
        let y = exec(s.rows, base, m);
        assert(word(y, r, 2) == word(y, r, n) % limit(2));
        lemma_mod_mod(x, n);
    }

    /// One pass over the routine, once the loop jumped back.
    proof fn lemma_mul_pass(
        &self,
        st: St,
        n: u8,
        a: u32,
        b: u32,
        scr: u32,
        m: Machine,
        left: nat,
        x: int,
    )
        requires
            n == 1 || n == 2,
            self.mul_slots(n, a, b, scr),
            st.next < u32::MAX,
            1 <= left <= 255,
            pending(Self::product_at(n, scr), m, st.next, left as int, x, 0),
        ensures
            ({
                let y = exec(self.mul_short(st, n, a, b, scr).rows, st.rows.len() as int, m);
                if left == 1 {
                    y.flow is Gone && word(y, self.retval, 2) == x % limit(2)
                } else {
                    pending(Self::product_at(n, scr), y, st.next, left - 1, x, 0)
                }
            }),
    {
        let d = Self::product_at(n, scr);
        let base = st.rows.len() as int;
        assert(exec(st.rows, base, m) == m) by {
            broadcast use group_exec;

        }
        self.lemma_product_wf(n, a, b, scr);
        let s1 = self.mul_start(st, n, a, b, scr);
        self.lemma_mul_start_over(st, n, a, b, scr, base, m);
        let s2 = self.mul_loop(s1, st.next, st.bump().next, d.bk, d.nb, d.cnt, d.r, d.t, d.n);
        self.lemma_mul_turn(s1, st.next, st.bump().next, d, base, m);
        let y = exec(s2.rows, base, m);
        lemma_pending_turn(d, m, y, st.next, left as int, x, 0);
        assert(word(y, d.t, d.n) * 0 == 0);
        assert(self.mul_short(st, n, a, b, scr) == self.give_back(s2, d.r, 2));
        if left == 1 {
            self.lemma_mul_end(s2, d.r, d.n, x, base, m);
        } else {
            self.lemma_give_back_over(s2, d.r, 2, base, m);
        }
    }

    /// The turns that are left.
    proof fn lemma_mul_turns(
        &self,
        st: St,
        n: u8,
        a: u32,
        b: u32,
        scr: u32,
        m: Machine,
        left: nat,
        x: int,
    )
        requires
            n == 1 || n == 2,
            self.mul_slots(n, a, b, scr),
            st.next < u32::MAX,
            1 <= left <= 255,
            pending(Self::product_at(n, scr), m, st.next, left as int, x, 0),
        ensures
            ({
                let y = settle(
                    self.mul_short(st, n, a, b, scr).rows,
                    st.rows.len() as int,
                    m,
                    left,
                );
                y.flow is Gone && word(y, self.retval, 2) == x % limit(2)
            }),
        decreases left,
    {
        self.lemma_mul_pass(st, n, a, b, scr, m, left, x);
        let rows = self.mul_short(st, n, a, b, scr).rows;
        let y = exec(rows, st.rows.len() as int, m);
        if left > 1 {
            self.lemma_mul_turns(st, n, a, b, scr, y, (left - 1) as nat, x);
        }
    }

    /// The first pass over the routine.
    proof fn lemma_mul_first_pass(
        &self,
        st: St,
        n: u8,
        a: u32,
        b: u32,
        scr: u32,
        m: Machine,
    )
        requires
            n == 1 || n == 2,
            self.mul_slots(n, a, b, scr),
            st.next < u32::MAX,
            st.w is None,
            m.flow is Next,
            m.core is Enhanced,
        ensures
            pending(
                Self::product_at(n, scr),
                exec(self.mul_short(st, n, a, b, scr).rows, st.rows.len() as int, m),
                st.next,
                bits_of(n) - 1,
                word(m, a, n) * word(m, b, n),
                0,
            ),
    {
        let d = Self::product_at(n, scr);
        let base = st.rows.len() as int;
        assert(exec(st.rows, base, m) == m) by {
            broadcast use group_exec;

        }
        let x = word(m, a, n) * word(m, b, n);
        let bits = bits_of(n);
        self.lemma_product_wf(n, a, b, scr);
        let s1 = self.mul_start(st, n, a, b, scr);
        self.lemma_mul_start(st, n, a, b, scr, base, m);
        let y1 = exec(s1.rows, base, m);
        let s2 = self.mul_loop(s1, st.next, st.bump().next, d.bk, d.nb, d.cnt, d.r, d.t, d.n);
        self.lemma_mul_turn(s1, st.next, st.bump().next, d, base, m);
        let y2 = exec(s2.rows, base, m);
        lemma_bits(word(m, b, n), n);
        assert(pow2(bits as int) * 0 == 0);
        assert(0 + word(y1, d.t, d.n) * (word(y1, d.bk, d.nb) + 0) == x);
        lemma_pending_turn(d, y1, y2, st.next, bits as int, x, 0);
        assert(self.mul_short(st, n, a, b, scr) == self.give_back(s2, d.r, 2));
        self.lemma_give_back_over(s2, d.r, 2, base, m);
    }

    /// The multiplication routine for one or two bytes leaves the product
    /// in the result bytes: all of it for two bytes of operands, its low two
    /// bytes for four.
    pub proof fn law_mul_short_multiplies(
        &self,
        st: St,
        n: u8,
        a: u32,
        b: u32,
        scr: u32,
        m: Machine,
    )
        requires
            n == 1 || n == 2,
            self.mul_slots(n, a, b, scr),
            st.next < u32::MAX,
            st.w is None,
            m.flow is Next,
            m.core is Enhanced,
        ensures
            exists|y: Machine| #[trigger]
                runs_to(self.mul_short(st, n, a, b, scr).rows, st.rows.len() as int, m, y)
                    && y.flow is Gone && word(y, self.retval, 2) == (word(m, a, n) * word(m, b, n))
                    % limit(2),
    {
        let base = st.rows.len() as int;
        let rows = self.mul_short(st, n, a, b, scr).rows;
        let x = word(m, a, n) * word(m, b, n);
        let left = (bits_of(n) - 1) as nat;
        self.lemma_mul_first_pass(st, n, a, b, scr, m);
        let y1 = exec(rows, base, m);
        self.lemma_mul_turns(st, n, a, b, scr, y1, left, x);
        let y = settle(rows, base, y1, left);
        assert(settle(rows, base, m, left + 1) == y);
        assert(runs_to(rows, base, m, y));
    }
}

/// A number modulo a limit, modulo two bytes.
proof fn lemma_mod_mod(x: int, n: u8)
    requires
        n == 2 || n == 4,
    ensures
        (x % limit(n)) % limit(2) == x % limit(2),
{
    let q = x / 0x1_0000_0000;
    let u = x / 0x1_0000;
    assert(x % 0x1_0000_0000 == 0x1_0000 * (u - 0x1_0000 * q) + x % 0x1_0000);
}

pub(crate) proof fn lemma_bits(x: int, n: u8)
    requires
        n == 1 || n == 2,
        0 <= x < limit(n),
    ensures
        x < pow2(bits_of(n) as int),
{
    reveal_with_fuel(pow2, 17);
}

} // verus!
