//! The value of a folded pointer is the address it leads to.
use vstd::arithmetic::div_mod::{lemma_fundamental_div_mod_converse, lemma_mod_multiples_vanish};
use vstd::prelude::*;
use crate::emit::{at, clrf, f_op, hi8, lit, lo8, movf, movlw, movwf, on_c, w_op, St};
use crate::ir::{Base, Pointer, Val};
use crate::line::{BitOp, Line, LitOp, Op};
use crate::machine::{exec, group_exec, Machine};
use crate::meaning::{apart, flag, passes, word};
use crate::pic14e::laws::memory::lemma_halves;
use crate::pic14e::laws::ready;
use crate::pic14e::{Gen, HOLD};
use crate::shape::plain_terms;

verus! {

/// Whether nothing but the two bytes at `dst` and the parking byte changed.
pub open spec fn written_at(b: Machine, a: Machine, dst: u32) -> bool {
    forall|x: u32| x != HOLD && (x < dst || x >= dst + 2) ==> #[trigger] a.ram[x] == b.ram[x]
}

/// Whether two bytes can be read while the two at `dst` are written.
pub open spec fn readable(a: u32, dst: u32) -> bool {
    a <= 0xFFFF && apart(a, 2, dst, 2) && apart(a, 2, HOLD, 1)
}

/// Sums of bytes that wrap at every step wrap once.
proof fn lemma_sums(w: int, x: int, y: int, z: int, u: int, p: int, q: int, r: int)
    requires
        p == (w + x) % 256,
        q == (p + y) % 256,
        r == (q + z) % 256,
    ensures
        q == (w + x + y) % 256,
        r == (w + x + y + z) % 256,
        (r + u) % 256 == (w + x + y + z + u) % 256,
{
}

/// The two bytes of a sum: `start` and `top` with `low` and `high` added, the
/// carry `c` of the terms or the carry `d` of an offset brought up.
proof fn lemma_value(
    start: int,
    low: int,
    top: int,
    high: int,
    w0: int,
    w1: int,
    w2: int,
    w3: int,
    c: int,
    d: int,
)
    requires
        w0 == start % 256,
        w1 == (w0 + low) % 256,
        w2 == (top + d) % 256,
        w3 == (w2 + c + high) % 256,
        start / 256 == d,
        c == (w0 + low) / 256,
    ensures
        w1 + 256 * w3 == (start + 256 * top + low + 256 * high) % 0x1_0000,
{
    let (x, h) = (start + low, top + high);
    lemma_fundamental_div_mod_converse(x, 256, d + c, w1);
    let k = (top + d) / 256;
    assert(w2 + c + high == 256 * (-k) + (h + d + c));
    lemma_mod_multiples_vanish(-k, h + d + c, 256);
    lemma_carried(x, h, d + c, x + 256 * h);
}

/// A number from its low byte and what is carried into its high byte.
proof fn lemma_carried(low: int, high: int, carry: int, total: int)
    requires
        carry == low / 256,
        total == low + 256 * high,
    ensures
        low % 256 + 256 * ((high + carry) % 256) == total % 0x1_0000,
{
}

impl<'a> Gen<'a> {
    /// The slot of term `i` of a pointer.
    pub open spec fn index_slot(&self, p: Pointer, i: int) -> u32 {
        self.term_slot(p.terms@[i])->0
    }

    /// The sum of the terms of a pointer, as two-byte numbers.
    pub open spec fn index_sum(&self, m: Machine, p: Pointer) -> int {
        if p.terms@.len() == 0 {
            0
        } else if p.terms@.len() == 1 {
            word(m, self.index_slot(p, 0), 2)
        } else {
            word(m, self.index_slot(p, 0), 2) + word(m, self.index_slot(p, 1), 2)
        }
    }

    /// The sums of the low and of the high bytes of the terms.
    pub open spec fn index_bytes(&self, m: Machine, p: Pointer) -> (int, int) {
        let (a, b) = (self.index_slot(p, 0), self.index_slot(p, 1));
        if p.terms@.len() == 0 {
            (0, 0)
        } else if p.terms@.len() == 1 {
            (m.ram[a] as int, m.ram[at(a, 1)] as int)
        } else {
            (m.ram[a] + m.ram[b], m.ram[at(a, 1)] + m.ram[at(b, 1)])
        }
    }

    /// Whether the terms of a pointer are unscaled registers with slots that can
    /// be read while the two bytes at `dst` are written.
    pub open spec fn terms_stand(&self, p: Pointer, dst: u32) -> bool {
        &&& plain_terms(p.terms@)
        &&& forall|i: int|
            0 <= i < p.terms@.len() ==> (self.term_slot(#[trigger] p.terms@[i]) matches Some(a)
                && readable(a, dst))
    }

    /// Where a folded pointer starts: the address of its global, or the address
    /// held in its slot, and the offset.
    pub open spec fn value_start(&self, m: Machine, p: Pointer) -> int {
        match p.base {
            Base::Global(name) => self.value_step(St::start(0), name@, p.k).1 as int,
            Base::Slot(s, _) => word(m, self.cx.slot(self.cx.fname(), s@)->0, 2) + p.k,
        }
    }

    /// Whether that start is known: the global has an address, or the slot holds
    /// one and can be read while the two bytes at `dst` are written.
    pub open spec fn start_stands(&self, p: Pointer, dst: u32) -> bool {
        match p.base {
            Base::Global(name) => self.value_step(St::start(0), name@, p.k).0.err is None,
            Base::Slot(s, indirect) => (indirect || self.cx.holds_addr(s@)) && (self.cx.slot(
                self.cx.fname(),
                s@,
            ) matches Some(a) && readable(a, dst)),
        }
    }

    /// The terms added to the low byte in W: the carries are kept.
    proof fn lemma_terms_low(&self, st: St, n: nat, a: u32, b: u32, base: int, m: Machine)
        requires
            ready(st, base, m),
            st.w is None,
            1 <= n <= 2,
            a != HOLD,
            b != HOLD,
        ensures
            ({
                let o = exec(st.rows, base, m);
                let s = self.add_terms(st, n, a, b, 0);
                let e = exec(s.rows, base, m);
                let sum = o.w + o.ram[a] + (if n == 2 {
                    o.ram[b] as int
                } else {
                    0
                });
                &&& ready(s, base, m)
                &&& s.w is None
                &&& s.err == st.err
                &&& passes(o, e)
                &&& e.w == sum % 256
                &&& flag(e.c) + (if n == 2 {
                    e.ram[HOLD] as int
                } else {
                    0
                }) == sum / 256
                &&& forall|x: u32| x != HOLD ==> #[trigger] e.ram[x] == o.ram[x]
            }),
    {
        let o = exec(st.rows, base, m);
        let s1 = st.emit(w_op(Op::Addwf, a));
        let c1 = exec(s1.rows, base, m);
        assert(ready(s1, base, m) && passes(o, c1) && c1.ram == o.ram && c1.w == (o.w + o.ram[a]) % 256
            && c1.c == (o.w + o.ram[a] >= 256)) by {
            broadcast use group_exec;

        }
        if n == 2 {
            let s2 = s1.emit(clrf(HOLD)).emit(on_c(BitOp::Btfsc)).emit(f_op(Op::Incf, HOLD));
            let c2 = exec(s2.rows, base, m);
            assert(ready(s2, base, m) && passes(o, c2) && c2.w == c1.w && c2.ram[HOLD] == flag(c1.c)
                && (forall|x: u32| x != HOLD ==> #[trigger] c2.ram[x] == o.ram[x])) by {
                broadcast use group_exec;

            }
            let s3 = s2.emit(w_op(Op::Addwf, b));
            let c3 = exec(s3.rows, base, m);
            assert(ready(s3, base, m) && passes(o, c3) && c3.ram == c2.ram && c3.w == (c2.w + o.ram[b])
                % 256 && c3.c == (c2.w + o.ram[b] >= 256)) by {
                broadcast use group_exec;

            }
        }
    }

    proof fn lemma_addwf(&self, st: St, a: u32, base: int, m: Machine)
        requires
            ready(st, base, m),
            st.w is None,
        ensures
            ({
                let o = exec(st.rows, base, m);
                let s = st.emit(w_op(Op::Addwf, a));
                let e = exec(s.rows, base, m);
                &&& ready(s, base, m)
                &&& passes(o, e)
                &&& e.ram == o.ram
                &&& e.w == (o.w + o.ram[a]) % 256
            }),
    {
        broadcast use group_exec;

    }

    proof fn lemma_plus_carry(&self, st: St, base: int, m: Machine)
        requires
            ready(st, base, m),
            st.w is None,
        ensures
            ({
                let o = exec(st.rows, base, m);
                let s = self.add_carry(st);
                let e = exec(s.rows, base, m);
                &&& ready(s, base, m)
                &&& passes(o, e)
                &&& e.ram == o.ram
                &&& e.w == (o.w + flag(o.c)) % 256
            }),
    {
        broadcast use group_exec;

    }

    /// The terms and the carries added to the high byte in W.
    proof fn lemma_terms_high(&self, st: St, n: nat, a: u32, b: u32, base: int, m: Machine)
        requires
            ready(st, base, m),
            st.w is None,
            1 <= n <= 2,
        ensures
            ({
                let o = exec(st.rows, base, m);
                let s = self.add_terms(st, n, a, b, 1);
                let e = exec(s.rows, base, m);
                &&& ready(s, base, m)
                &&& s.w is None
                &&& s.err == st.err
                &&& passes(o, e)
                &&& e.ram == o.ram
                &&& e.w == (o.w + flag(o.c) + (if n == 2 {
                    o.ram[HOLD] as int
                } else {
                    0
                }) + o.ram[at(a, 1)] + (if n == 2 {
                    o.ram[at(b, 1)] as int
                } else {
                    0
                })) % 256
            }),
    {
        let o = exec(st.rows, base, m);
        let s1 = self.add_carry(st);
        self.lemma_plus_carry(st, base, m);
        let c1 = exec(s1.rows, base, m);
        if n == 2 {
            let s2 = s1.emit(w_op(Op::Addwf, HOLD));
            self.lemma_addwf(s1, HOLD, base, m);
            let s3 = s2.emit(w_op(Op::Addwf, at(a, 1)));
            self.lemma_addwf(s2, at(a, 1), base, m);
            self.lemma_addwf(s3, at(b, 1), base, m);
            lemma_sums(
                o.w as int,
                flag(o.c),
                o.ram[HOLD] as int,
                o.ram[at(a, 1)] as int,
                o.ram[at(b, 1)] as int,
                c1.w as int,
                exec(s2.rows, base, m).w as int,
                exec(s3.rows, base, m).w as int,
            );
        } else {
            self.lemma_addwf(s1, at(a, 1), base, m);
            lemma_sums(
                o.w as int,
                flag(o.c),
                o.ram[at(a, 1)] as int,
                0,
                0,
                c1.w as int,
                (c1.w + o.ram[at(a, 1)]) % 256,
                (c1.w + o.ram[at(a, 1)]) % 256,
            );
        }
    }

    /// The start of a pointer without terms, or before them, in W.
    #[verifier::rlimit(50)]
    proof fn lemma_start_byte(&self, st: St, p: Pointer, dst: u32, idx: u8, base: int, m: Machine)
        requires
            ready(st, base, m),
            st.err is None,
            self.terms_stand(p, dst),
            self.start_stands(p, dst),
            p.base is Slot ==> p.k == 0 || p.terms@.len() == 0,
            idx <= 1,
        ensures
            ({
                let o = exec(st.rows, base, m);
                let f = self.value_start(o, p);
                let s = self.start_byte(st, p, idx);
                let e = exec(s.rows, base, m);
                let n = p.terms@.len();
                let (a, b) = (
                    if n >= 1 {
                        self.index_slot(p, 0)
                    } else {
                        0
                    },
                    if n >= 2 {
                        self.index_slot(p, 1)
                    } else {
                        0
                    },
                );
                &&& self.pointer_byte(st, p, idx) == self.add_terms(s, n, a, b, idx)
                &&& ready(s, base, m)
                &&& s.w is None
                &&& s.err is None
                &&& passes(o, e)
                &&& e.ram == o.ram
                &&& idx == 0 ==> e.w == f % 256 && (n == 0 && p.base is Slot && p.k != 0 ==> flag(e.c)
                    == (o.ram[self.cx.slot(self.cx.fname(), p.base->Slot_0@)->0] + p.k) / 256)
                &&& idx == 1 && p.base is Global ==> e.w == f / 256 && e.c == o.c
                &&& idx == 1 && p.base is Slot ==> e.w == (o.ram[at(
                    self.cx.slot(self.cx.fname(), p.base->Slot_0@)->0,
                    1,
                )] + (if p.k != 0 {
                    flag(o.c)
                } else {
                    0
                })) % 256 && (p.k == 0 ==> e.c == o.c)
            }),
    {
        let o = exec(st.rows, base, m);
        match p.base {
            Base::Global(name) => {
                let v = self.value_step(St::start(0), name@, p.k).1;
                assert(self.value_step(st, name@, p.k) == (st, v));
                lemma_halves(v);
                assert({
                    let s = self.start_byte(st, p, idx);
                    let e = exec(s.rows, base, m);
                    ready(s, base, m) && passes(o, e) && e.ram == o.ram && e.c == o.c && e.w == (if idx
                        == 0 {
                        lo8(v)
                    } else {
                        hi8(v)
                    })
                }) by {
                    broadcast use group_exec;

                }
            },
            Base::Slot(sname, _) => {
                let sa = self.cx.slot(self.cx.fname(), sname@)->0;
                assert(self.cx.local_step(st, sname@) == (st, sa));
                assert({
                    let s = self.start_byte(st, p, idx);
                    let e = exec(s.rows, base, m);
                    &&& ready(s, base, m) && passes(o, e) && e.ram == o.ram
                    &&& idx == 0 ==> e.w == (o.ram[sa] + p.k) % 256 && (if p.k != 0 {
                        flag(e.c) == (o.ram[sa] + p.k) / 256
                    } else {
                        e.c == o.c
                    })
                    &&& idx == 1 ==> e.w == (o.ram[at(sa, 1)] + (if p.k != 0 {
                        flag(o.c)
                    } else {
                        0
                    })) % 256 && (p.k == 0 ==> e.c == o.c)
                }) by {
                    broadcast use group_exec;

                }
            },
        }
    }

    /// W becomes byte `idx` of where a pointer starts.
    pub open spec fn start_byte(&self, st: St, p: Pointer, idx: u8) -> St {
        match p.base {
            Base::Global(name) => {
                let v = self.value_step(st, name@, p.k).1;
                st.emit(
                    movlw(
                        if idx == 0 {
                            lo8(v)
                        } else {
                            hi8(v)
                        },
                    ),
                )
            },
            Base::Slot(s, _) => self.held_byte(
                st,
                self.cx.slot(self.cx.fname(), s@)->0,
                p.k,
                idx,
            ),
        }
    }

    /// The value of a folded pointer, moved into two bytes, is the address it
    /// leads to: its start plus its terms, as a two-byte number.
    #[verifier::rlimit(50)]
    pub proof fn law_pointer_value_is_its_address(
        &self,
        st: St,
        r: String,
        p: Pointer,
        dst: u32,
        base: int,
        m: Machine,
    )
        requires
            ready(st, base, m),
            st.err is None,
            self.cx.pointer(r@) == Some(p),
            self.terms_stand(p, dst),
            self.start_stands(p, dst),
            p.base is Slot ==> p.k == 0 || p.terms@.len() == 0,
            dst <= 0xFFFF,
            apart(dst, 2, HOLD, 1),
        ensures
            ({
                let b = exec(st.rows, base, m);
                let s = self.move_from(st, Val::Reg(r), 2, dst, 0);
                let a = exec(s.rows, base, m);
                &&& ready(s, base, m)
                &&& passes(b, a)
                &&& word(a, dst, 2) == (self.value_start(b, p) + self.index_sum(b, p)) % 0x1_0000
                &&& written_at(b, a, dst)
            }),
    {
        let o = exec(st.rows, base, m);
        let n = p.terms@.len();
        let a = if n >= 1 {
            self.index_slot(p, 0)
        } else {
            0
        };
        let b = if n >= 2 {
            self.index_slot(p, 1)
        } else {
            0
        };
        let t1 = self.start_byte(st, p, 0);
        self.lemma_start_byte(st, p, dst, 0, base, m);
        let s1 = self.pointer_byte(st, p, 0);
        if n > 0 {
            assert(self.term_slot(p.terms@[0]) is Some);
            if n > 1 {
                assert(self.term_slot(p.terms@[1]) is Some);
            }
            self.lemma_terms_low(t1, n, a, b, base, m);
        }
        let c1 = exec(s1.rows, base, m);
        let s2 = self.w_store(s1, dst);
        self.lemma_w_store(s1, dst, base, m);
        let c2 = exec(s2.rows, base, m);
        let t3 = self.start_byte(s2, p, 1);
        self.lemma_start_byte(s2, p, dst, 1, base, m);
        let s3 = self.pointer_byte(s2, p, 1);
        if n > 0 {
            self.lemma_terms_high(t3, n, a, b, base, m);
        }
        let c3 = exec(s3.rows, base, m);
        let s4 = self.w_store(s3, at(dst, 1));
        self.lemma_w_store(s3, at(dst, 1), base, m);
        let c4 = exec(s4.rows, base, m);
        assert(self.move_from(st, Val::Reg(r), 2, dst, 0) == s4) by {
            reveal_with_fuel(Gen::move_from, 3);
        }
        assert(c4.ram[dst] == c1.w && c4.ram[at(dst, 1)] == c3.w);
        assert(word(c4, dst, 2) == c1.w + 256 * c3.w);
        let f = self.value_start(o, p);
        let (low, high) = self.index_bytes(o, p);
        let (start, top) = match p.base {
            Base::Global(_) => (f % 256, f / 256),
            Base::Slot(s, _) => {
                let sa = self.cx.slot(self.cx.fname(), s@)->0;
                assert(c2.ram[at(sa, 1)] == o.ram[at(sa, 1)]);
                (o.ram[sa] + p.k, o.ram[at(sa, 1)] as int)
            },
        };
        if n >= 1 {
            assert(c2.ram[at(a, 1)] == o.ram[at(a, 1)]);
        }
        if n >= 2 {
            assert(c2.ram[at(b, 1)] == o.ram[at(b, 1)]);
            assert(c2.ram[HOLD] == c1.ram[HOLD]);
        }
        let c0 = exec(t1.rows, base, m);
        let k3 = exec(t3.rows, base, m);
        lemma_value(
            start,
            low,
            top,
            high,
            c0.w as int,
            c1.w as int,
            k3.w as int,
            c3.w as int,
            if n == 0 {
                0
            } else {
                (c0.w + low) / 256
            },
            if n == 0 && p.base is Slot {
                start / 256
            } else {
                0
            },
        );
    }

    /// Where a pointer that is passed starts, before its offset: the address of its
    /// global or of its local, or the address held in its slot.
    pub open spec fn passed_start(&self, m: Machine, p: Pointer) -> int {
        match p.base {
            Base::Global(name) => self.value_step(St::start(0), name@, 0).1 as int,
            Base::Slot(s, indirect) => {
                let sa = self.cx.slot(self.cx.fname(), s@)->0;
                if !indirect && !self.cx.holds_addr(s@) {
                    sa as int
                } else {
                    word(m, sa, 2)
                }
            },
        }
    }

    /// Whether that start is known. A pointer into a local that is an object
    /// itself leads to its first byte.
    pub open spec fn passed_stands(&self, p: Pointer, pa: u32) -> bool {
        match p.base {
            Base::Global(name) => {
                &&& self.value_step(St::start(0), name@, 0).0.err is None
                &&& self.value_step(St::start(0), name@, p.k).0.err is None
            },
            Base::Slot(s, indirect) => if !indirect && !self.cx.holds_addr(s@) {
                &&& self.cx.slot(self.cx.fname(), s@) matches Some(a) && a <= 0xFFFF
                &&& p.k == 0 && p.terms@.len() == 0
            } else {
                self.start_stands(p, pa)
            },
        }
    }

    /// Whether the low bytes of the start and the term carry before the offset is
    /// added: that carry is lost.
    pub open spec fn carry_is_lost(&self, m: Machine, p: Pointer) -> bool {
        p.k != 0 && p.terms@.len() == 1 && self.passed_start(m, p) % 256 + m.ram[self.index_slot(p, 0)]
            >= 256
    }

    /// The low byte of an address with its term and its offset.
    proof fn lemma_put_low(&self, st: St, ra: u32, k: u8, pa: u32, base: int, m: Machine)
        requires
            ready(st, base, m),
            st.w is None,
            k == 0 || exec(st.rows, base, m).w + exec(st.rows, base, m).ram[ra] < 256,
        ensures
            ({
                let o = exec(st.rows, base, m);
                let s = self.put_low(st, ra, k, pa);
                let e = exec(s.rows, base, m);
                let t = o.w + o.ram[ra] + k;
                &&& ready(s, base, m)
                &&& passes(o, e)
                &&& e.ram == o.ram.insert(pa, (t % 256) as u8)
                &&& flag(e.c) == t / 256
            }),
    {
        broadcast use group_exec;

    }

    /// The high byte of an address with its term and the carry.
    proof fn lemma_put_high(&self, st: St, ra: u32, pa: u32, base: int, m: Machine)
        requires
            ready(st, base, m),
            st.w is None,
        ensures
            ({
                let o = exec(st.rows, base, m);
                let s = self.put_high(st, ra, pa);
                let e = exec(s.rows, base, m);
                &&& ready(s, base, m)
                &&& passes(o, e)
                &&& e.ram == o.ram.insert(
                    at(pa, 1),
                    ((o.w + flag(o.c) + o.ram[at(ra, 1)]) % 256) as u8,
                )
            }),
    {
        let o = exec(st.rows, base, m);
        self.lemma_plus_carry(st, base, m);
        let s3 = self.add_carry(st);
        let c3 = exec(s3.rows, base, m);
        self.lemma_addwf(s3, at(ra, 1), base, m);
        let s4 = s3.emit(w_op(Op::Addwf, at(ra, 1)));
        let c4 = exec(s4.rows, base, m);
        let s5 = s4.emit(movwf(at(pa, 1)));
        let c5 = exec(s5.rows, base, m);
        assert(ready(s5, base, m) && passes(o, c5) && c5.ram == c4.ram.insert(at(pa, 1), c4.w)) by {
            broadcast use group_exec;

        }
        let y = o.ram[at(ra, 1)] as int;
        lemma_sums(o.w as int, flag(o.c), y, 0, 0, c3.w as int, (c3.w + y) % 256, (c3.w + y) % 256);
    }

    /// An address, known or held, plus a term and an offset.
    proof fn lemma_indexed(
        &self,
        st: St,
        low: Line,
        high: Line,
        f: u8,
        t: u8,
        ra: u32,
        k: u8,
        pa: u32,
        base: int,
        m: Machine,
    )
        requires
            ready(st, base, m),
            readable(ra, pa),
            pa <= 0xFFFF,
            k == 0 || f + exec(st.rows, base, m).ram[ra] < 256,
            ({
                let o = exec(st.rows, base, m);
                let s = st.emit(low);
                let e = exec(s.rows, base, m);
                ready(s, base, m) && passes(o, e) && e.ram == o.ram && e.w == f
            }),
            ({
                let s1 = self.put_low(st.emit(low), ra, k, pa);
                let c1 = exec(s1.rows, base, m);
                let s2 = s1.emit(high);
                let c2 = exec(s2.rows, base, m);
                ready(s1, base, m) ==> ready(s2, base, m) && passes(c1, c2) && c2.ram == c1.ram && c2.c
                    == c1.c && c2.w == t
            }),
        ensures
            ({
                let o = exec(st.rows, base, m);
                let s1 = self.put_low(st.emit(low), ra, k, pa);
                let s = self.put_high(s1.emit(high), ra, pa);
                let e = exec(s.rows, base, m);
                &&& ready(s, base, m)
                &&& passes(o, e)
                &&& word(e, pa, 2) == (f + 256 * t + k + word(o, ra, 2)) % 0x1_0000
                &&& written_at(o, e, pa)
            }),
    {
        let o = exec(st.rows, base, m);
        let (x, y) = (o.ram[ra], o.ram[at(ra, 1)]);
        let s0 = st.emit(low);
        let s1 = self.put_low(s0, ra, k, pa);
        self.lemma_put_low(s0, ra, k, pa, base, m);
        let c1 = exec(s1.rows, base, m);
        let s2 = s1.emit(high);
        self.lemma_put_high(s2, ra, pa, base, m);
        let c2 = exec(s2.rows, base, m);
        assert(c2.ram[at(ra, 1)] == y);
        let e = exec(self.put_high(s2, ra, pa).rows, base, m);
        assert(e.ram[pa] == (f + x + k) % 256);
        lemma_carried(f + x + k, t + y, (f + x + k) / 256, f + x + k + 256 * (t + y));
    }

    /// A pointer argument arrives as the address it leads to: its start plus its
    /// offset and its term, as a two-byte number, unless a carry is lost.
    pub proof fn law_pointer_argument_is_its_address(
        &self,
        st: St,
        r: String,
        p: Pointer,
        pa: u32,
        base: int,
        m: Machine,
    )
        requires
            ready(st, base, m),
            st.err is None,
            self.cx.pointer(r@) == Some(p),
            self.terms_stand(p, pa),
            p.terms@.len() <= 1,
            self.passed_stands(p, pa),
            !self.carry_is_lost(exec(st.rows, base, m), p),
            pa <= 0xFFFF,
            apart(pa, 2, HOLD, 1),
        ensures
            ({
                let b = exec(st.rows, base, m);
                let s = self.ptr_arg(st, Val::Reg(r), pa);
                let a = exec(s.rows, base, m);
                &&& ready(s, base, m)
                &&& passes(b, a)
                &&& word(a, pa, 2) == (self.passed_start(b, p) + p.k + self.index_sum(b, p))
                    % 0x1_0000
                &&& written_at(b, a, pa)
            }),
    {
        let o = exec(st.rows, base, m);
        let s = self.ptr_arg(st, Val::Reg(r), pa);
        let e = exec(s.rows, base, m);
        let one = p.terms@.len() == 1;
        let ra = self.index_slot(p, 0);
        if one {
            assert(self.term_slot(p.terms@[0]) is Some);
            assert(self.cx.local_step(st, p.terms@[0].reg@) == (st, ra));
        }
        match p.base {
            Base::Global(name) => {
                let v = self.value_step(St::start(0), name@, 0).1;
                let w = self.value_step(St::start(0), name@, p.k).1;
                assert(self.value_step(st, name@, 0) == (st, v));
                assert(self.value_step(st, name@, p.k) == (st, w));
                lemma_halves(v);
                lemma_halves(w);
                if one {
                    let s1 = self.put_low(st.emit(movlw(lo8(v))), ra, p.k, pa);
                    assert(s == self.put_high(s1.emit(movlw(hi8(v))), ra, pa));
                    self.lemma_literal(st, lo8(v), base, m);
                    self.lemma_literal(s1, hi8(v), base, m);
                    self.lemma_indexed(
                        st,
                        movlw(lo8(v)),
                        movlw(hi8(v)),
                        lo8(v),
                        hi8(v),
                        ra,
                        p.k,
                        pa,
                        base,
                        m,
                    );
                } else {
                    self.lemma_put_fixed(st, w, pa, base, m);
                }
            },
            Base::Slot(sname, indirect) => {
                let sa = self.cx.slot(self.cx.fname(), sname@)->0;
                assert(self.cx.local_step(st, sname@) == (st, sa));
                if !indirect && !self.cx.holds_addr(sname@) {
                    self.lemma_put_fixed(st, sa, pa, base, m);
                } else if one {
                    let s1 = self.put_low(st.emit(movf(sa)), ra, p.k, pa);
                    assert(s == self.put_high(s1.emit(movf(at(sa, 1))), ra, pa));
                    self.lemma_loaded(st, sa, base, m);
                    self.lemma_loaded(s1, at(sa, 1), base, m);
                    self.lemma_put_low_keeps(st.emit(movf(sa)), ra, p.k, pa, base, m);
                    self.lemma_indexed(
                        st,
                        movf(sa),
                        movf(at(sa, 1)),
                        o.ram[sa],
                        o.ram[at(sa, 1)],
                        ra,
                        p.k,
                        pa,
                        base,
                        m,
                    );
                } else {
                    self.lemma_put_held(st, sa, p.k, pa, base, m);
                }
            },
        }
    }

    proof fn lemma_literal(&self, st: St, v: u8, base: int, m: Machine)
        ensures
            ready(st, base, m) ==> ({
                let o = exec(st.rows, base, m);
                let s = st.emit(movlw(v));
                let e = exec(s.rows, base, m);
                ready(s, base, m) && passes(o, e) && e.ram == o.ram && e.c == o.c && e.w == v
            }),
    {
        broadcast use group_exec;

    }

    proof fn lemma_loaded(&self, st: St, a: u32, base: int, m: Machine)
        ensures
            ready(st, base, m) ==> ({
                let o = exec(st.rows, base, m);
                let s = st.emit(movf(a));
                let e = exec(s.rows, base, m);
                ready(s, base, m) && passes(o, e) && e.ram == o.ram && e.c == o.c && e.w == o.ram[a]
            }),
    {
        broadcast use group_exec;

    }

    proof fn lemma_put_low_keeps(&self, st: St, ra: u32, k: u8, pa: u32, base: int, m: Machine)
        requires
            ready(st, base, m),
        ensures
            ({
                let o = exec(st.rows, base, m);
                let e = exec(self.put_low(st, ra, k, pa).rows, base, m);
                forall|z: u32| z != pa ==> #[trigger] e.ram[z] == o.ram[z]
            }),
    {
        broadcast use group_exec;

    }

    /// A known address.
    proof fn lemma_put_fixed(&self, st: St, v: u32, pa: u32, base: int, m: Machine)
        requires
            ready(st, base, m),
            v <= 0xFFFF,
            pa <= 0xFFFF,
        ensures
            ({
                let o = exec(st.rows, base, m);
                let s = self.put_addr(st, v, pa);
                let e = exec(s.rows, base, m);
                ready(s, base, m) && passes(o, e) && word(e, pa, 2) == v && written_at(o, e, pa)
            }),
    {
        let o = exec(st.rows, base, m);
        let s = self.put_addr(st, v, pa);
        let e = exec(s.rows, base, m);
        lemma_halves(v);
        assert(ready(s, base, m) && passes(o, e) && e.ram == o.ram.insert(pa, lo8(v)).insert(
            at(pa, 1),
            hi8(v),
        )) by {
            broadcast use group_exec;

        }
    }

    /// A held address plus an offset.
    proof fn lemma_put_held(&self, st: St, sa: u32, k: u8, pa: u32, base: int, m: Machine)
        requires
            ready(st, base, m),
            readable(sa, pa),
            pa <= 0xFFFF,
        ensures
            ({
                let o = exec(st.rows, base, m);
                let s = self.put_held(st, sa, k, pa);
                let e = exec(s.rows, base, m);
                &&& ready(s, base, m)
                &&& passes(o, e)
                &&& word(e, pa, 2) == (word(o, sa, 2) + k) % 0x1_0000
                &&& written_at(o, e, pa)
            }),
    {
        let o = exec(st.rows, base, m);
        let s = self.put_held(st, sa, k, pa);
        let e = exec(s.rows, base, m);
        let (f, t) = (o.ram[sa], o.ram[at(sa, 1)]);
        let d = (f + k) / 256;
        if k == 0 {
            assert(ready(s, base, m) && passes(o, e) && e.ram == o.ram.insert(pa, f).insert(at(pa, 1), t))
                by {
                broadcast use group_exec;

            }
        } else {
            let s1 = st.emit(movf(sa)).emit(lit(LitOp::Addlw, k)).emit(movwf(pa)).emit(
                movf(at(sa, 1)),
            );
            let c1 = exec(s1.rows, base, m);
            assert(ready(s1, base, m) && s1.w is None && passes(o, c1) && c1.ram == o.ram.insert(
                pa,
                ((f + k) % 256) as u8,
            ) && c1.w == t && flag(c1.c) == d) by {
                broadcast use group_exec;

            }
            self.lemma_plus_carry(s1, base, m);
            let s2 = self.add_carry(s1);
            let c2 = exec(s2.rows, base, m);
            assert(s == s2.emit(movwf(at(pa, 1))));
            assert(ready(s, base, m) && passes(o, e) && e.ram == c2.ram.insert(at(pa, 1), c2.w)) by {
                broadcast use group_exec;

            }
            lemma_carried(f + k, t as int, d, f + k + 256 * t);
        }
    }
}

} // verus!
