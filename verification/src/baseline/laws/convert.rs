//! What width changes, freezes and selects compute.
use vstd::prelude::*;
use crate::baseline::Gen;
use crate::emit::{at, goto_tmp, label_tmp, movlw, note_z, St};
use crate::ir::{Conv, Freeze, Select, Ty, Val};
use crate::line::{BitOp, Op, Sym};
use crate::machine::{exec, group_exec, Flow, Machine};
use crate::meaning::{apart, kept, limit, passed_over, passes, seeking, signed, word};

verus! {

impl<'a> Gen<'a> {
    /// Whether a value of `nd` bytes at `dst` takes the place of an operand
    /// of `ns` bytes or shares no byte with it.
    pub open spec fn fits_wide(&self, v: Val, ns: int, dst: u32, nd: u8) -> bool {
        self.sound_bytes(dst, nd) && match self.slot_of(v) {
            Some(a) => a == dst || apart(a, ns, dst, nd as int),
            None => true,
        }
    }

    /// Whether a width change is one that code is written for.
    pub open spec fn converts(&self, x: Conv) -> bool {
        let (from, to) = (x.from.bytes(), x.to.bytes());
        match self.cx.slot(self.cx.fname(), x.dst@) {
            Some(da) => self.plain(x.val, from) && self.fits_wide(x.val, from as int, da, to)
                && self.fits_wide(x.val, to as int, da, to),
            None => false,
        }
    }

    proof fn lemma_clear_from(&self, st: St, da: u32, n: u8, i: u8, base: int, m: Machine)
        requires
            self.at_row(st, base, m),
            self.sound_bytes(da, n),
        ensures
            ({
                let s = self.clear_from(st, da, n, i);
                let b = exec(st.rows, base, m);
                let a = exec(s.rows, base, m);
                self.at_row(s, base, m) && passes(b, a) && (forall|j: u8|
                    i <= j < n ==> #[trigger] a.ram[at(da, j)] == 0) && (forall|x: u32|
                    x < da + i || x >= da + n ==> #[trigger] a.ram[x] == b.ram[x])
            }),
        decreases n - i,
    {
        if i < n {
            assert(self.sound(at(da, i)));
            self.lemma_clear(st, at(da, i), base, m);
            self.lemma_clear_from(self.clear(st, at(da, i)), da, n, (i + 1) as u8, base, m);
        }
    }

    proof fn lemma_fill_from(&self, st: St, da: u32, n: u8, i: u8, base: int, m: Machine)
        requires
            self.at_row(st, base, m),
            self.sound_bytes(da, n),
        ensures
            ({
                let s = self.fill_from(st, da, n, i);
                let b = exec(st.rows, base, m);
                let a = exec(s.rows, base, m);
                self.at_row(s, base, m) && passes(b, a) && (forall|j: u8|
                    i <= j < n ==> #[trigger] a.ram[at(da, j)] == b.w) && (forall|x: u32|
                    x < da + i || x >= da + n ==> #[trigger] a.ram[x] == b.ram[x])
            }),
        decreases n - i,
    {
        if i < n {
            assert(self.sound(at(da, i)));
            self.lemma_w_store(st, at(da, i), base, m);
            self.lemma_fill_from(self.w_store(st, at(da, i)), da, n, (i + 1) as u8, base, m);
        }
    }

    /// A zero extension keeps the number.
    pub proof fn law_zext_keeps_the_number(&self, st: St, x: Conv, base: int, m: Machine)
        requires
            self.at_row(st, base, m),
            self.converts(x),
            x.from.bytes() <= x.to.bytes(),
        ensures
            self.at_row(self.zext(st, x), base, m),
            ({
                let da = self.cx.slot(self.cx.fname(), x.dst@)->0;
                let b = exec(st.rows, base, m);
                let a = exec(self.zext(st, x).rows, base, m);
                passes(b, a) && kept(b, a, da, x.to.bytes() as int) && word(a, da, x.to.bytes())
                    == self.word_of(b, x.val, x.from.bytes())
            }),
    {
        let da = self.cx.slot(self.cx.fname(), x.dst@)->0;
        let (n, to) = (x.from.bytes(), x.to.bytes());
        let b = exec(st.rows, base, m);
        assert(self.fits(x.val, da, n)) by {
            assert forall|i: u8| i < n implies self.sound(#[trigger] at(da, i)) by {}
        }
        let s1 = self.move_from(st, x.val, n, da, 0);
        self.lemma_move_from(st, x.val, n, da, 0, base, m);
        let c = exec(s1.rows, base, m);
        self.lemma_clear_from(s1, da, to, n, base, m);
        let a = exec(self.zext(st, x).rows, base, m);
        assert(c.ram[at(da, 0)] == self.byte_of(b, x.val, 0) && a.ram[at(da, 0)] == c.ram[at(da, 0)]);
        if n > 1 {
            assert(c.ram[at(da, 1)] == self.byte_of(b, x.val, 1) && a.ram[at(da, 1)] == c.ram[at(
                da,
                1,
            )]);
        } else if to > 1 {
            assert(a.ram[at(da, 1)] == 0);
        }
        if n > 2 {
            assert(c.ram[at(da, 2)] == self.byte_of(b, x.val, 2));
            assert(c.ram[at(da, 3)] == self.byte_of(b, x.val, 3));
            assert(a.ram[at(da, 2)] == c.ram[at(da, 2)] && a.ram[at(da, 3)] == c.ram[at(da, 3)]);
        } else if to > 2 {
            assert(a.ram[at(da, 2)] == 0 && a.ram[at(da, 3)] == 0);
        }
    }

    /// A truncation keeps the number modulo the narrow limit; to `i1` it
    /// keeps the lowest bit.
    pub proof fn law_trunc_keeps_the_low_bytes(&self, st: St, x: Conv, base: int, m: Machine)
        requires
            self.at_row(st, base, m),
            self.converts(x),
            x.from.bytes() > x.to.bytes() || (x.to == Ty::I1 && x.from != Ty::I1),
        ensures
            self.at_row(self.trunc(st, x), base, m),
            ({
                let da = self.cx.slot(self.cx.fname(), x.dst@)->0;
                let b = exec(st.rows, base, m);
                let a = exec(self.trunc(st, x).rows, base, m);
                passes(b, a) && kept(b, a, da, x.to.bytes() as int) && word(a, da, x.to.bytes())
                    == self.word_of(b, x.val, x.from.bytes()) % (if x.to == Ty::I1 {
                    2
                } else {
                    limit(x.to.bytes())
                })
            }),
    {
        let da = self.cx.slot(self.cx.fname(), x.dst@)->0;
        let (n, to) = (x.from.bytes(), x.to.bytes());
        let b = exec(st.rows, base, m);
        assert(self.plain(x.val, to));
        let s1 = self.move_from(st, x.val, to, da, 0);
        self.lemma_moved(st, x.val, to, da, base, m);
        let c = exec(s1.rows, base, m);
        assert(self.word_of(b, x.val, to) == self.word_of(b, x.val, n) % limit(to));
        if x.to == Ty::I1 {
            assert(at(da, 0) == da && self.sound(at(da, 0)));
            let s2 = s1.emit(movlw(1));
            let d = exec(s2.rows, base, m);
            assert(self.at_row(s2, base, m) && passes(c, d) && d.ram == c.ram && d.w == 1) by {
                broadcast use group_exec;

            }
            self.lemma_acc_f(s2, Op::Andwf, da, base, m);
            let v = c.ram[da];
            assert(v & 1 == v % 2) by (bit_vector);
        }
    }

    /// The fill byte of a sign extension: 0xFF behind a set sign bit.
    proof fn lemma_sign_fill(&self, st: St, hi: u32, p: u32, f: u32, base: int, m: Machine)
        requires
            self.at_row(st, base, m),
            self.sound(hi),
            p != f,
        ensures
            ({
                let s = self.bit(self.bank(st, hi), BitOp::Btfss, hi, 7).emit(goto_tmp(p)).emit(
                    movlw(0xFF),
                ).emit(goto_tmp(f)).emit(label_tmp(p)).emit(movlw(0)).emit(label_tmp(f));
                let b = exec(st.rows, base, m);
                let a = exec(s.rows, base, m);
                self.at_row(s, base, m) && passes(b, a) && a.ram == b.ram && a.w == (if b.ram[hi]
                    >= 128 {
                    0xFFu8
                } else {
                    0u8
                })
            }),
    {
        self.lemma_bank(st, hi, base, m);
        broadcast use group_exec;

    }

    /// A sign extension keeps the signed number.
    pub proof fn law_sext_keeps_the_signed_number(&self, st: St, x: Conv, base: int, m: Machine)
        requires
            self.at_row(st, base, m),
            self.converts(x),
            x.from != Ty::I1,
            x.from.bytes() < x.to.bytes(),
            !(x.val is Const),
            st.next < u32::MAX,
        ensures
            self.at_row(self.sext(st, x), base, m),
            ({
                let da = self.cx.slot(self.cx.fname(), x.dst@)->0;
                let b = exec(st.rows, base, m);
                let a = exec(self.sext(st, x).rows, base, m);
                passes(b, a) && kept(b, a, da, x.to.bytes() as int) && signed(
                    word(a, da, x.to.bytes()),
                    x.to.bytes(),
                ) == signed(self.word_of(b, x.val, x.from.bytes()), x.from.bytes())
            }),
    {
        let da = self.cx.slot(self.cx.fname(), x.dst@)->0;
        let (n, to) = (x.from.bytes(), x.to.bytes());
        let b = exec(st.rows, base, m);
        assert(self.fits(x.val, da, n)) by {
            assert forall|i: u8| i < n implies self.sound(#[trigger] at(da, i)) by {}
        }
        let s1 = self.move_from(st, x.val, n, da, 0);
        self.lemma_move_from(st, x.val, n, da, 0, base, m);
        let c = exec(s1.rows, base, m);
        let hi = at(self.slot_of(x.val)->0, (n - 1) as u8);
        assert(self.sound(hi));
        let p = s1.next;
        let f = s1.bump().next;
        let s2 = s1.bump().bump();
        self.lemma_sign_fill(s2, hi, p, f, base, m);
        let s3 = self.bit(self.bank(s2, hi), BitOp::Btfss, hi, 7).emit(goto_tmp(p)).emit(
            movlw(0xFF),
        ).emit(goto_tmp(f)).emit(label_tmp(p)).emit(movlw(0)).emit(label_tmp(f));
        self.lemma_fill_from(s3, da, to, n, base, m);
        assert(self.sext(st, x) == self.fill_from(s3, da, to, n));
        let fill = exec(s3.rows, base, m).w;
        let a = exec(self.sext(st, x).rows, base, m);
        assert(c.ram[at(da, (n - 1) as u8)] == self.byte_of(b, x.val, (n - 1) as u8));
        assert(c.ram[hi] == b.ram[hi]);
        assert(c.ram[at(da, 0)] == self.byte_of(b, x.val, 0));
        assert(at(da, 0) == da && a.ram[da] == c.ram[da]);
        if n <= 1 {
            assert(a.ram[at(da, 1)] == fill);
        } else {
            assert(c.ram[at(da, 1)] == self.byte_of(b, x.val, 1));
            assert(a.ram[at(da, 1)] == c.ram[at(da, 1)]);
        }
        if to > 2 {
            assert(a.ram[at(da, 2)] == fill);
            assert(a.ram[at(da, 3)] == fill);
        }
    }

    /// A freeze passes its operand on.
    pub proof fn law_freeze_copies(&self, st: St, x: Freeze, base: int, m: Machine)
        requires
            self.at_row(st, base, m),
            self.plain(x.val, x.ty.bytes()),
            ({
                let da = self.cx.slot(self.cx.fname(), x.dst@);
                da is Some && self.fits(x.val, da->0, x.ty.bytes())
            }),
        ensures
            ({
                let da = self.cx.slot(self.cx.fname(), x.dst@)->0;
                let s = self.move_val(st, x.val, x.ty, da);
                let b = exec(st.rows, base, m);
                let a = exec(s.rows, base, m);
                self.at_row(s, base, m) && passes(b, a) && kept(b, a, da, x.ty.bytes() as int)
                    && word(a, da, x.ty.bytes()) == self.word_of(b, x.val, x.ty.bytes())
            }),
    {
        let da = self.cx.slot(self.cx.fname(), x.dst@)->0;
        self.lemma_moved(st, x.val, x.ty.bytes(), da, base, m);
    }

    /// A jump passes over a bank select.
    pub(crate) proof fn lemma_bank_over(&self, st: St, addr: u32, base: int, m: Machine)
        requires
            seeking(st, base, m),
        ensures
            passed_over(st, self.bank(st, addr), base, m),
            self.bank(st, addr).next == st.next,
    {
        if let Some(b) = self.cx.device.bank(addr) {
            self.lemma_bank_lines_over(st, b, 0, base, m);
        }
    }

    proof fn lemma_bank_lines_over(&self, st: St, b: usize, i: u8, base: int, m: Machine)
        requires
            seeking(st, base, m),
        ensures
            passed_over(st, self.bank_lines(st, b, i), base, m),
            self.bank_lines(st, b, i).next == st.next,
        decreases self.cx.device.fsr_bank_bits - i,
    {
        broadcast use group_exec;

        if i < self.cx.device.fsr_bank_bits {
            let s1 = st.keep(crate::baseline::bank_line(b, i));
            self.lemma_bank_lines_over(s1, b, (i + 1) as u8, base, m);
        }
    }

    /// A jump passes over a move.
    pub(crate) proof fn lemma_move_dropped(
        &self,
        st: St,
        v: Val,
        n: u8,
        dst: u32,
        i: u8,
        base: int,
        m: Machine,
    )
        requires
            seeking(st, base, m),
            self.plain(v, n),
            self.sound_bytes(dst, n),
        ensures
            passed_over(st, self.move_from(st, v, n, dst, i), base, m),
            self.move_from(st, v, n, dst, i).next == st.next,
        decreases n - i,
    {
        if i < n {
            assert(self.sound(at(dst, i)));
            let s1 = self.load_byte(st, v, i);
            assert(passed_over(st, s1, base, m) && s1.next == st.next) by {
                match v {
                    Val::Const(k) => {
                        broadcast use group_exec;

                    },
                    _ => {
                        let f = at(self.slot_of(v)->0, i);
                        assert(self.sound(f));
                        self.lemma_bank_over(st, f, base, m);
                        broadcast use group_exec;

                    },
                }
            }
            let s2 = self.w_store(s1, at(dst, i));
            assert(passed_over(s1, s2, base, m) && s2.next == s1.next) by {
                self.lemma_bank_over(s1, at(dst, i), base, m);
                broadcast use group_exec;

            }
            self.lemma_move_dropped(s2, v, n, dst, (i + 1) as u8, base, m);
        }
    }

    /// Whether the condition of a select or a branch holds.
    pub open spec fn chosen(&self, m: Machine, cond: Val) -> bool {
        match cond {
            Val::Const(k) => k != 0,
            Val::Reg(r) => m.ram[self.cx.slot(self.cx.fname(), r@)->0] != 0,
            Val::Global(_) => false,
        }
    }

    /// Whether a select is one between values that code is written for.
    pub open spec fn selects(&self, x: Select) -> bool {
        let n = x.ty.bytes();
        &&& !self.cx.seeded(x.dst@)
        &&& !x.ptr
        &&& self.plain(x.a, n) && self.plain(x.b, n)
        &&& x.cond is Const || (x.cond matches Val::Reg(r) && (self.cx.slot(
            self.cx.fname(),
            r@,
        ) matches Some(ca) && self.sound(ca)))
        &&& match self.cx.slot(self.cx.fname(), x.dst@) {
            Some(da) => self.fits(x.a, da, n) && self.fits(x.b, da, n),
            None => false,
        }
    }

    /// A select leaves the operand that its condition picks.
    pub proof fn law_select_picks(&self, st: St, x: Select, base: int, m: Machine)
        requires
            self.at_row(st, base, m),
            self.selects(x),
            st.next < u32::MAX,
        ensures
            self.at_row(self.select_inst(st, x), base, m),
            ({
                let n = x.ty.bytes();
                let da = self.cx.slot(self.cx.fname(), x.dst@)->0;
                let b = exec(st.rows, base, m);
                let a = exec(self.select_inst(st, x).rows, base, m);
                passes(b, a) && kept(b, a, da, n as int) && word(a, da, n) == (if self.chosen(
                    b,
                    x.cond,
                ) {
                    self.word_of(b, x.a, n)
                } else {
                    self.word_of(b, x.b, n)
                })
            }),
    {
        let n = x.ty.bytes();
        let da = self.cx.slot(self.cx.fname(), x.dst@)->0;
        let b = exec(st.rows, base, m);
        match x.cond {
            Val::Const(k) => {
                let v = if k != 0 {
                    x.a
                } else {
                    x.b
                };
                self.lemma_moved(st, v, n, da, base, m);
            },
            Val::Reg(r) => {
                let ca = self.cx.slot(self.cx.fname(), r@)->0;
                let l_else = st.next;
                let l_end = st.bump().next;
                let s0 = self.acc_w(st.bump().bump(), Op::Movf, ca);
                self.lemma_acc_w(st.bump().bump(), Op::Movf, ca, base, m);
                let m0 = exec(s0.rows, base, m);
                let s1 = s0.emit(note_z(BitOp::Btfsc)).emit(goto_tmp(l_else));
                let m1 = exec(s1.rows, base, m);
                assert(m1 == (Machine {
                    flow: if b.ram[ca] != 0 {
                        Flow::Next
                    } else {
                        Flow::Seek(Sym::Tmp(l_else))
                    },
                    cycles: m1.cycles,
                    ..m0
                })) by {
                    broadcast use group_exec;

                }
                assert(self.word_of(m1, x.a, n) == self.word_of(b, x.a, n));
                let s2 = self.move_from(s1, x.a, n, da, 0);
                let s3 = s2.emit(goto_tmp(l_end)).emit(label_tmp(l_else));
                let s4 = self.move_from(s3, x.b, n, da, 0);
                let s5 = s4.emit(label_tmp(l_end));
                assert(self.select_inst(st, x) == s5);
                if b.ram[ca] != 0 {
                    self.lemma_moved(s1, x.a, n, da, base, m);
                    let c = exec(s2.rows, base, m);
                    let d = exec(s3.rows, base, m);
                    assert(d == (Machine {
                        flow: Flow::Seek(Sym::Tmp(l_end)),
                        cycles: d.cycles,
                        ..c
                    })) by {
                        broadcast use group_exec;

                    }
                    self.lemma_move_dropped(s3, x.b, n, da, 0, base, m);
                    assert(exec(s5.rows, base, m) == (Machine { flow: Flow::Next, ..d })) by {
                        broadcast use group_exec;

                    }
                } else {
                    self.lemma_move_dropped(s1, x.a, n, da, 0, base, m);
                    let d = exec(s3.rows, base, m);
                    assert(d == (Machine { flow: Flow::Next, ..m1 })) by {
                        broadcast use group_exec;

                    }
                    assert(self.word_of(d, x.b, n) == self.word_of(b, x.b, n));
                    self.lemma_moved(s3, x.b, n, da, base, m);
                    assert(exec(s5.rows, base, m) == exec(s4.rows, base, m)) by {
                        broadcast use group_exec;

                    }
                }
            },
            Val::Global(_) => {},
        }
    }
}

} // verus!
