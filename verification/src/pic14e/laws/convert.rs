//! What moves, width changes, selects and returns compute.
use vstd::prelude::*;
use crate::emit::{at, clrf, f_op, goto_tmp, label_tmp, movf, movlw, movwf, note_z, ram_bit, St};
use crate::ir::{Conv, Freeze, Select, Ty, Val};
use crate::line::{BitOp, Op, Sym};
use crate::machine::{exec, group_exec, Flow, Machine};
use crate::meaning::{apart, kept, limit, passes, signed, word};
use crate::pic14e::laws::{lemma_movwf, ready};
use crate::pic14e::Gen;

verus! {

impl<'a> Gen<'a> {
    /// Whether a value of `nd` bytes at `dst` takes the place of an operand
    /// of `ns` bytes or shares no byte with it.
    pub open spec fn fits_wide(&self, v: Val, ns: int, dst: u32, nd: int) -> bool {
        dst <= 0xFFFF && match self.slot_of(v) {
            Some(a) => a == dst || apart(a, ns, dst, nd),
            None => true,
        }
    }

    pub(crate) proof fn lemma_store_to(
        &self,
        st: St,
        v: Val,
        n: u8,
        dst: u32,
        i: u8,
        base: int,
        m: Machine,
    )
        requires
            ready(st, base, m),
            self.plain(v),
            self.fits_wide(v, n as int, dst, n as int),
        ensures
            ready(self.store_to(st, v, n, dst, i), base, m),
            ({
                let b = exec(st.rows, base, m);
                let a = exec(self.store_to(st, v, n, dst, i).rows, base, m);
                passes(b, a) && kept(b, a, dst, n as int) && (forall|j: u8|
                    i <= j < n ==> #[trigger] a.ram[at(dst, j)] == self.byte_of(b, v, j)) && (
                forall|j: u8| j < i ==> #[trigger] a.ram[at(dst, j)] == b.ram[at(dst, j)])
            }),
        decreases n - i,
    {
        if i < n {
            let b = exec(st.rows, base, m);
            let s1 = self.load_byte(st, v, i);
            self.lemma_load_byte(st, v, i, base, m);
            let s2 = s1.emit(movwf(at(dst, i)));
            lemma_movwf(s1, at(dst, i), base, m);
            let mid = exec(s2.rows, base, m);
            self.lemma_store_to(s2, v, n, dst, (i + 1) as u8, base, m);
            let a = exec(self.store_to(st, v, n, dst, i).rows, base, m);
            assert forall|j: u8| i <= j < n implies #[trigger] a.ram[at(dst, j)] == self.byte_of(
                b,
                v,
                j,
            ) by {
                if j > i {
                    assert(self.byte_of(mid, v, j) == self.byte_of(b, v, j));
                }
            }
        }
    }

    /// The bytes a value was stored to hold the value.
    pub(crate) proof fn lemma_stored(&self, st: St, v: Val, n: u8, dst: u32, base: int, m: Machine)
        requires
            ready(st, base, m),
            self.plain(v),
            self.fits_wide(v, n as int, dst, n as int),
            n == 1 || n == 2 || n == 4,
        ensures
            ({
                let b = exec(st.rows, base, m);
                let a = exec(self.store_to(st, v, n, dst, 0).rows, base, m);
                word(a, dst, n) == self.word_of(b, v, n)
            }),
    {
        self.lemma_store_to(st, v, n, dst, 0, base, m);
        let b = exec(st.rows, base, m);
        let a = exec(self.store_to(st, v, n, dst, 0).rows, base, m);
        assert(a.ram[at(dst, 0)] == self.byte_of(b, v, 0));
        if n > 1 {
            assert(a.ram[at(dst, 1)] == self.byte_of(b, v, 1));
        }
        if n > 2 {
            assert(a.ram[at(dst, 2)] == self.byte_of(b, v, 2));
            assert(a.ram[at(dst, 3)] == self.byte_of(b, v, 3));
        }
    }

    pub(crate) proof fn lemma_clrf(&self, st: St, a: u32, base: int, m: Machine)
        requires
            ready(st, base, m),
        ensures
            ready(st.emit(clrf(a)), base, m),
            ({
                let b = exec(st.rows, base, m);
                let n = exec(st.emit(clrf(a)).rows, base, m);
                passes(b, n) && n.ram == b.ram.insert(a, 0)
            }),
    {
        broadcast use group_exec;

    }

    pub(crate) proof fn lemma_clear_from(&self, st: St, da: u32, n: u8, i: u8, base: int, m: Machine)
        requires
            ready(st, base, m),
            da <= 0x1_FFFF,
        ensures
            ready(self.clear_from(st, da, n, i), base, m),
            ({
                let b = exec(st.rows, base, m);
                let a = exec(self.clear_from(st, da, n, i).rows, base, m);
                passes(b, a) && (forall|j: u8| i <= j < n ==> #[trigger] a.ram[at(da, j)] == 0) && (
                forall|x: u32| x < da + i || x >= da + n ==> #[trigger] a.ram[x] == b.ram[x])
            }),
        decreases n - i,
    {
        if i < n {
            self.lemma_clrf(st, at(da, i), base, m);
            self.lemma_clear_from(st.emit(clrf(at(da, i))), da, n, (i + 1) as u8, base, m);
        }
    }

    pub(crate) proof fn lemma_fill_from(&self, st: St, da: u32, n: u8, i: u8, base: int, m: Machine)
        requires
            ready(st, base, m),
            da <= 0xFFFF,
        ensures
            ready(self.fill_from(st, da, n, i), base, m),
            ({
                let b = exec(st.rows, base, m);
                let a = exec(self.fill_from(st, da, n, i).rows, base, m);
                passes(b, a) && (forall|j: u8| i <= j < n ==> #[trigger] a.ram[at(da, j)] == b.w)
                    && (forall|x: u32| x < da + i || x >= da + n ==> #[trigger] a.ram[x]
                    == b.ram[x])
            }),
        decreases n - i,
    {
        if i < n {
            lemma_movwf(st, at(da, i), base, m);
            self.lemma_fill_from(st.emit(movwf(at(da, i))), da, n, (i + 1) as u8, base, m);
        }
    }

    /// Whether a width change is one that code is written for.
    pub open spec fn converts(&self, x: Conv) -> bool {
        match self.cx.slot(self.cx.fname(), x.dst@) {
            Some(da) => self.plain(x.val) && self.fits_wide(
                x.val,
                x.from.bytes() as int,
                da,
                x.to.bytes() as int,
            ) && self.fits_wide(x.val, x.to.bytes() as int, da, x.to.bytes() as int),
            None => false,
        }
    }

    /// A zero extension keeps the number.
    pub proof fn law_zext_keeps_the_number(&self, st: St, x: Conv, base: int, m: Machine)
        requires
            ready(st, base, m),
            self.converts(x),
            x.from.bytes() <= x.to.bytes(),
        ensures
            ready(self.zext(st, x), base, m),
            ({
                let da = self.cx.slot(self.cx.fname(), x.dst@)->0;
                let b = exec(st.rows, base, m);
                let a = exec(self.zext(st, x).rows, base, m);
                passes(b, a) && kept(b, a, da, x.to.bytes() as int) && word(a, da, x.to.bytes())
                    == self.word_of(b, x.val, x.from.bytes())
            }),
    {
        let da = self.cx.slot(self.cx.fname(), x.dst@)->0;
        let n = x.from.bytes();
        let s1 = self.store_to(st, x.val, n, da, 0);
        self.lemma_store_to(st, x.val, n, da, 0, base, m);
        self.lemma_stored(st, x.val, n, da, base, m);
        self.lemma_clear_from(s1, da, x.to.bytes(), n, base, m);
        let mid = exec(s1.rows, base, m);
        let a = exec(self.zext(st, x).rows, base, m);
        assert(at(da, 0) == da);
        if n <= 1 && 1 < x.to.bytes() {
            assert(a.ram[at(da, 1)] == 0);
        }
        if n <= 2 && 2 < x.to.bytes() {
            assert(a.ram[at(da, 2)] == 0);
            assert(a.ram[at(da, 3)] == 0);
        }
        assert(a.ram[da] == mid.ram[da]);
        if n > 1 {
            assert(a.ram[at(da, 1)] == mid.ram[at(da, 1)]);
        }
        if n > 2 {
            assert(a.ram[at(da, 2)] == mid.ram[at(da, 2)]);
            assert(a.ram[at(da, 3)] == mid.ram[at(da, 3)]);
        }
    }

    /// A truncation keeps the number modulo the narrow limit; to `i1` it
    /// keeps the lowest bit.
    pub proof fn law_trunc_keeps_the_low_bytes(&self, st: St, x: Conv, base: int, m: Machine)
        requires
            ready(st, base, m),
            self.converts(x),
            x.from.bytes() > x.to.bytes() || (x.to == Ty::I1 && x.from != Ty::I1),
        ensures
            ready(self.trunc(st, x), base, m),
            ({
                let da = self.cx.slot(self.cx.fname(), x.dst@)->0;
                let b = exec(st.rows, base, m);
                let a = exec(self.trunc(st, x).rows, base, m);
                passes(b, a) && kept(b, a, da, x.to.bytes() as int) && word(a, da, x.to.bytes())
                    == self.word_of(b, x.val, x.from.bytes()) % (if x.to == Ty::I1 {
                    2
                } else {
                    limit(x.to.bytes())
                })
            }),
    {
        let da = self.cx.slot(self.cx.fname(), x.dst@)->0;
        let n = x.to.bytes();
        let s1 = self.store_to(st, x.val, n, da, 0);
        self.lemma_store_to(st, x.val, n, da, 0, base, m);
        self.lemma_stored(st, x.val, n, da, base, m);
        let b = exec(st.rows, base, m);
        self.lemma_low_number(b, x.val, n, x.from.bytes());
        if x.to == Ty::I1 {
            self.lemma_low_bit(s1, da, base, m);
        }
    }

    /// The low bytes of a number are the number modulo their limit.
    proof fn lemma_low_number(&self, b: Machine, v: Val, n: u8, w: u8)
        requires
            n == 1 || n == 2 || n == 4,
            w == 1 || w == 2 || w == 4,
            n <= w,
        ensures
            self.word_of(b, v, n) == self.word_of(b, v, w) % limit(n),
    {
    }

    proof fn lemma_low_bit(&self, st: St, da: u32, base: int, m: Machine)
        requires
            ready(st, base, m),
        ensures
            ({
                let t = st.emit(movlw(1)).emit(f_op(Op::Andwf, da));
                let b = exec(st.rows, base, m);
                let a = exec(t.rows, base, m);
                ready(t, base, m) && passes(b, a) && kept(b, a, da, 1) && a.ram[da] == b.ram[da] % 2
            }),
    {
        broadcast use group_exec;

        let v = exec(st.rows, base, m).ram[da];
        assert(v & 1 == v % 2) by (bit_vector);
    }

    /// The fill byte of a sign extension: 0xFF behind a set sign bit.
    proof fn lemma_sign_fill(&self, st: St, hi: u32, p: u32, f: u32, base: int, m: Machine)
        requires
            ready(st, base, m),
            p != f,
        ensures
            ({
                let t = st.emit(ram_bit(BitOp::Btfss, hi, 7)).emit(goto_tmp(p)).emit(
                    movlw(0xFF),
                ).emit(goto_tmp(f)).emit(label_tmp(p)).emit(movlw(0)).emit(label_tmp(f));
                let b = exec(st.rows, base, m);
                let a = exec(t.rows, base, m);
                ready(t, base, m) && passes(b, a) && a.ram == b.ram && a.w == (if b.ram[hi] >= 128 {
                    0xFFu8
                } else {
                    0u8
                })
            }),
    {
        broadcast use group_exec;

    }

    /// A sign extension keeps the number in two's complement.
    pub proof fn law_sext_keeps_the_signed_number(&self, st: St, x: Conv, base: int, m: Machine)
        requires
            ready(st, base, m),
            self.converts(x),
            x.from != Ty::I1,
            x.from.bytes() < x.to.bytes(),
            !(x.val is Const),
            st.next < u32::MAX,
        ensures
            ready(self.sext(st, x), base, m),
            ({
                let da = self.cx.slot(self.cx.fname(), x.dst@)->0;
                let b = exec(st.rows, base, m);
                let a = exec(self.sext(st, x).rows, base, m);
                passes(b, a) && kept(b, a, da, x.to.bytes() as int) && signed(
                    word(a, da, x.to.bytes()),
                    x.to.bytes(),
                ) == signed(self.word_of(b, x.val, x.from.bytes()), x.from.bytes())
            }),
    {
        let da = self.cx.slot(self.cx.fname(), x.dst@)->0;
        let n = x.from.bytes();
        let to = x.to.bytes();
        let b = exec(st.rows, base, m);
        let s1 = self.store_to(st, x.val, n, da, 0);
        self.lemma_store_to(st, x.val, n, da, 0, base, m);
        self.lemma_stored(st, x.val, n, da, base, m);
        self.lemma_store_next(st, x.val, n, da, 0);
        let hi = at(self.slot_of(x.val)->0, (n - 1) as u8);
        let s2 = s1.bump().bump();
        self.lemma_sign_fill(s2, hi, s1.next, s1.bump().next, base, m);
        let s3 = s2.emit(ram_bit(BitOp::Btfss, hi, 7)).emit(goto_tmp(s1.next)).emit(
            movlw(0xFF),
        ).emit(goto_tmp(s1.bump().next)).emit(label_tmp(s1.next)).emit(movlw(0)).emit(
            label_tmp(s1.bump().next),
        );
        self.lemma_fill_from(s3, da, to, n, base, m);
        assert(self.sext(st, x) == self.fill_from(s3, da, to, n));
        let mid = exec(s1.rows, base, m);
        let fill = exec(s3.rows, base, m).w;
        let a = exec(self.sext(st, x).rows, base, m);
        assert(mid.ram[hi] == b.ram[hi]) by {
            assert(mid.ram[at(da, (n - 1) as u8)] == self.byte_of(b, x.val, (n - 1) as u8));
        }
        assert(at(da, 0) == da);
        assert(a.ram[da] == mid.ram[da]);
        if n <= 1 {
            assert(a.ram[at(da, 1)] == fill);
        } else {
            assert(a.ram[at(da, 1)] == mid.ram[at(da, 1)]);
        }
        if to > 2 {
            assert(a.ram[at(da, 2)] == fill);
            assert(a.ram[at(da, 3)] == fill);
        }
    }

    /// Stores take no label numbers.
    proof fn lemma_store_next(&self, st: St, v: Val, n: u8, dst: u32, i: u8)
        requires
            self.plain(v),
        ensures
            self.store_to(st, v, n, dst, i).next == st.next,
        decreases n - i,
    {
        if i < n {
            let s1 = self.load_byte(st, v, i).emit(movwf(at(dst, i)));
            self.lemma_store_next(s1, v, n, dst, (i + 1) as u8);
        }
    }

    /// A freeze passes its operand on.
    pub proof fn law_freeze_copies(&self, st: St, x: Freeze, base: int, m: Machine)
        requires
            ready(st, base, m),
            self.plain(x.val),
            ({
                let da = self.cx.slot(self.cx.fname(), x.dst@);
                da is Some && self.fits(x.val, da->0, x.ty.bytes() as int)
            }),
        ensures
            ({
                let da = self.cx.slot(self.cx.fname(), x.dst@)->0;
                let s = self.move_val(st, x.val, x.ty, da);
                let b = exec(st.rows, base, m);
                let a = exec(s.rows, base, m);
                ready(s, base, m) && passes(b, a) && kept(b, a, da, x.ty.bytes() as int) && word(
                    a,
                    da,
                    x.ty.bytes(),
                ) == self.word_of(b, x.val, x.ty.bytes())
            }),
    {
        let da = self.cx.slot(self.cx.fname(), x.dst@)->0;
        self.lemma_move_from(st, x.val, x.ty.bytes(), da, 0, base, m);
        self.lemma_moved(st, x.val, x.ty.bytes(), da, base, m);
    }

    /// A jump passes over a move.
    pub(crate) proof fn lemma_move_dropped(
        &self,
        st: St,
        v: Val,
        n: u8,
        dst: u32,
        i: u8,
        base: int,
        m: Machine,
    )
        requires
            0 <= base <= st.rows.len(),
            exec(st.rows, base, m).flow is Seek,
            self.plain(v),
        ensures
            self.move_from(st, v, n, dst, i).rows.len() >= st.rows.len(),
            self.move_from(st, v, n, dst, i).next == st.next,
            exec(self.move_from(st, v, n, dst, i).rows, base, m) == exec(st.rows, base, m),
        decreases n - i,
    {
        broadcast use group_exec;

        if i < n {
            let s1 = self.load_byte(st, v, i);
            assert(exec(s1.rows, base, m) == exec(st.rows, base, m));
            let s2 = self.w_store(s1, at(dst, i));
            assert(exec(s2.rows, base, m) == exec(st.rows, base, m));
            self.lemma_move_dropped(s2, v, n, dst, (i + 1) as u8, base, m);
        }
    }

    /// Whether a select is one between values that code is written for.
    pub open spec fn selects(&self, x: Select) -> bool {
        let n = x.ty.bytes() as int;
        &&& !self.cx.seeded(x.dst@)
        &&& !x.ptr
        &&& self.plain(x.a) && self.plain(x.b)
        &&& x.cond is Const || (x.cond matches Val::Reg(r) && self.cx.slot(
            self.cx.fname(),
            r@,
        ) is Some)
        &&& match self.cx.slot(self.cx.fname(), x.dst@) {
            Some(da) => self.fits(x.a, da, n) && self.fits(x.b, da, n),
            None => false,
        }
    }

    /// Whether the condition of a select holds.
    pub open spec fn chosen(&self, m: Machine, cond: Val) -> bool {
        match cond {
            Val::Const(k) => k != 0,
            Val::Reg(r) => m.ram[self.cx.slot(self.cx.fname(), r@)->0] != 0,
            Val::Global(_) => false,
        }
    }

    /// A select leaves the operand that its condition picks.
    pub proof fn law_select_picks(&self, st: St, x: Select, base: int, m: Machine)
        requires
            ready(st, base, m),
            self.selects(x),
            st.next < u32::MAX,
        ensures
            ready(self.select_inst(st, x), base, m),
            ({
                let n = x.ty.bytes();
                let da = self.cx.slot(self.cx.fname(), x.dst@)->0;
                let b = exec(st.rows, base, m);
                let a = exec(self.select_inst(st, x).rows, base, m);
                passes(b, a) && kept(b, a, da, n as int) && word(a, da, n) == (if self.chosen(
                    b,
                    x.cond,
                ) {
                    self.word_of(b, x.a, n)
                } else {
                    self.word_of(b, x.b, n)
                })
            }),
    {
        let n = x.ty.bytes();
        let da = self.cx.slot(self.cx.fname(), x.dst@)->0;
        let b = exec(st.rows, base, m);
        match x.cond {
            Val::Const(k) => {
                let v = if k != 0 {
                    x.a
                } else {
                    x.b
                };
                self.lemma_move_from(st, v, n, da, 0, base, m);
                self.lemma_moved(st, v, n, da, base, m);
            },
            Val::Reg(r) => {
                let ca = self.cx.slot(self.cx.fname(), r@)->0;
                let l_else = st.next;
                let l_end = st.bump().next;
                let s0 = st.bump().bump();
                let s1 = s0.emit(movf(ca)).emit(note_z(BitOp::Btfsc)).emit(goto_tmp(l_else));
                assert(exec(s1.rows, base, m) == (Machine {
                    flow: if b.ram[ca] != 0 {
                        Flow::Next
                    } else {
                        Flow::Seek(Sym::Tmp(l_else))
                    },
                    w: b.ram[ca],
                    z: b.ram[ca] == 0,
                    cycles: exec(s1.rows, base, m).cycles,
                    ..b
                })) by {
                    broadcast use group_exec;

                }
                let s2 = self.move_from(s1, x.a, n, da, 0);
                let s3 = s2.emit(goto_tmp(l_end)).emit(label_tmp(l_else));
                let s4 = self.move_from(s3, x.b, n, da, 0);
                let s5 = s4.emit(label_tmp(l_end));
                assert(self.select_inst(st, x) == s5);
                if b.ram[ca] != 0 {
                    self.lemma_move_from(s1, x.a, n, da, 0, base, m);
                    self.lemma_moved(s1, x.a, n, da, base, m);
                    let c = exec(s2.rows, base, m);
                    assert(exec(s3.rows, base, m) == (Machine {
                        flow: Flow::Seek(Sym::Tmp(l_end)),
                        cycles: exec(s3.rows, base, m).cycles,
                        ..c
                    })) by {
                        broadcast use group_exec;

                    }
                    self.lemma_move_dropped(s3, x.b, n, da, 0, base, m);
                    assert(exec(s5.rows, base, m) == (Machine {
                        flow: Flow::Next,
                        ..exec(s3.rows, base, m)
                    })) by {
                        broadcast use group_exec;

                    }
                } else {
                    self.lemma_move_dropped(s1, x.a, n, da, 0, base, m);
                    assert(exec(s3.rows, base, m) == (Machine {
                        flow: Flow::Next,
                        ..exec(s1.rows, base, m)
                    })) by {
                        broadcast use group_exec;

                    }
                    self.lemma_move_from(s3, x.b, n, da, 0, base, m);
                    self.lemma_moved(s3, x.b, n, da, base, m);
                    assert(exec(s5.rows, base, m) == exec(s4.rows, base, m)) by {
                        broadcast use group_exec;

                    }
                }
            },
            Val::Global(_) => {},
        }
    }
}

} // verus!
