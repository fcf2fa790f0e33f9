//! A select, between numbers or between pointers.
use vstd::prelude::*;
use crate::baseline::laws::passing::lemma_six_bits;
use crate::baseline::Gen;
use crate::emit::{at, const_byte, goto_tmp, label_tmp, movlw, note_z, Row, St};
use crate::ir::{Base, Inst, Select, Ty, Val};
use crate::line::{BitOp, Imm, Line, LitOp, Op, Sym};
use crate::machine::{exec, group_exec, literal, Flow, Machine};
use crate::meaning::{kept, passes, word};
use crate::runs::{
    law_constant_bytes_write_the_constant, lemma_grown_seek, lemma_tidy_emit, tidy,
};

verus! {

impl<'a> Gen<'a> {
    /// Whether an operand is an address by itself: a constant of one byte, a global, a
    /// function, or a folded pointer without an offset that starts at a global or at
    /// the address a slot holds.
    pub open spec fn has_address(&self, v: Val) -> bool {
        match v {
            Val::Const(k) => 0 <= k <= 0xFF,
            Val::Global(g) => self.cx.is_func(g@) || (self.cx.global(g@) matches Some(a) && a
                <= 0x3F),
            Val::Reg(r) => match self.cx.pointer(r@) {
                Some(p) => p.k == 0 && p.terms@.len() == 0 && match p.base {
                    Base::Slot(s, indirect) => indirect && (self.cx.slot(
                        self.cx.fname(),
                        s@,
                    ) matches Some(a) && self.sound(a)),
                    Base::Global(name) => self.cx.global(name@) matches Some(a) && a <= 0x3F,
                },
                None => false,
            },
        }
    }

    /// A literal arrives as an address.
    pub(crate) proof fn lemma_literal_put(&self, st: St, i: Imm, dst: u32, base: int, m: Machine)
        requires
            self.at_row(st, base, m),
            st.err is None,
            self.sound_bytes(dst, 2),
        ensures
            ({
                let b = exec(st.rows, base, m);
                let s = self.put_addr(st, i, dst);
                let a = exec(s.rows, base, m);
                &&& self.at_row(s, base, m)
                &&& passes(b, a)
                &&& word(a, dst, 2) == literal(b, i)
                &&& kept(b, a, dst, 2)
            }),
    {
        let s1 = st.emit(Line::Lit(LitOp::Movlw, i));
        self.lemma_literal(st, i, base, m);
        self.lemma_close_addr(s1, dst, base, m);
        assert(self.put_addr(st, i, dst) == self.close_addr(s1, dst));
    }

    pub(crate) proof fn lemma_tidy_close(&self, r0: Seq<Row>, next: u32, st: St, dst: u32)
        requires
            tidy(r0, next, st),
            self.sound_bytes(dst, 2),
        ensures
            tidy(r0, next, self.close_addr(st, dst)),
    {
        assert(at(dst, 0) == dst);
        assert(self.sound(at(dst, 0)) && self.sound(at(dst, 1)));
        self.lemma_tidy_access(r0, next, st, Op::Movf, dst);
        let s1 = self.w_store(st, dst);
        lemma_tidy_emit(r0, next, s1, movlw(0));
        self.lemma_tidy_access(r0, next, s1.emit(movlw(0)), Op::Movf, at(dst, 1));
    }

    pub(crate) proof fn lemma_tidy_put(&self, r0: Seq<Row>, next: u32, st: St, i: Imm, dst: u32)
        requires
            tidy(r0, next, st),
            self.sound_bytes(dst, 2),
        ensures
            tidy(r0, next, self.put_addr(st, i, dst)),
    {
        let s1 = st.emit(Line::Lit(LitOp::Movlw, i));
        lemma_tidy_emit(r0, next, st, Line::Lit(LitOp::Movlw, i));
        self.lemma_tidy_close(r0, next, s1, dst);
        assert(self.put_addr(st, i, dst) == self.close_addr(s1, dst));
    }

    /// An address moved to `dst` arrives whole.
    proof fn lemma_address_moved(&self, st: St, v: Val, dst: u32, base: int, m: Machine)
        requires
            self.at_row(st, base, m),
            st.err is None,
            self.has_address(v),
            self.sound_bytes(dst, 2),
        ensures
            ({
                let b = exec(st.rows, base, m);
                let s = self.move_addr(st, v, dst);
                let a = exec(s.rows, base, m);
                &&& self.at_row(s, base, m)
                &&& passes(b, a)
                &&& word(a, dst, 2) == self.value(b, v, 2)
                &&& kept(b, a, dst, 2)
            }),
    {
        let b = exec(st.rows, base, m);
        match v {
            Val::Const(k) => {
                law_constant_bytes_write_the_constant(k, 1);
                self.lemma_literal_put(st, Imm::Byte(const_byte(k, 0)), dst, base, m);
            },
            Val::Global(g) => if self.cx.is_func(g@) {
                let f = Sym::Func(self.cx.func_no(g@));
                self.lemma_literal_put(st, Imm::Low(f), dst, base, m);
            } else {
                let a = self.cx.global(g@)->0;
                lemma_six_bits(a);
                self.lemma_literal_put(st, Imm::Byte(a as u8), dst, base, m);
            },
            Val::Reg(r) => {
                let p = self.cx.pointer(r@)->0;
                self.lemma_no_terms(b, p);
                match p.base {
                    Base::Slot(n, _) => {
                        let sa = self.cx.slot(self.cx.fname(), n@)->0;
                        self.lemma_w_load(st, sa, base, m);
                        let s1 = self.w_load(st, sa);
                        self.lemma_close_addr(s1, dst, base, m);
                        assert(self.move_addr(st, v, dst) == self.close_addr(s1, dst));
                    },
                    Base::Global(n) => {
                        let a = self.cx.global(n@)->0;
                        lemma_six_bits(a);
                        self.lemma_literal_put(st, Imm::Byte(a as u8), dst, base, m);
                    },
                }
            },
        }
    }

    proof fn lemma_tidy_address(&self, st: St, v: Val, dst: u32)
        requires
            st.err is None,
            self.has_address(v),
            self.sound_bytes(dst, 2),
        ensures
            tidy(st.rows, st.next, self.move_addr(st, v, dst)),
    {
        let (r0, next) = (st.rows, st.next);
        match v {
            Val::Const(k) => {
                self.lemma_tidy_put(r0, next, st, Imm::Byte(const_byte(k, 0)), dst);
            },
            Val::Global(g) => if self.cx.is_func(g@) {
                let f = Sym::Func(self.cx.func_no(g@));
                self.lemma_tidy_put(r0, next, st, Imm::Low(f), dst);
            } else {
                let a = self.cx.global(g@)->0;
                self.lemma_tidy_put(r0, next, st, Imm::Byte((a & 0x3F) as u8), dst);
            },
            Val::Reg(r) => {
                let p = self.cx.pointer(r@)->0;
                match p.base {
                    Base::Slot(n, _) => {
                        let sa = self.cx.slot(self.cx.fname(), n@)->0;
                        self.lemma_tidy_access(r0, next, st, Op::Movf, sa);
                        let s1 = self.w_load(st, sa);
                        self.lemma_tidy_close(r0, next, s1, dst);
                        assert(self.move_addr(st, v, dst) == self.close_addr(s1, dst));
                    },
                    Base::Global(n) => {
                        let a = self.cx.global(n@)->0;
                        self.lemma_tidy_put(r0, next, st, Imm::Byte((a & 0x3F) as u8), dst);
                    },
                }
            },
        }
    }

    /// Whether an arm of a select can be moved to the `n` bytes at `dst`: as an
    /// address where the result is one, else as a number.
    pub open spec fn arm_stands(&self, m: Machine, v: Val, n: u8, dst: u32, addr: bool) -> bool {
        if addr {
            n == 2 && self.has_address(v) && self.sound_bytes(dst, 2)
        } else {
            self.has_bytes(m, v, n) && self.stays(v, n, dst)
        }
    }

    /// Whether an arm was moved to `dst` and nothing else changed.
    pub open spec fn arm_moved(&self, b: Machine, a: Machine, v: Val, n: u8, dst: u32, addr: bool) -> bool {
        &&& passes(b, a)
        &&& word(a, dst, n) == self.value(b, v, n)
        &&& addr ==> kept(b, a, dst, n as int)
        &&& self.only(b, a, v, dst, n as int)
    }

    proof fn lemma_arm(&self, st: St, v: Val, ty: Ty, n: u8, dst: u32, addr: bool, base: int, m: Machine)
        requires
            self.at_row(st, base, m),
            st.err is None,
            n == (if addr {
                2
            } else {
                ty.bytes()
            }),
            self.arm_stands(exec(st.rows, base, m), v, n, dst, addr),
        ensures
            ({
                let s = self.select_arm(st, v, ty, dst, addr);
                &&& self.at_row(s, base, m)
                &&& self.arm_moved(
                    exec(st.rows, base, m),
                    exec(s.rows, base, m),
                    v,
                    n,
                    dst,
                    addr,
                )
            }),
    {
        if addr {
            self.lemma_address_moved(st, v, dst, base, m);
        } else {
            self.lemma_value_moved(st, v, n, dst, base, m);
        }
    }

    proof fn lemma_tidy_arm(&self, st: St, v: Val, ty: Ty, n: u8, dst: u32, addr: bool, m: Machine)
        requires
            st.err is None,
            n == (if addr {
                2
            } else {
                ty.bytes()
            }),
            self.arm_stands(m, v, n, dst, addr),
        ensures
            tidy(st.rows, st.next, self.select_arm(st, v, ty, dst, addr)),
    {
        if addr {
            self.lemma_tidy_address(st, v, dst);
        } else {
            self.lemma_tidy_move(st.rows, st.next, st, v, n, dst, 0, m);
        }
    }

    /// An arm is the same in machines with the same RAM.
    proof fn lemma_same_arm(&self, b: Machine, c: Machine, v: Val, n: u8, dst: u32, addr: bool)
        requires
            c.ram == b.ram,
            c.links == b.links,
            self.arm_stands(b, v, n, dst, addr),
        ensures
            self.arm_stands(c, v, n, dst, addr),
            self.value(c, v, n) == self.value(b, v, n),
    {
        if let Val::Reg(r) = v {
            if let Some(p) = self.cx.pointer(r@) {
                self.lemma_same_ram(b, c, p.terms@, 0);
            }
        }
    }

    /// A select leaves the value of the arm that its condition picks. Where its result
    /// is a pointer that a slot holds, that is the address the arm denotes: the byte of
    /// a slot that holds one, the address of a global or of a function. Nothing else
    /// changes, but for the fixed bytes where an address is added up.
    pub proof fn law_select_leaves_the_picked_arm(&self, st: St, x: Select, base: int, m: Machine)
        requires
            self.at_row(st, base, m),
            st.err is None,
            st.next < u32::MAX - 1,
            !x.ptr || (x.a is Const && x.b is Const) || self.cx.seeded(x.dst@),
            x.cond is Const || (x.cond matches Val::Reg(r) && (self.cx.slot(
                self.cx.fname(),
                r@,
            ) matches Some(ca) && self.sound(ca))),
            self.cx.slot(self.cx.fname(), x.dst@) is Some,
            ({
                let addr = self.cx.seeded(x.dst@);
                let n = if addr {
                    2
                } else {
                    x.ty.bytes()
                };
                let dst = self.cx.slot(self.cx.fname(), x.dst@)->0;
                let b = exec(st.rows, base, m);
                self.arm_stands(b, x.a, n, dst, addr) && self.arm_stands(b, x.b, n, dst, addr)
            }),
        ensures
            ({
                let addr = self.cx.seeded(x.dst@);
                let n = if addr {
                    2
                } else {
                    x.ty.bytes()
                };
                let dst = self.cx.slot(self.cx.fname(), x.dst@)->0;
                let b = exec(st.rows, base, m);
                let s = self.inst(st, Inst::Select(x));
                let a = exec(s.rows, base, m);
                let picked = if self.chosen(b, x.cond) {
                    x.a
                } else {
                    x.b
                };
                &&& self.at_row(s, base, m)
                &&& s.err is None
                &&& passes(b, a)
                &&& word(a, dst, n) == self.value(b, picked, n)
                &&& addr ==> kept(b, a, dst, 2)
                &&& self.only(b, a, picked, dst, n as int)
            }),
    {
        reveal(Gen::inst);
        let addr = self.cx.seeded(x.dst@);
        let n = if addr {
            2
        } else {
            x.ty.bytes()
        };
        let da = self.cx.slot(self.cx.fname(), x.dst@)->0;
        let b = exec(st.rows, base, m);
        match x.cond {
            Val::Const(k) => {
                let v = if k != 0 {
                    x.a
                } else {
                    x.b
                };
                self.lemma_arm(st, v, x.ty, n, da, addr, base, m);
                self.lemma_tidy_arm(st, v, x.ty, n, da, addr, b);
            },
            Val::Reg(r) => {
                let ca = self.cx.slot(self.cx.fname(), r@)->0;
                let l_else = st.next;
                let l_end = st.bump().next;
                let s00 = st.bump().bump();
                let s0 = self.acc_w(s00, Op::Movf, ca);
                self.lemma_acc_w(s00, Op::Movf, ca, base, m);
                self.lemma_tidy_access(s00.rows, s00.next, s00, Op::Movf, ca);
                let m0 = exec(s0.rows, base, m);
                let s1 = s0.emit(note_z(BitOp::Btfsc)).emit(goto_tmp(l_else));
                let m1 = exec(s1.rows, base, m);
                assert(m1 == (Machine {
                    flow: if b.ram[ca] != 0 {
                        Flow::Next
                    } else {
                        Flow::Seek(Sym::Tmp(l_else))
                    },
                    cycles: m1.cycles,
                    ..m0
                })) by {
                    broadcast use group_exec;

                }
                self.lemma_same_arm(b, m1, x.a, n, da, addr);
                self.lemma_same_arm(b, m1, x.b, n, da, addr);
                let s2 = self.select_arm(s1, x.a, x.ty, da, addr);
                self.lemma_tidy_arm(s1, x.a, x.ty, n, da, addr, b);
                let s3 = s2.emit(goto_tmp(l_end)).emit(label_tmp(l_else));
                let s4 = self.select_arm(s3, x.b, x.ty, da, addr);
                self.lemma_tidy_arm(s3, x.b, x.ty, n, da, addr, b);
                let s5 = s4.emit(label_tmp(l_end));
                assert(self.select_inst(st, x) == s5);
                if b.ram[ca] != 0 {
                    self.lemma_arm(s1, x.a, x.ty, n, da, addr, base, m);
                    let c = exec(s2.rows, base, m);
                    assert(exec(s3.rows, base, m) == (Machine {
                        flow: Flow::Seek(Sym::Tmp(l_end)),
                        cycles: exec(s3.rows, base, m).cycles,
                        ..c
                    })) by {
                        broadcast use group_exec;

                    }
                    lemma_grown_seek(s3.rows, s4.rows, base, m);
                    assert(exec(s5.rows, base, m) == (Machine {
                        flow: Flow::Next,
                        ..exec(s3.rows, base, m)
                    })) by {
                        broadcast use group_exec;

                    }
                } else {
                    lemma_grown_seek(s1.rows, s2.rows, base, m);
                    let d = exec(s3.rows, base, m);
                    assert(d == (Machine { flow: Flow::Next, ..m1 })) by {
                        broadcast use group_exec;

                    }
                    self.lemma_same_arm(b, d, x.b, n, da, addr);
                    self.lemma_arm(s3, x.b, x.ty, n, da, addr, base, m);
                    assert(exec(s5.rows, base, m) == exec(s4.rows, base, m)) by {
                        broadcast use group_exec;

                    }
                }
            },
            Val::Global(_) => {},
        }
    }

    /// A select between pointers that is folded away takes no code.
    pub proof fn law_folded_select_takes_no_code(&self, st: St, x: Select)
        requires
            x.ptr,
            !(x.a is Const && x.b is Const),
            !self.cx.seeded(x.dst@),
        ensures
            self.inst(st, Inst::Select(x)) == st,
    {
        reveal(Gen::inst);
    }
}

} // verus!
