//! A select, between numbers or between pointers.
use vstd::prelude::*;
use crate::emit::{at, const_byte, goto_tmp, hi8, label_tmp, lo8, movf, note_z, St};
use crate::ir::{Base, Inst, Select, Ty, Val};
use crate::line::{BitOp, Imm, Sym};
use crate::machine::{exec, group_exec, literal, Flow, Machine};
use crate::meaning::{apart, kept, passes, word};
use crate::pic14e::laws::memory::lemma_halves;
use crate::pic14e::laws::ready;
use crate::pic14e::Gen;
use crate::runs::{law_constant_bytes_write_the_constant, lemma_grown_seek, lemma_tidy_emit, tidy};

verus! {

impl<'a> Gen<'a> {
    /// Whether an operand is an address by itself: a constant, a global, a function,
    /// or a folded pointer without an offset that starts at a global or at the
    /// address a slot holds.
    pub open spec fn has_address(&self, v: Val) -> bool {
        match v {
            Val::Const(_) => true,
            Val::Global(g) => self.cx.is_func(g@) || self.placed(g@),
            Val::Reg(r) => match self.cx.pointer(r@) {
                Some(p) => p.k == 0 && p.terms@.len() == 0 && match p.base {
                    Base::Slot(s, indirect) => indirect && self.cx.slot(self.cx.fname(), s@) is Some,
                    Base::Global(name) => self.placed(name@),
                },
                None => false,
            },
        }
    }

    /// Whether the slot that an address comes from is that of `dst` or shares no byte
    /// with it.
    pub open spec fn address_stays(&self, v: Val, dst: u32) -> bool {
        &&& dst <= 0xFFFF
        &&& v matches Val::Reg(r) ==> (self.cx.pointer(r@)->0.base matches Base::Slot(s, _) ==> {
            let a = self.cx.slot(self.cx.fname(), s@)->0;
            a <= 0xFFFF && (a == dst || apart(a, 2, dst, 2))
        })
    }

    /// An address moved to `dst` arrives whole.
    pub(crate) proof fn lemma_address_moved(&self, st: St, v: Val, dst: u32, base: int, m: Machine)
        requires
            ready(st, base, m),
            st.err is None,
            self.has_address(v),
            self.address_stays(v, dst),
        ensures
            ({
                let b = exec(st.rows, base, m);
                let s = self.move_addr(st, v, dst);
                let a = exec(s.rows, base, m);
                &&& ready(s, base, m)
                &&& passes(b, a)
                &&& word(a, dst, 2) == self.value(b, v, 2)
                &&& kept(b, a, dst, 2)
            }),
    {
        assert(at(dst, 0) == dst);
        match v {
            Val::Const(k) => {
                law_constant_bytes_write_the_constant(k, 2);
                self.lemma_two_put(
                    st,
                    Imm::Byte(const_byte(k, 0)),
                    Imm::Byte(const_byte(k, 1)),
                    dst,
                    base,
                    m,
                );
            },
            Val::Global(g) => if self.cx.is_func(g@) {
                let f = Sym::Func(self.cx.func_no(g@));
                self.lemma_two_put(st, Imm::Low(f), Imm::High(f), dst, base, m);
            } else {
                self.lemma_global_put(st, g@, dst, base, m);
            },
            Val::Reg(r) => match self.cx.pointer(r@)->0.base {
                Base::Slot(n, _) => {
                    let sa = self.cx.slot(self.cx.fname(), n@)->0;
                    self.lemma_two_copied(st, sa, dst, base, m);
                },
                Base::Global(n) => {
                    self.lemma_global_put(st, n@, dst, base, m);
                },
            },
        }
    }

    /// Two literals arrive in the two bytes at `dst`.
    pub(crate) proof fn lemma_two_put(&self, st: St, lo: Imm, hi: Imm, dst: u32, base: int, m: Machine)
        requires
            ready(st, base, m),
            dst <= 0xFFFF,
        ensures
            ({
                let b = exec(st.rows, base, m);
                let s = self.put2(st, lo, hi, dst);
                let a = exec(s.rows, base, m);
                &&& ready(s, base, m)
                &&& passes(b, a)
                &&& word(a, dst, 2) == literal(b, lo) + 0x100 * literal(b, hi)
                &&& kept(b, a, dst, 2)
            }),
    {
        let b = exec(st.rows, base, m);
        let s = self.put2(st, lo, hi, dst);
        let a = exec(s.rows, base, m);
        assert(at(dst, 0) == dst);
        assert(ready(s, base, m) && passes(b, a) && a.ram == b.ram.insert(
            dst,
            literal(b, lo),
        ).insert(at(dst, 1), literal(b, hi))) by {
            broadcast use group_exec;

        }
    }

    /// Two bytes arrive in the two bytes at `dst`.
    pub(crate) proof fn lemma_two_copied(&self, st: St, src: u32, dst: u32, base: int, m: Machine)
        requires
            ready(st, base, m),
            src <= 0xFFFF,
            dst <= 0xFFFF,
            src == dst || apart(src, 2, dst, 2),
        ensures
            ({
                let b = exec(st.rows, base, m);
                let s = self.copy2(st, src, dst);
                let a = exec(s.rows, base, m);
                &&& ready(s, base, m)
                &&& passes(b, a)
                &&& word(a, dst, 2) == word(b, src, 2)
                &&& kept(b, a, dst, 2)
            }),
    {
        let b = exec(st.rows, base, m);
        let s = self.copy2(st, src, dst);
        let a = exec(s.rows, base, m);
        assert(at(dst, 0) == dst && at(src, 0) == src);
        assert(ready(s, base, m) && passes(b, a) && a.ram == b.ram.insert(
            dst,
            b.ram[src],
        ).insert(at(dst, 1), b.ram.insert(dst, b.ram[src])[at(src, 1)])) by {
            broadcast use group_exec;

        }
    }

    pub(crate) proof fn lemma_global_put(&self, st: St, name: Seq<char>, dst: u32, base: int, m: Machine)
        requires
            ready(st, base, m),
            self.placed(name),
            dst <= 0xFFFF,
        ensures
            ({
                let b = exec(st.rows, base, m);
                let s = self.put_global(st, name, 0, dst);
                let a = exec(s.rows, base, m);
                &&& ready(s, base, m)
                &&& passes(b, a)
                &&& word(a, dst, 2) == self.address(name)
                &&& kept(b, a, dst, 2)
            }),
    {
        self.lemma_value_step(st, name, 0);
        let v = self.address(name) as u32;
        lemma_halves(v);
        self.lemma_two_put(st, Imm::Byte(lo8(v)), Imm::Byte(hi8(v)), dst, base, m);
    }

    pub(crate) proof fn lemma_tidy_address(&self, st: St, v: Val, dst: u32)
        requires
            st.err is None,
            self.has_address(v),
        ensures
            tidy(st.rows, st.next, self.move_addr(st, v, dst)),
    {
        broadcast use lemma_tidy_emit;

        assert(tidy(st.rows, st.next, st));
        match v {
            Val::Global(g) => if !self.cx.is_func(g@) {
                self.lemma_value_step(st, g@, 0);
            },
            Val::Reg(r) => {
                if let Base::Global(name) = self.cx.pointer(r@)->0.base {
                    self.lemma_value_step(st, name@, 0);
                }
            },
            _ => {},
        }
    }

    /// Whether an arm of a select can be moved to the `n` bytes at `dst`: as an
    /// address where the result is one, else as a number.
    pub open spec fn arm_stands(&self, v: Val, n: u8, dst: u32, addr: bool) -> bool {
        if addr {
            n == 2 && self.has_address(v) && self.address_stays(v, dst)
        } else {
            self.has_bytes(v, n) && self.stays(v, n, dst)
        }
    }

    /// Whether an arm was moved to `dst` and nothing else changed.
    pub open spec fn arm_moved(&self, b: Machine, a: Machine, v: Val, n: u8, dst: u32, addr: bool) -> bool {
        &&& passes(b, a)
        &&& word(a, dst, n) == self.value(b, v, n)
        &&& addr ==> kept(b, a, dst, n as int)
        &&& self.only(b, a, v, dst, n as int)
    }

    proof fn lemma_arm(&self, st: St, v: Val, ty: Ty, n: u8, dst: u32, addr: bool, base: int, m: Machine)
        requires
            ready(st, base, m),
            st.err is None,
            n == (if addr {
                2
            } else {
                ty.bytes()
            }),
            self.arm_stands(v, n, dst, addr),
        ensures
            ({
                let s = self.select_arm(st, v, ty, dst, addr);
                &&& ready(s, base, m)
                &&& self.arm_moved(
                    exec(st.rows, base, m),
                    exec(s.rows, base, m),
                    v,
                    n,
                    dst,
                    addr,
                )
            }),
    {
        if addr {
            self.lemma_address_moved(st, v, dst, base, m);
        } else {
            self.lemma_value_moved(st, v, n, dst, base, m);
        }
    }

    proof fn lemma_tidy_arm(&self, st: St, v: Val, ty: Ty, n: u8, dst: u32, addr: bool)
        requires
            st.err is None,
            n == (if addr {
                2
            } else {
                ty.bytes()
            }),
            self.arm_stands(v, n, dst, addr),
        ensures
            tidy(st.rows, st.next, self.select_arm(st, v, ty, dst, addr)),
    {
        if addr {
            self.lemma_tidy_address(st, v, dst);
        } else {
            self.lemma_tidy_move(st.rows, st.next, st, v, n, dst, 0);
        }
    }

    /// A select leaves the value of the arm that its condition picks. Where its result
    /// is a pointer that a slot holds, that is the address the arm denotes: the two
    /// bytes of a slot that holds one, the address of a global or of a function.
    /// Nothing else changes, but for the parking byte where an address is added up.
    pub proof fn law_select_leaves_the_picked_arm(&self, st: St, x: Select, base: int, m: Machine)
        requires
            ready(st, base, m),
            st.err is None,
            st.next < u32::MAX - 1,
            !x.ptr || (x.a is Const && x.b is Const) || self.cx.seeded(x.dst@),
            x.cond is Const || (x.cond matches Val::Reg(r) && self.cx.slot(
                self.cx.fname(),
                r@,
            ) is Some),
            self.cx.slot(self.cx.fname(), x.dst@) is Some,
            ({
                let addr = self.cx.seeded(x.dst@);
                let n = if addr {
                    2
                } else {
                    x.ty.bytes()
                };
                let dst = self.cx.slot(self.cx.fname(), x.dst@)->0;
                self.arm_stands(x.a, n, dst, addr) && self.arm_stands(x.b, n, dst, addr)
            }),
        ensures
            ({
                let addr = self.cx.seeded(x.dst@);
                let n = if addr {
                    2
                } else {
                    x.ty.bytes()
                };
                let dst = self.cx.slot(self.cx.fname(), x.dst@)->0;
                let b = exec(st.rows, base, m);
                let s = self.inst(st, Inst::Select(x));
                let a = exec(s.rows, base, m);
                let picked = if self.chosen(b, x.cond) {
                    x.a
                } else {
                    x.b
                };
                &&& ready(s, base, m)
                &&& s.err is None
                &&& passes(b, a)
                &&& word(a, dst, n) == self.value(b, picked, n)
                &&& addr ==> kept(b, a, dst, 2)
                &&& self.only(b, a, picked, dst, n as int)
            }),
    {
        reveal(Gen::inst);
        let addr = self.cx.seeded(x.dst@);
        let n = if addr {
            2
        } else {
            x.ty.bytes()
        };
        let da = self.cx.slot(self.cx.fname(), x.dst@)->0;
        let b = exec(st.rows, base, m);
        match x.cond {
            Val::Const(k) => {
                let v = if k != 0 {
                    x.a
                } else {
                    x.b
                };
                self.lemma_arm(st, v, x.ty, n, da, addr, base, m);
                self.lemma_tidy_arm(st, v, x.ty, n, da, addr);
            },
            Val::Reg(r) => {
                let ca = self.cx.slot(self.cx.fname(), r@)->0;
                let l_else = st.next;
                let l_end = st.bump().next;
                let s0 = st.bump().bump();
                let s1 = s0.emit(movf(ca)).emit(note_z(BitOp::Btfsc)).emit(goto_tmp(l_else));
                assert(exec(s1.rows, base, m) == (Machine {
                    flow: if b.ram[ca] != 0 {
                        Flow::Next
                    } else {
                        Flow::Seek(Sym::Tmp(l_else))
                    },
                    w: b.ram[ca],
                    z: b.ram[ca] == 0,
                    cycles: exec(s1.rows, base, m).cycles,
                    ..b
                })) by {
                    broadcast use group_exec;

                }
                let s2 = self.select_arm(s1, x.a, x.ty, da, addr);
                self.lemma_tidy_arm(s1, x.a, x.ty, n, da, addr);
                let s3 = s2.emit(goto_tmp(l_end)).emit(label_tmp(l_else));
                let s4 = self.select_arm(s3, x.b, x.ty, da, addr);
                self.lemma_tidy_arm(s3, x.b, x.ty, n, da, addr);
                let s5 = s4.emit(label_tmp(l_end));
                assert(self.select_inst(st, x) == s5);
                if b.ram[ca] != 0 {
                    self.lemma_arm(s1, x.a, x.ty, n, da, addr, base, m);
                    let c = exec(s2.rows, base, m);
                    assert(exec(s3.rows, base, m) == (Machine {
                        flow: Flow::Seek(Sym::Tmp(l_end)),
                        cycles: exec(s3.rows, base, m).cycles,
                        ..c
                    })) by {
                        broadcast use group_exec;

                    }
                    lemma_grown_seek(s3.rows, s4.rows, base, m);
                    assert(exec(s5.rows, base, m) == (Machine {
                        flow: Flow::Next,
                        ..exec(s3.rows, base, m)
                    })) by {
                        broadcast use group_exec;

                    }
                } else {
                    lemma_grown_seek(s1.rows, s2.rows, base, m);
                    assert(exec(s3.rows, base, m) == (Machine {
                        flow: Flow::Next,
                        ..exec(s1.rows, base, m)
                    })) by {
                        broadcast use group_exec;

                    }
                    self.lemma_arm(s3, x.b, x.ty, n, da, addr, base, m);
                    assert(exec(s5.rows, base, m) == exec(s4.rows, base, m)) by {
                        broadcast use group_exec;

                    }
                }
            },
            Val::Global(_) => {},
        }
    }

    /// A select between pointers that is folded away takes no code.
    pub proof fn law_folded_select_takes_no_code(&self, st: St, x: Select)
        requires
            x.ptr,
            !(x.a is Const && x.b is Const),
            !self.cx.seeded(x.dst@),
        ensures
            self.inst(st, Inst::Select(x)) == st,
    {
        reveal(Gen::inst);
    }
}

} // verus!
