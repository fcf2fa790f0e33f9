//! A runtime routine, from the name of its function to the result it leaves.
use vstd::arithmetic::div_mod::lemma_mod_mod;
use vstd::prelude::*;
use crate::emit::{at, St};
use crate::ir::BinOp;
use crate::line::{Line, Sym};
use crate::machine::{exec, runs_to, Machine};
use crate::meaning::{
    apart, bin_value, limit, magnitude, quotient, remainder, signed, word,
};
use crate::pic14e::laws::float_div::quotient_slots;
use crate::pic14e::laws::float_from::nearest;
use crate::pic14e::laws::float_int::{convert_slots, integer};
use crate::pic14e::laws::float_mul::product_slots;
use crate::pic14e::laws::float_order::{float_order, order_slots};
use crate::pic14e::laws::float_parts::{is_finite_nonzero, sum_slots};
use crate::pic14e::laws::float_product::{exponent_holds, float_product};
use crate::pic14e::laws::float_quotient::{borrow_holds, float_quotient};
use crate::pic14e::laws::float_sum::float_sum;
use crate::pic14e::Gen;
use crate::runs::lemma_word_bytes;
use crate::runtime::{base_name, recipe, routine, Routine};

verus! {

/// The name of the routine for an operation on integers of `n` bytes.
pub open spec fn routine_name(op: BinOp, n: u8) -> Seq<char> {
    match op {
        BinOp::Mul => by_width(n, "__mul_u8"@, "__mul_u16"@, "__mul_u32"@),
        BinOp::UDiv => by_width(n, "__udiv_u8"@, "__udiv_u16"@, "__udiv_u32"@),
        BinOp::URem => by_width(n, "__urem_u8"@, "__urem_u16"@, "__urem_u32"@),
        BinOp::SDiv => by_width(n, "__sdiv_i8"@, "__sdiv_i16"@, "__sdiv_i32"@),
        BinOp::SRem => by_width(n, "__srem_i8"@, "__srem_i16"@, "__srem_i32"@),
        BinOp::Shl => by_width(n, "__shl_u8"@, "__shl_u16"@, "__shl_u32"@),
        BinOp::LShr => by_width(n, "__lshr_u8"@, "__lshr_u16"@, "__lshr_u32"@),
        _ => by_width(n, "__ashr_i8"@, "__ashr_i16"@, "__ashr_i32"@),
    }
}

pub open spec fn by_width(n: u8, a: Seq<char>, b: Seq<char>, c: Seq<char>) -> Seq<char> {
    if n == 1 {
        a
    } else if n == 2 {
        b
    } else {
        c
    }
}

/// Whether an operation has a routine of its own.
pub open spec fn has_routine(op: BinOp) -> bool {
    op == BinOp::Mul || op == BinOp::UDiv || op == BinOp::URem || op == BinOp::SDiv || op
        == BinOp::SRem || op == BinOp::Shl || op == BinOp::LShr || op == BinOp::AShr
}

/// Whether a name does not end like that of a copy for interrupts.
pub open spec fn plain_name(t: Seq<char>) -> bool {
    t.len() >= 4 && t[t.len() - 2] != 's'
}

/// What a routine gives for two operands of `n` bytes. A shift goes by its count modulo
/// the width, a signed division rounds toward zero.
pub open spec fn routine_value(op: BinOp, x: int, y: int, n: u8) -> int {
    match op {
        BinOp::Mul => (x * y) % limit(n),
        BinOp::UDiv => x / y,
        BinOp::URem => x % y,
        BinOp::SDiv => quotient(signed(x, n), signed(y, n)) % limit(n),
        BinOp::SRem => remainder(signed(x, n), signed(y, n)) % limit(n),
        _ => bin_value(op, x, y % 256 % (8 * n as int), n),
    }
}

/// Some of a name's characters, by which the names differ.
pub open spec fn marks(s: Seq<char>) -> (nat, char, char, char, char, char) {
    (s.len(), s[2], s[3], s[6], s[s.len() - 2], s[s.len() - 1])
}

/// Each name has the recipe that it says, and none of them ends like the name of a copy
/// for interrupts.
#[verifier::rlimit(100)]
proof fn lemma_recipes()
    ensures
        recipe("__mul_u8"@) == Some(Routine::Mul(1)),
        plain_name("__mul_u8"@),
        recipe("__mul_u16"@) == Some(Routine::Mul(2)),
        plain_name("__mul_u16"@),
        recipe("__mul_u32"@) == Some(Routine::Mul(4)),
        plain_name("__mul_u32"@),
        recipe("__udiv_u8"@) == Some(Routine::UDiv(1)),
        plain_name("__udiv_u8"@),
        recipe("__udiv_u16"@) == Some(Routine::UDiv(2)),
        plain_name("__udiv_u16"@),
        recipe("__udiv_u32"@) == Some(Routine::UDiv(4)),
        plain_name("__udiv_u32"@),
        recipe("__urem_u8"@) == Some(Routine::URem(1)),
        plain_name("__urem_u8"@),
        recipe("__urem_u16"@) == Some(Routine::URem(2)),
        plain_name("__urem_u16"@),
        recipe("__urem_u32"@) == Some(Routine::URem(4)),
        plain_name("__urem_u32"@),
        recipe("__sdiv_i8"@) == Some(Routine::SDiv(1)),
        plain_name("__sdiv_i8"@),
        recipe("__sdiv_i16"@) == Some(Routine::SDiv(2)),
        plain_name("__sdiv_i16"@),
        recipe("__sdiv_i32"@) == Some(Routine::SDiv(4)),
        plain_name("__sdiv_i32"@),
        recipe("__srem_i8"@) == Some(Routine::SRem(1)),
        plain_name("__srem_i8"@),
        recipe("__srem_i16"@) == Some(Routine::SRem(2)),
        plain_name("__srem_i16"@),
        recipe("__srem_i32"@) == Some(Routine::SRem(4)),
        plain_name("__srem_i32"@),
        recipe("__shl_u8"@) == Some(Routine::Shl(1)),
        plain_name("__shl_u8"@),
        recipe("__shl_u16"@) == Some(Routine::Shl(2)),
        plain_name("__shl_u16"@),
        recipe("__shl_u32"@) == Some(Routine::Shl(4)),
        plain_name("__shl_u32"@),
        recipe("__lshr_u8"@) == Some(Routine::LShr(1)),
        plain_name("__lshr_u8"@),
        recipe("__lshr_u16"@) == Some(Routine::LShr(2)),
        plain_name("__lshr_u16"@),
        recipe("__lshr_u32"@) == Some(Routine::LShr(4)),
        plain_name("__lshr_u32"@),
        recipe("__ashr_i8"@) == Some(Routine::AShr(1)),
        plain_name("__ashr_i8"@),
        recipe("__ashr_i16"@) == Some(Routine::AShr(2)),
        plain_name("__ashr_i16"@),
        recipe("__ashr_i32"@) == Some(Routine::AShr(4)),
        plain_name("__ashr_i32"@),
        recipe("__add_f32"@) == Some(Routine::AddF),
        plain_name("__add_f32"@),
        recipe("__sub_f32"@) == Some(Routine::SubF),
        plain_name("__sub_f32"@),
        recipe("__mul_f32"@) == Some(Routine::MulF),
        plain_name("__mul_f32"@),
        recipe("__div_f32"@) == Some(Routine::DivF),
        plain_name("__div_f32"@),
        recipe("__cmp_f32"@) == Some(Routine::OrderF),
        plain_name("__cmp_f32"@),
        recipe("__uitofp_f32"@) == Some(Routine::UintToF),
        plain_name("__uitofp_f32"@),
        recipe("__sitofp_f32"@) == Some(Routine::IntToF),
        plain_name("__sitofp_f32"@),
        recipe("__fptoui_f32"@) == Some(Routine::FToUint),
        plain_name("__fptoui_f32"@),
        recipe("__fptosi_f32"@) == Some(Routine::FToInt),
        plain_name("__fptosi_f32"@),
{
    reveal_strlit("__mul_u8");
    assert(marks("__mul_u8"@) == (8nat, 'm', 'u', 'u', 'u', '8'));
    reveal_strlit("__mul_u16");
    assert(marks("__mul_u16"@) == (9nat, 'm', 'u', 'u', '1', '6'));
    reveal_strlit("__mul_u32");
    assert(marks("__mul_u32"@) == (9nat, 'm', 'u', 'u', '3', '2'));
    reveal_strlit("__udiv_u8");
    assert(marks("__udiv_u8"@) == (9nat, 'u', 'd', '_', 'u', '8'));
    reveal_strlit("__udiv_u16");
    assert(marks("__udiv_u16"@) == (10nat, 'u', 'd', '_', '1', '6'));
    reveal_strlit("__udiv_u32");
    assert(marks("__udiv_u32"@) == (10nat, 'u', 'd', '_', '3', '2'));
    reveal_strlit("__urem_u8");
    assert(marks("__urem_u8"@) == (9nat, 'u', 'r', '_', 'u', '8'));
    reveal_strlit("__urem_u16");
    assert(marks("__urem_u16"@) == (10nat, 'u', 'r', '_', '1', '6'));
    reveal_strlit("__urem_u32");
    assert(marks("__urem_u32"@) == (10nat, 'u', 'r', '_', '3', '2'));
    reveal_strlit("__sdiv_i8");
    assert(marks("__sdiv_i8"@) == (9nat, 's', 'd', '_', 'i', '8'));
    reveal_strlit("__sdiv_i16");
    assert(marks("__sdiv_i16"@) == (10nat, 's', 'd', '_', '1', '6'));
    reveal_strlit("__sdiv_i32");
    assert(marks("__sdiv_i32"@) == (10nat, 's', 'd', '_', '3', '2'));
    reveal_strlit("__srem_i8");
    assert(marks("__srem_i8"@) == (9nat, 's', 'r', '_', 'i', '8'));
    reveal_strlit("__srem_i16");
    assert(marks("__srem_i16"@) == (10nat, 's', 'r', '_', '1', '6'));
    reveal_strlit("__srem_i32");
    assert(marks("__srem_i32"@) == (10nat, 's', 'r', '_', '3', '2'));
    reveal_strlit("__shl_u8");
    assert(marks("__shl_u8"@) == (8nat, 's', 'h', 'u', 'u', '8'));
    reveal_strlit("__shl_u16");
    assert(marks("__shl_u16"@) == (9nat, 's', 'h', 'u', '1', '6'));
    reveal_strlit("__shl_u32");
    assert(marks("__shl_u32"@) == (9nat, 's', 'h', 'u', '3', '2'));
    reveal_strlit("__lshr_u8");
    assert(marks("__lshr_u8"@) == (9nat, 'l', 's', '_', 'u', '8'));
    reveal_strlit("__lshr_u16");
    assert(marks("__lshr_u16"@) == (10nat, 'l', 's', '_', '1', '6'));
    reveal_strlit("__lshr_u32");
    assert(marks("__lshr_u32"@) == (10nat, 'l', 's', '_', '3', '2'));
    reveal_strlit("__ashr_i8");
    assert(marks("__ashr_i8"@) == (9nat, 'a', 's', '_', 'i', '8'));
    reveal_strlit("__ashr_i16");
    assert(marks("__ashr_i16"@) == (10nat, 'a', 's', '_', '1', '6'));
    reveal_strlit("__ashr_i32");
    assert(marks("__ashr_i32"@) == (10nat, 'a', 's', '_', '3', '2'));
    reveal_strlit("__add_f32");
    assert(marks("__add_f32"@) == (9nat, 'a', 'd', 'f', '3', '2'));
    reveal_strlit("__sub_f32");
    assert(marks("__sub_f32"@) == (9nat, 's', 'u', 'f', '3', '2'));
    reveal_strlit("__mul_f32");
    assert(marks("__mul_f32"@) == (9nat, 'm', 'u', 'f', '3', '2'));
    reveal_strlit("__div_f32");
    assert(marks("__div_f32"@) == (9nat, 'd', 'i', 'f', '3', '2'));
    reveal_strlit("__cmp_f32");
    assert(marks("__cmp_f32"@) == (9nat, 'c', 'm', 'f', '3', '2'));
    reveal_strlit("__uitofp_f32");
    assert(marks("__uitofp_f32"@) == (12nat, 'u', 'i', 'f', '3', '2'));
    reveal_strlit("__sitofp_f32");
    assert(marks("__sitofp_f32"@) == (12nat, 's', 'i', 'f', '3', '2'));
    reveal_strlit("__fptoui_f32");
    assert(marks("__fptoui_f32"@) == (12nat, 'f', 'p', 'u', '3', '2'));
    reveal_strlit("__fptosi_f32");
    assert(marks("__fptosi_f32"@) == (12nat, 'f', 'p', 's', '3', '2'));
}

/// The recipe of a routine for integers.
proof fn lemma_integer_recipe(op: BinOp, n: u8)
    requires
        has_routine(op),
        n == 1 || n == 2 || n == 4,
    ensures
        plain_name(routine_name(op, n)),
        recipe(routine_name(op, n)) == Some(
            match op {
                BinOp::Mul => Routine::Mul(n),
                BinOp::UDiv => Routine::UDiv(n),
                BinOp::URem => Routine::URem(n),
                BinOp::SDiv => Routine::SDiv(n),
                BinOp::SRem => Routine::SRem(n),
                BinOp::Shl => Routine::Shl(n),
                BinOp::LShr => Routine::LShr(n),
                _ => Routine::AShr(n),
            },
        ),
{
    lemma_recipes();
}

/// The recipes of the routines for floating-point numbers.
proof fn lemma_float_recipes()
    ensures
        recipe("__add_f32"@) == Some(Routine::AddF),
        plain_name("__add_f32"@),
        recipe("__sub_f32"@) == Some(Routine::SubF),
        plain_name("__sub_f32"@),
        recipe("__mul_f32"@) == Some(Routine::MulF),
        plain_name("__mul_f32"@),
        recipe("__div_f32"@) == Some(Routine::DivF),
        plain_name("__div_f32"@),
        recipe("__cmp_f32"@) == Some(Routine::OrderF),
        plain_name("__cmp_f32"@),
        recipe("__uitofp_f32"@) == Some(Routine::UintToF),
        plain_name("__uitofp_f32"@),
        recipe("__sitofp_f32"@) == Some(Routine::IntToF),
        plain_name("__sitofp_f32"@),
        recipe("__fptoui_f32"@) == Some(Routine::FToUint),
        plain_name("__fptoui_f32"@),
        recipe("__fptosi_f32"@) == Some(Routine::FToInt),
        plain_name("__fptosi_f32"@),
{
    lemma_recipes();
}

/// The low byte of a number.
proof fn lemma_low_byte(m: Machine, a: u32, n: u8)
    requires
        n == 1 || n == 2 || n == 4,
    ensures
        word(m, a, n) % 256 == m.ram[a],
        word(m, a, 1) == m.ram[a],
{
    assert(at(a, 0) == a);
    lemma_word_bytes(m, a, n, 0);
}

impl<'a> Gen<'a> {
    /// Whether the current function is the routine called `name`, or its copy for
    /// interrupts.
    pub open spec fn is_called(&self, name: Seq<char>) -> bool {
        self.cx.fname() == name || self.cx.fname() == name + "_isr"@
    }

    /// The slot of a local of the current function.
    pub open spec fn local(&self, name: Seq<char>) -> u32 {
        self.cx.slot(self.cx.fname(), name)->0
    }

    /// Whether the current function has these locals.
    pub open spec fn has_locals(&self, a: Seq<char>, b: Seq<char>) -> bool {
        &&& self.cx.slot(self.cx.fname(), a) is Some
        &&& self.cx.slot(self.cx.fname(), b) is Some
        &&& self.cx.slot(self.cx.fname(), "__scr"@) is Some
    }

    proof fn lemma_called(&self, name: Seq<char>)
        requires
            self.is_called(name),
            plain_name(name),
        ensures
            base_name(self.cx.fname()) == name,
    {
        reveal_strlit("_isr");
        let t = self.cx.fname();
        let n = t.len() - 4;
        if t == name {
            assert(t.skip(n)[2] == t[n + 2]);
            assert(t.skip(n) != "_isr"@);
        } else {
            assert(t.skip(n) =~= "_isr"@);
            assert(t.take(n) =~= name);
        }
    }

    /// Whether the lines of a routine, run from the one behind its label, leave `v` in
    /// the first `n` result bytes and leave.
    pub open spec fn routine_gives(&self, st: St, m: Machine, n: u8, v: int) -> bool {
        exists|y: Machine| #[trigger]
            runs_to(self.routine_step(st).rows, st.rows.len() as int + 1, m, y) && y.flow is Gone && word(
                y,
                self.retval,
                n,
            ) == v
    }

    /// The code of a routine behind its label.
    pub open spec fn routine_head(&self, st: St) -> St {
        st.emit(Line::Label(Sym::Func(self.cx.func)))
    }

    /// Whether the slots of a routine for integers are apart.
    pub open spec fn routine_slots(&self, op: BinOp, n: u8) -> bool {
        let scr = self.local("__scr"@);
        match op {
            BinOp::Mul => self.has_locals("a"@, "b"@) && (if n == 4 {
                self.long_slots(self.local("a"@), self.local("b"@), scr)
            } else {
                self.mul_slots(n, self.local("a"@), self.local("b"@), scr)
            }),
            BinOp::UDiv | BinOp::URem | BinOp::SDiv | BinOp::SRem => self.has_locals(
                "num"@,
                "den"@,
            ) && self.div_slots(n, self.local("num"@), self.local("den"@), scr),
            _ => self.has_locals("val"@, "cnt"@) && self.shift_slots(n, self.local("val"@), scr),
        }
    }

    /// The operands of a routine for integers: the numbers in its parameters.
    pub open spec fn routine_operands(&self, op: BinOp, n: u8, m: Machine) -> (int, int) {
        match op {
            BinOp::Mul => (word(m, self.local("a"@), n), word(m, self.local("b"@), n)),
            BinOp::UDiv | BinOp::URem | BinOp::SDiv | BinOp::SRem => (
                word(m, self.local("num"@), n),
                word(m, self.local("den"@), n),
            ),
            _ => (word(m, self.local("val"@), n), word(m, self.local("cnt"@), n)),
        }
    }

    /// A routine for integers leaves what its name says of the numbers in its
    /// parameters: the product, the quotient or the remainder, or the shifted number.
    pub proof fn law_integer_routine_computes(&self, st: St, op: BinOp, n: u8, m: Machine)
        requires
            has_routine(op),
            n == 1 || n == 2 || n == 4,
            self.is_called(routine_name(op, n)),
            self.routine_slots(op, n),
            st.next < u32::MAX - 10,
            m.flow is Next,
            m.core is Enhanced,
            op == BinOp::UDiv || op == BinOp::URem || op == BinOp::SDiv || op == BinOp::SRem
                ==> self.routine_operands(op, n, m).1 != 0,
        ensures
            ({
                let (x, y) = self.routine_operands(op, n, m);
                self.routine_gives(st, m, n, routine_value(op, x, y, n))
            }),
    {
        lemma_integer_recipe(op, n);
        self.lemma_called(routine_name(op, n));
        match op {
            BinOp::Mul => self.lemma_mul_routine(st, n, m),
            BinOp::UDiv | BinOp::URem => self.lemma_unsigned_routine(st, op, n, m),
            BinOp::SDiv | BinOp::SRem => self.lemma_signed_routine(st, op, n, m),
            _ => self.lemma_shift_routine(st, op, n, m),
        }
    }

    proof fn lemma_unsigned_routine(&self, st: St, op: BinOp, n: u8, m: Machine)
        requires
            op == BinOp::UDiv || op == BinOp::URem,
            n == 1 || n == 2 || n == 4,
            routine(self.cx.fname()) == Some(
                if op == BinOp::UDiv {
                    Routine::UDiv(n)
                } else {
                    Routine::URem(n)
                },
            ),
            self.routine_slots(op, n),
            st.next < u32::MAX - 10,
            m.flow is Next,
            m.core is Enhanced,
            word(m, self.local("den"@), n) != 0,
        ensures
            ({
                let (x, y) = self.routine_operands(op, n, m);
                self.routine_gives(st, m, n, routine_value(op, x, y, n))
            }),
    {
        reveal(Gen::routine_step);
        let s = self.routine_head(st);
        let scr = self.local("__scr"@);
        let (num, den) = (self.local("num"@), self.local("den"@));
        let quot = op == BinOp::UDiv;
        self.law_unsigned_div_divides(s, n, quot, num, den, scr, m);
        assert(self.routine_step(st) == self.unsigned_div(s, n, quot, num, den, scr));
    }

    proof fn lemma_signed_routine(&self, st: St, op: BinOp, n: u8, m: Machine)
        requires
            op == BinOp::SDiv || op == BinOp::SRem,
            n == 1 || n == 2 || n == 4,
            routine(self.cx.fname()) == Some(
                if op == BinOp::SDiv {
                    Routine::SDiv(n)
                } else {
                    Routine::SRem(n)
                },
            ),
            self.routine_slots(op, n),
            st.next < u32::MAX - 10,
            m.flow is Next,
            m.core is Enhanced,
            word(m, self.local("den"@), n) != 0,
        ensures
            ({
                let (x, y) = self.routine_operands(op, n, m);
                self.routine_gives(st, m, n, routine_value(op, x, y, n))
            }),
    {
        reveal(Gen::routine_step);
        let s = self.routine_head(st);
        let scr = self.local("__scr"@);
        let (num, den) = (self.local("num"@), self.local("den"@));
        let quot = op == BinOp::SDiv;
        self.law_signed_div_divides(s, n, quot, num, den, scr, m);
        assert(self.routine_step(st) == self.signed_div(s, n, quot, num, den, scr));
    }

    proof fn lemma_shift_routine(&self, st: St, op: BinOp, n: u8, m: Machine)
        requires
            op == BinOp::Shl || op == BinOp::LShr || op == BinOp::AShr,
            n == 1 || n == 2 || n == 4,
            routine(self.cx.fname()) == Some(
                match op {
                    BinOp::Shl => Routine::Shl(n),
                    BinOp::LShr => Routine::LShr(n),
                    _ => Routine::AShr(n),
                },
            ),
            self.routine_slots(op, n),
            st.next < u32::MAX - 10,
            m.flow is Next,
            m.core is Enhanced,
        ensures
            ({
                let (x, y) = self.routine_operands(op, n, m);
                self.routine_gives(st, m, n, routine_value(op, x, y, n))
            }),
    {
        reveal(Gen::routine_step);
        let s = self.routine_head(st);
        let scr = self.local("__scr"@);
        let (val, cnt) = (self.local("val"@), self.local("cnt"@));
        let t = self.one_bank(
            s,
            val,
            at(val, (n - 1) as u8),
            cnt,
            at(cnt, (n - 1) as u8),
            scr,
            at(scr, 1),
        );
        self.law_shift_routine_shifts(t, n, op, val, cnt, scr, m);
        assert(self.routine_step(st) == self.shift_body(t, n, op, val, cnt, scr));
        assert(at(cnt, 0) == cnt);
        lemma_low_byte(m, cnt, n);
    }

    proof fn lemma_mul_routine(&self, st: St, n: u8, m: Machine)
        requires
            n == 1 || n == 2 || n == 4,
            routine(self.cx.fname()) == Some(Routine::Mul(n)),
            self.routine_slots(BinOp::Mul, n),
            st.next < u32::MAX - 10,
            m.flow is Next,
            m.core is Enhanced,
        ensures
            self.routine_gives(
                st,
                m,
                n,
                (word(m, self.local("a"@), n) * word(m, self.local("b"@), n)) % limit(n),
            ),
    {
        reveal(Gen::routine_step);
        let s = self.routine_head(st);
        let scr = self.local("__scr"@);
        let (a, b) = (self.local("a"@), self.local("b"@));
        let (x, y) = (word(m, a, n), word(m, b, n));
        if n == 4 {
            let t = self.one_bank(s, a, at(a, 3), b, at(b, 3), scr, at(scr, 10));
            self.law_mul_long_multiplies(t, a, b, scr, m);
            assert(self.routine_step(st) == self.mul_long(t, a, b, scr));
        } else {
            let t = if n == 1 {
                self.one_bank(s, a, a, b, b, scr, at(scr, 5))
            } else {
                self.one_bank(s, a, at(a, 1), b, at(b, 1), scr, at(scr, 10))
            };
            self.law_mul_short_multiplies(t, n, a, b, scr, m);
            assert(self.routine_step(st) == self.mul_short(t, n, a, b, scr));
            let z = choose|z: Machine| #[trigger]
                runs_to(self.mul_short(t, n, a, b, scr).rows, t.rows.len() as int, m, z)
                    && z.flow is Gone && word(z, self.retval, 2) == (x * y) % limit(2);
            assert(runs_to(self.routine_step(st).rows, st.rows.len() as int + 1, m, z));
            if n == 1 {
                lemma_low_byte(z, self.retval, 2);
                lemma_mod_mod(x * y, 0x100, 0x100);
            }
        }
    }

    /// The routines for floating-point numbers leave the sum, the difference, the
    /// product and the quotient of finite numbers that are not zero, rounded to
    /// nearest.
    pub proof fn law_float_routine_computes(&self, st: St, m: Machine)
        requires
            st.next < u32::MAX - 70,
            m.flow is Next,
            m.core is Enhanced,
            self.has_locals("a"@, "b"@),
            is_finite_nonzero(word(m, self.local("a"@), 4)),
            is_finite_nonzero(word(m, self.local("b"@), 4)),
        ensures
            ({
                let (a, b, scr) = (self.local("a"@), self.local("b"@), self.local("__scr"@));
                let (x, y) = (word(m, a, 4), word(m, b, 4));
                &&& self.is_called("__add_f32"@) && sum_slots(a, b, scr, self.retval)
                    ==> self.routine_gives(st, m, 4, float_sum(x, y, false))
                &&& self.is_called("__sub_f32"@) && sum_slots(a, b, scr, self.retval)
                    ==> self.routine_gives(st, m, 4, float_sum(x, y, true))
                &&& self.is_called("__mul_f32"@) && product_slots(a, b, scr, self.retval)
                    && exponent_holds(x, y) ==> self.routine_gives(st, m, 4, float_product(x, y))
                &&& self.is_called("__div_f32"@) && quotient_slots(a, b, scr, self.retval)
                    && borrow_holds(x, y) ==> self.routine_gives(st, m, 4, float_quotient(x, y))
            }),
    {
        reveal(Gen::routine_step);
        lemma_float_recipes();
        let s = self.routine_head(st);
        let (a, b, scr) = (self.local("a"@), self.local("b"@), self.local("__scr"@));
        let (x, y) = (word(m, a, 4), word(m, b, 4));
        if self.is_called("__add_f32"@) && sum_slots(a, b, scr, self.retval) {
            self.lemma_called("__add_f32"@);
            let t = self.one_bank(s, a, at(a, 3), b, at(b, 3), scr, at(scr, 13));
            self.law_float_sum_is_nearest(t, a, b, scr, false, m);
            assert(self.routine_step(st) == self.float_sum_rows(t, a, b, scr, false));
        }
        if self.is_called("__sub_f32"@) && sum_slots(a, b, scr, self.retval) {
            self.lemma_called("__sub_f32"@);
            let t = self.one_bank(s, a, at(a, 3), b, at(b, 3), scr, at(scr, 13));
            self.law_float_sum_is_nearest(t, a, b, scr, true, m);
            assert(self.routine_step(st) == self.float_sum_rows(t, a, b, scr, true));
        }
        if self.is_called("__mul_f32"@) && product_slots(a, b, scr, self.retval) && exponent_holds(
            x,
            y,
        ) {
            self.lemma_called("__mul_f32"@);
            let t = self.one_bank(s, a, at(a, 3), b, at(b, 3), scr, at(scr, 13));
            self.law_float_product_is_nearest(t, a, b, scr, m);
            assert(self.routine_step(st) == self.mulf(t, a, b, scr));
        }
        if self.is_called("__div_f32"@) && quotient_slots(a, b, scr, self.retval) && borrow_holds(
            x,
            y,
        ) {
            self.lemma_called("__div_f32"@);
            let t = self.one_bank(s, a, at(a, 3), b, at(b, 3), scr, at(scr, 11));
            self.law_float_quotient_is_nearest(t, a, b, scr, m);
            assert(self.routine_step(st) == self.divf(t, a, b, scr));
        }
    }

    /// The comparison routine leaves how its two numbers compare.
    pub proof fn law_float_comparison_routine_orders(&self, st: St, m: Machine)
        requires
            self.is_called("__cmp_f32"@),
            st.next < u32::MAX - 10,
            m.flow is Next,
            m.core is Enhanced,
            self.has_locals("a"@, "b"@),
            self.local("__scr"@) <= 0xFFFF,
            order_slots(self.local("a"@), self.local("b"@), self.local("__scr"@)),
            order_slots(self.local("a"@), self.local("b"@), at(self.local("__scr"@), 1)),
        ensures
            ({
                let a = exec(self.routine_step(st).rows, st.rows.len() as int + 1, m);
                a.flow is Gone && a.ram[self.retval] == float_order(
                    word(m, self.local("a"@), 4),
                    word(m, self.local("b"@), 4),
                )
            }),
    {
        reveal(Gen::routine_step);
        lemma_float_recipes();
        self.lemma_called("__cmp_f32"@);
        let s = self.routine_head(st);
        let (a, b, scr) = (self.local("a"@), self.local("b"@), self.local("__scr"@));
        let t = self.one_bank(s, a, at(a, 3), b, at(b, 3), scr, at(scr, 5));
        self.law_float_comparison_orders(t, a, b, scr, m);
        assert(self.routine_step(st) == self.orderf(t, a, b, scr));
    }

    /// The conversion routines leave the number nearest to their integer, and the
    /// integer that their number becomes.
    pub proof fn law_conversion_routine_converts(&self, st: St, m: Machine)
        requires
            st.next < u32::MAX - 20,
            m.flow is Next,
            m.core is Enhanced,
            self.has_locals("val"@, "val"@),
            convert_slots(self.local("val"@), self.local("__scr"@), self.retval),
            apart(self.local("val"@), 4, self.retval, 4),
        ensures
            ({
                let x = word(m, self.local("val"@), 4);
                let v = signed(x, 4);
                &&& self.is_called("__uitofp_f32"@) ==> self.routine_gives(
                    st,
                    m,
                    4,
                    nearest(false, x),
                )
                &&& self.is_called("__sitofp_f32"@) ==> self.routine_gives(
                    st,
                    m,
                    4,
                    nearest(v < 0, magnitude(v)),
                )
                &&& self.is_called("__fptoui_f32"@) ==> self.routine_gives(
                    st,
                    m,
                    4,
                    integer(x, false),
                )
                &&& self.is_called("__fptosi_f32"@) ==> self.routine_gives(
                    st,
                    m,
                    4,
                    integer(x, true),
                )
            }),
    {
        reveal(Gen::routine_step);
        lemma_float_recipes();
        let s = self.routine_head(st);
        let (val, scr) = (self.local("val"@), self.local("__scr"@));
        let t = self.one_bank(s, val, at(val, 3), val, at(val, 3), scr, at(scr, 7));
        if self.is_called("__uitofp_f32"@) {
            self.lemma_called("__uitofp_f32"@);
            self.law_unsigned_becomes_a_float(t, val, scr, m);
            assert(self.routine_step(st) == self.utof(t, val, scr, false));
        }
        if self.is_called("__sitofp_f32"@) {
            self.lemma_called("__sitofp_f32"@);
            self.law_signed_becomes_a_float(t, val, scr, m);
            assert(self.routine_step(st) == self.utof(
                self.set_sign_aside(t, val, at(scr, 5)),
                val,
                scr,
                true,
            ));
        }
        if self.is_called("__fptoui_f32"@) {
            self.lemma_called("__fptoui_f32"@);
            self.law_float_becomes_an_integer(t, val, scr, false, m);
            assert(self.routine_step(st) == self.ftoi(t, val, scr, false));
        }
        if self.is_called("__fptosi_f32"@) {
            self.lemma_called("__fptosi_f32"@);
            self.law_float_becomes_an_integer(t, val, scr, true, m);
            assert(self.routine_step(st) == self.ftoi(t, val, scr, true));
        }
    }
}

} // verus!
