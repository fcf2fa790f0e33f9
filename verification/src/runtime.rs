//! The closed set of runtime routines, by name.
use vstd::prelude::*;
use crate::text::same;

verus! {

/// A runtime routine. The number is the operand width in bytes.
#[derive(Clone, Copy, PartialEq, Eq, Structural, Debug)]
pub enum Routine {
    Mul(u8),
    UDiv(u8),
    URem(u8),
    SDiv(u8),
    SRem(u8),
    Shl(u8),
    LShr(u8),
    AShr(u8),
    AddF,
    SubF,
    MulF,
    DivF,
    OrderF,
    UintToF,
    IntToF,
    FToUint,
    FToInt,
}

/// `name` without a trailing `_isr`: the copy of a routine for interrupt
/// context shares the recipe of the routine.
pub open spec fn base_name(name: Seq<char>) -> Seq<char> {
    let n = name.len() - 4;
    if n >= 0 && name.skip(n) == "_isr"@ {
        name.take(n)
    } else {
        name
    }
}

pub open spec fn recipe(b: Seq<char>) -> Option<Routine> {
    if b == "__mul_u8"@ {
        Some(Routine::Mul(1))
    } else if b == "__mul_u16"@ {
        Some(Routine::Mul(2))
    } else if b == "__mul_u32"@ {
        Some(Routine::Mul(4))
    } else if b == "__udiv_u8"@ {
        Some(Routine::UDiv(1))
    } else if b == "__udiv_u16"@ {
        Some(Routine::UDiv(2))
    } else if b == "__udiv_u32"@ {
        Some(Routine::UDiv(4))
    } else if b == "__urem_u8"@ {
        Some(Routine::URem(1))
    } else if b == "__urem_u16"@ {
        Some(Routine::URem(2))
    } else if b == "__urem_u32"@ {
        Some(Routine::URem(4))
    } else if b == "__sdiv_i8"@ {
        Some(Routine::SDiv(1))
    } else if b == "__sdiv_i16"@ {
        Some(Routine::SDiv(2))
    } else if b == "__sdiv_i32"@ {
        Some(Routine::SDiv(4))
    } else if b == "__srem_i8"@ {
        Some(Routine::SRem(1))
    } else if b == "__srem_i16"@ {
        Some(Routine::SRem(2))
    } else if b == "__srem_i32"@ {
        Some(Routine::SRem(4))
    } else if b == "__shl_u8"@ {
        Some(Routine::Shl(1))
    } else if b == "__shl_u16"@ {
        Some(Routine::Shl(2))
    } else if b == "__shl_u32"@ {
        Some(Routine::Shl(4))
    } else if b == "__lshr_u8"@ {
        Some(Routine::LShr(1))
    } else if b == "__lshr_u16"@ {
        Some(Routine::LShr(2))
    } else if b == "__lshr_u32"@ {
        Some(Routine::LShr(4))
    } else if b == "__ashr_i8"@ {
        Some(Routine::AShr(1))
    } else if b == "__ashr_i16"@ {
        Some(Routine::AShr(2))
    } else if b == "__ashr_i32"@ {
        Some(Routine::AShr(4))
    } else if b == "__add_f32"@ {
        Some(Routine::AddF)
    } else if b == "__sub_f32"@ {
        Some(Routine::SubF)
    } else if b == "__mul_f32"@ {
        Some(Routine::MulF)
    } else if b == "__div_f32"@ {
        Some(Routine::DivF)
    } else if b == "__cmp_f32"@ {
        Some(Routine::OrderF)
    } else if b == "__uitofp_f32"@ {
        Some(Routine::UintToF)
    } else if b == "__sitofp_f32"@ {
        Some(Routine::IntToF)
    } else if b == "__fptoui_f32"@ {
        Some(Routine::FToUint)
    } else if b == "__fptosi_f32"@ {
        Some(Routine::FToInt)
    } else {
        None
    }
}

/// The recipe of a runtime routine; `None` for any other name.
pub open spec fn routine(name: Seq<char>) -> Option<Routine> {
    recipe(base_name(name))
}

fn base_of<'a>(name: &'a str) -> (r: &'a str)
    ensures
        r@ == base_name(name@),
{
    let n: usize = name.unicode_len();
    if n >= 4 {
        let tail = name.substring_char(n - 4, n);
        assert(tail@ =~= name@.skip(n - 4));
        if same(tail, "_isr") {
            let head = name.substring_char(0, n - 4);
            assert(head@ =~= name@.take(n - 4));
            return head;
        }
    }
    name
}

/// The recipe for a runtime routine name, or `None` for other names.
pub fn routine_recipe(name: &str) -> (r: Option<Routine>)
    ensures
        r == routine(name@),
{
    let b = base_of(name);
    if same(b, "__mul_u8") {
        Some(Routine::Mul(1))
    } else if same(b, "__mul_u16") {
        Some(Routine::Mul(2))
    } else if same(b, "__mul_u32") {
        Some(Routine::Mul(4))
    } else if same(b, "__udiv_u8") {
        Some(Routine::UDiv(1))
    } else if same(b, "__udiv_u16") {
        Some(Routine::UDiv(2))
    } else if same(b, "__udiv_u32") {
        Some(Routine::UDiv(4))
    } else if same(b, "__urem_u8") {
        Some(Routine::URem(1))
    } else if same(b, "__urem_u16") {
        Some(Routine::URem(2))
    } else if same(b, "__urem_u32") {
        Some(Routine::URem(4))
    } else if same(b, "__sdiv_i8") {
        Some(Routine::SDiv(1))
    } else if same(b, "__sdiv_i16") {
        Some(Routine::SDiv(2))
    } else if same(b, "__sdiv_i32") {
        Some(Routine::SDiv(4))
    } else if same(b, "__srem_i8") {
        Some(Routine::SRem(1))
    } else if same(b, "__srem_i16") {
        Some(Routine::SRem(2))
    } else if same(b, "__srem_i32") {
        Some(Routine::SRem(4))
    } else if same(b, "__shl_u8") {
        Some(Routine::Shl(1))
    } else if same(b, "__shl_u16") {
        Some(Routine::Shl(2))
    } else if same(b, "__shl_u32") {
        Some(Routine::Shl(4))
    } else if same(b, "__lshr_u8") {
        Some(Routine::LShr(1))
    } else if same(b, "__lshr_u16") {
        Some(Routine::LShr(2))
    } else if same(b, "__lshr_u32") {
        Some(Routine::LShr(4))
    } else if same(b, "__ashr_i8") {
        Some(Routine::AShr(1))
    } else if same(b, "__ashr_i16") {
        Some(Routine::AShr(2))
    } else if same(b, "__ashr_i32") {
        Some(Routine::AShr(4))
    } else if same(b, "__add_f32") {
        Some(Routine::AddF)
    } else if same(b, "__sub_f32") {
        Some(Routine::SubF)
    } else if same(b, "__mul_f32") {
        Some(Routine::MulF)
    } else if same(b, "__div_f32") {
        Some(Routine::DivF)
    } else if same(b, "__cmp_f32") {
        Some(Routine::OrderF)
    } else if same(b, "__uitofp_f32") {
        Some(Routine::UintToF)
    } else if same(b, "__sitofp_f32") {
        Some(Routine::IntToF)
    } else if same(b, "__fptoui_f32") {
        Some(Routine::FToUint)
    } else if same(b, "__fptosi_f32") {
        Some(Routine::FToInt)
    } else {
        None
    }
}

} // verus!
