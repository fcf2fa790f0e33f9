//! Shapes both selectors tell apart: conditions on flags, pointer terms, and
//! bytes ready for an unsigned comparison.
use vstd::prelude::*;
use crate::emit::{const_byte, note_c, note_z};
use crate::ir::{Pred, Term};
use crate::line::{BitOp, Line};

verus! {

/// A condition on the flags that a comparison leaves.
#[derive(Clone, Copy, PartialEq, Eq, Structural, Debug)]
pub enum Cond {
    Z,
    NotZ,
    C,
    NotC,
    CAndNotZ,
    NotCOrZ,
}

/// The skip that guards the provisional 1 for a condition.
#[verifier::allow_in_spec]
pub fn cond_skip(c: Cond) -> Line
    returns
        (match c {
            Cond::Z => note_z(BitOp::Btfsc),
            Cond::NotZ => note_z(BitOp::Btfss),
            Cond::C => note_c(BitOp::Btfsc),
            Cond::NotC => note_c(BitOp::Btfss),
            Cond::CAndNotZ => note_c(BitOp::Btfsc),
            Cond::NotCOrZ => note_c(BitOp::Btfss),
        }),
{
    match c {
        Cond::Z => note_z(BitOp::Btfsc),
        Cond::NotZ => note_z(BitOp::Btfss),
        Cond::C => note_c(BitOp::Btfsc),
        Cond::NotC => note_c(BitOp::Btfss),
        Cond::CAndNotZ => note_c(BitOp::Btfsc),
        Cond::NotCOrZ => note_c(BitOp::Btfss),
    }
}

/// The value that equality forces for a condition on both flags.
#[verifier::allow_in_spec]
pub fn cond_on_equal(c: Cond) -> Option<u8>
    returns
        (match c {
            Cond::CAndNotZ => Some(0u8),
            Cond::NotCOrZ => Some(1u8),
            _ => None,
        }),
{
    match c {
        Cond::CAndNotZ => Some(0),
        Cond::NotCOrZ => Some(1),
        _ => None,
    }
}

/// Whether the terms are at most two registers of scale one.
pub open spec fn plain_terms(terms: Seq<Term>) -> bool {
    terms.len() <= 2 && (terms.len() >= 1 ==> terms[0].scale == 1) && (terms.len() >= 2
        ==> terms[1].scale == 1)
}

pub fn are_plain(terms: &Vec<Term>) -> (r: bool)
    ensures
        r == plain_terms(terms@),
{
    terms.len() <= 2 && (terms.len() < 1 || terms[0].scale == 1) && (terms.len() < 2
        || terms[1].scale == 1)
}

/// Byte `i` of `k`, its sign bit flipped when `i` is the sign byte of a
/// signed comparison.
#[verifier::allow_in_spec]
pub fn ordered_byte(k: i64, i: u8, signed: bool, high: u8) -> u8
    returns
        (if signed && i == high {
            const_byte(k, i) ^ 0x80
        } else {
            const_byte(k, i)
        }),
{
    if signed && i == high {
        const_byte(k, i) ^ 0x80
    } else {
        const_byte(k, i)
    }
}

/// Whether a predicate orders its operands as signed numbers.
#[verifier::allow_in_spec]
pub fn is_signed(p: Pred) -> bool
    returns
        (match p {
            Pred::Slt | Pred::Sle | Pred::Sgt | Pred::Sge => true,
            _ => false,
        }),
{
    match p {
        Pred::Slt | Pred::Sle | Pred::Sgt | Pred::Sge => true,
        _ => false,
    }
}

/// The condition on the flags, C being `a >= b` and Z being `a == b`.
#[verifier::allow_in_spec]
pub fn cond_of(p: Pred) -> Cond
    returns
        (match p {
            Pred::Eq => Cond::Z,
            Pred::Ne => Cond::NotZ,
            Pred::Ult | Pred::Slt => Cond::NotC,
            Pred::Uge | Pred::Sge => Cond::C,
            Pred::Ugt | Pred::Sgt => Cond::CAndNotZ,
            Pred::Ule | Pred::Sle => Cond::NotCOrZ,
        }),
{
    match p {
        Pred::Eq => Cond::Z,
        Pred::Ne => Cond::NotZ,
        Pred::Ult | Pred::Slt => Cond::NotC,
        Pred::Uge | Pred::Sge => Cond::C,
        Pred::Ugt | Pred::Sgt => Cond::CAndNotZ,
        Pred::Ule | Pred::Sle => Cond::NotCOrZ,
    }
}

/// Whether a predicate needs both flags.
#[verifier::allow_in_spec]
pub fn needs_z(p: Pred) -> bool
    returns
        (match p {
            Pred::Ugt | Pred::Ule | Pred::Sgt | Pred::Sle => true,
            _ => false,
        }),
{
    match p {
        Pred::Ugt | Pred::Ule | Pred::Sgt | Pred::Sle => true,
        _ => false,
    }
}

} // verus!
