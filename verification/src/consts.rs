//! Constants and their address fields.
use vstd::prelude::*;
use crate::emit::{hi8, lo8};
use crate::ir::{Module, Ref};
use crate::line::{Imm, Sym};
use crate::names::AddrMap;

verus! {

/// The first of `refs[r..]` at byte `i`.
pub open spec fn ref_at(refs: Seq<Ref>, i: int, r: int) -> Option<usize>
    decreases refs.len() - r,
{
    if r < 0 || r >= refs.len() {
        None
    } else if refs[r].offset == i {
        Some(r as usize)
    } else {
        ref_at(refs, i, r + 1)
    }
}

pub fn find_ref(refs: &Vec<Ref>, i: usize) -> (r: Option<usize>)
    ensures
        r == ref_at(refs@, i as int, 0),
        r matches Some(k) ==> k < refs@.len(),
{
    let mut k: usize = 0;
    while k < refs.len()
        invariant
            k <= refs@.len(),
            ref_at(refs@, i as int, 0) == ref_at(refs@, i as int, k as int),
        decreases refs@.len() - k,
    {
        if refs[k].offset == i {
            return Some(k);
        }
        k += 1;
    }
    None
}

/// Whether the address map placed a constant in RAM.
pub open spec fn in_ram(m: &Module, addrs: &AddrMap, gi: int) -> bool {
    m.globals@[gi].is_const && addrs@.dom().contains(m.globals@[gi].name@)
}

/// The literal that byte `i` of global `gi` is made with. An address field
/// holds one byte of an address, the low one at even offsets: that of a
/// global in RAM is known, that of a function is a label literal.
pub open spec fn byte_imm(m: &Module, addrs: &AddrMap, gi: usize, i: int) -> Imm {
    let x = m.globals@[gi as int];
    match ref_at(x.refs@, i, 0) {
        Some(r) => {
            let name = x.refs@[r as int].name@;
            if addrs@.dom().contains(name) {
                let a = addrs@[name] as u32;
                Imm::Byte(
                    if i % 2 == 0 {
                        lo8(a)
                    } else {
                        hi8(a)
                    },
                )
            } else if i % 2 == 0 {
                Imm::Low(Sym::Field(gi, r))
            } else {
                Imm::High(Sym::Field(gi, r))
            }
        },
        None => Imm::Byte(x.bytes@[i]),
    }
}

pub fn make_byte(m: &Module, addrs: &AddrMap, gi: usize, i: usize) -> (r: Imm)
    requires
        gi < m.globals@.len(),
        i < m.globals@[gi as int].bytes@.len(),
    ensures
        r == byte_imm(m, addrs, gi, i as int),
{
    let x = &m.globals[gi];
    match find_ref(&x.refs, i) {
        Some(r) => match addrs.get(x.refs[r].name.as_str()) {
            Some(a) => Imm::Byte(
                if i % 2 == 0 {
                    lo8(*a as u32)
                } else {
                    hi8(*a as u32)
                },
            ),
            None => if i % 2 == 0 {
                Imm::Low(Sym::Field(gi, r))
            } else {
                Imm::High(Sym::Field(gi, r))
            },
        },
        None => Imm::Byte(x.bytes[i]),
    }
}

/// The words that initialise constants in RAM, two for each byte.
pub open spec fn init_words(m: &Module, addrs: &AddrMap, gi: int) -> nat
    decreases gi,
{
    if gi <= 0 {
        0
    } else {
        init_words(m, addrs, gi - 1) + (if in_ram(m, addrs, gi - 1) {
            2 * m.globals@[gi - 1].bytes@.len()
        } else {
            0
        })
    }
}

/// `n`, or one past `cap` if it is more.
pub open spec fn capped(n: nat, cap: usize) -> nat {
    if n > cap {
        (cap + 1) as nat
    } else {
        n
    }
}

/// A sum up to one past `cap`.
pub fn add_capped(a: usize, b: usize, cap: usize) -> (r: usize)
    requires
        cap <= 0x7FFF_FFFF,
    ensures
        r == capped((a + b) as nat, cap),
{
    if a > cap || b > cap || a + b > cap {
        cap + 1
    } else {
        a + b
    }
}

/// The words that initialise constants in RAM, up to one past `cap`.
pub fn count_init_words(m: &Module, addrs: &AddrMap, cap: usize) -> (r: usize)
    requires
        cap <= 0x7FFF_FFFF,
    ensures
        r == capped(init_words(m, addrs, m.globals@.len() as int), cap),
{
    let mut n: usize = 0;
    let mut gi: usize = 0;
    while gi < m.globals.len()
        invariant
            cap <= 0x7FFF_FFFF,
            gi <= m.globals@.len(),
            n == capped(init_words(m, addrs, gi as int), cap),
        decreases m.globals@.len() - gi,
    {
        if m.globals[gi].is_const && addrs.get(m.globals[gi].name.as_str()).is_some() {
            let len: usize = m.globals[gi].bytes.len();
            n = add_capped(add_capped(n, len, cap), len, cap);
        }
        gi += 1;
    }
    n
}

} // verus!
