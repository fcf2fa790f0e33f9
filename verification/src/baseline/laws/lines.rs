//! Every line of a program has a source location.
use vstd::prelude::*;
use crate::baseline::select::{
    add_func, func_lines, funcs_from, header, preamble, program, Progress,
};
use crate::device::Device;
use crate::ir::Module;
use crate::names::{AddrMap, PtrMap};
use crate::output::module_asm;
use crate::pic14e::laws::tables::lemma_entries;

verus! {

proof fn lemma_funcs(
    device: &Device,
    m: &Module,
    addrs: &AddrMap,
    ptrs: &PtrMap,
    common: u16,
    acc: Progress,
    fi: int,
)
    requires
        acc.out.aligned(),
    ensures
        funcs_from(device, m, addrs, ptrs, common, acc, fi).out.aligned(),
    decreases m.funcs@.len() - fi,
{
    if 0 <= fi < m.funcs@.len() && acc.err is None {
        let st = func_lines(device, m, addrs, ptrs, common, acc.next, fi as usize);
        lemma_funcs(device, m, addrs, ptrs, common, add_func(m, acc, st), fi + 1);
    }
}

/// Every line of a program has its source location or a mark that it has none.
pub proof fn law_program_lines_have_locations(
    device: &Device,
    m: &Module,
    addrs: &AddrMap,
    ptrs: &PtrMap,
)
    ensures
        program(device, m, addrs, ptrs) matches Ok(p) ==> p.aligned(),
{
    if let Some((lo, hi)) = device.common_ram {
        lemma_entries(header(device).line("; module asm"@), m.module_asm@, 0);
        assert(module_asm(header(device), m).aligned());
        let pre = preamble(device, m, addrs, ptrs, lo);
        assert(pre.out.aligned());
        lemma_funcs(device, m, addrs, ptrs, lo, pre, 0);
    }
}

} // verus!
