//! The whole program: every function and the assembly at module level stand in it, and
//! its reset code puts every constant where it is read.
use vstd::prelude::*;
use crate::baseline::select::{
    add_func, func_lines, funcs_from, gen_for, header, init_bytes, init_from, preamble, program,
    start_block, Progress,
};
use crate::baseline::Gen;
use crate::consts::{byte_imm, in_ram};
use crate::device::Device;
use crate::emit::St;
use crate::ir::Module;
use crate::line::{Line, LitOp};
use crate::machine::{exec, literal, Machine};
use crate::meaning::{kept, passes};
use crate::names::{AddrMap, PtrMap};
use crate::output::{module_asm, row_lines};
use crate::text::split_lines;
use crate::whole::{holds_run, law_assembly_stands_as_written, lemma_last, lemma_more};

verus! {

/// Where the common RAM starts.
pub open spec fn common_of(device: &Device) -> u16 {
    match device.common_ram {
        Some((lo, _)) => lo,
        None => 0,
    }
}

/// What stands in the program so far stands in it with more functions.
proof fn lemma_funcs_keep(
    device: &Device,
    m: &Module,
    addrs: &AddrMap,
    ptrs: &PtrMap,
    common: u16,
    acc: Progress,
    fi: int,
    run: Seq<Seq<char>>,
)
    requires
        holds_run(acc.out.lines, run),
    ensures
        holds_run(funcs_from(device, m, addrs, ptrs, common, acc, fi).out.lines, run),
    decreases m.funcs@.len() - fi,
{
    if 0 <= fi < m.funcs@.len() && acc.err is None {
        let st = func_lines(device, m, addrs, ptrs, common, acc.next, fi as usize);
        lemma_more(acc.out.lines, row_lines(m, st), run);
        let next = add_func(m, acc, st);
        lemma_funcs_keep(device, m, addrs, ptrs, common, next, fi + 1, run);
    }
}

proof fn lemma_funcs(
    device: &Device,
    m: &Module,
    addrs: &AddrMap,
    ptrs: &PtrMap,
    common: u16,
    acc: Progress,
    k: int,
    fi: int,
)
    requires
        0 <= k <= fi < m.funcs@.len(),
        funcs_from(device, m, addrs, ptrs, common, acc, k).err is None,
    ensures
        exists|next: u32| #[trigger]
            holds_run(
                funcs_from(device, m, addrs, ptrs, common, acc, k).out.lines,
                row_lines(m, func_lines(device, m, addrs, ptrs, common, next, fi as usize)),
            ),
    decreases fi - k,
{
    let st = func_lines(device, m, addrs, ptrs, common, acc.next, k as usize);
    let next = add_func(m, acc, st);
    if k < fi {
        lemma_funcs(device, m, addrs, ptrs, common, next, k + 1, fi);
    } else {
        let run = row_lines(m, st);
        lemma_last(acc.out.lines, run);
        lemma_funcs_keep(device, m, addrs, ptrs, common, next, k + 1, run);
    }
}

/// The code of every function stands in the program, line behind line.
pub proof fn law_program_holds_every_function(
    device: &Device,
    m: &Module,
    addrs: &AddrMap,
    ptrs: &PtrMap,
    fi: usize,
)
    requires
        fi < m.funcs@.len(),
        program(device, m, addrs, ptrs) is Ok,
    ensures
        device.common_ram is Some,
        exists|next: u32| #[trigger]
            holds_run(
                program(device, m, addrs, ptrs)->Ok_0.lines,
                row_lines(
                    m,
                    func_lines(device, m, addrs, ptrs, common_of(device), next, fi),
                ),
            ),
{
    let lo = common_of(device);
    let pre = preamble(device, m, addrs, ptrs, lo);
    let p = funcs_from(device, m, addrs, ptrs, lo, pre, 0);
    lemma_funcs(device, m, addrs, ptrs, lo, pre, 0, fi as int);
    let n = choose|n: u32| #[trigger]
        holds_run(p.out.lines, row_lines(m, func_lines(device, m, addrs, ptrs, lo, n, fi)));
    let run = row_lines(m, func_lines(device, m, addrs, ptrs, lo, n, fi));
    lemma_more(p.out.lines, seq!["    end"@], run);
    assert(program(device, m, addrs, ptrs)->Ok_0.lines =~= p.out.lines + seq!["    end"@]);
}

/// The assembly at module level stands in the program, line behind line, as it was
/// written; and so does the reset code.
pub proof fn law_program_holds_its_assembly(
    device: &Device,
    m: &Module,
    addrs: &AddrMap,
    ptrs: &PtrMap,
    e: int,
)
    requires
        program(device, m, addrs, ptrs) is Ok,
    ensures
        device.common_ram is Some,
        0 <= e < m.module_asm@.len() ==> holds_run(
            program(device, m, addrs, ptrs)->Ok_0.lines,
            split_lines(m.module_asm@[e]@),
        ),
        holds_run(
            program(device, m, addrs, ptrs)->Ok_0.lines,
            row_lines(
                m,
                start_block(
                    gen_for(device, m, addrs, ptrs, common_of(device), 0),
                    St::start(0),
                ),
            ),
        ),
{
    let lo = common_of(device);
    let pre = preamble(device, m, addrs, ptrs, lo);
    let p = funcs_from(device, m, addrs, ptrs, lo, pre, 0);
    let start = row_lines(m, start_block(gen_for(device, m, addrs, ptrs, lo, 0), St::start(0)));
    let before = module_asm(header(device), m);
    assert(program(device, m, addrs, ptrs)->Ok_0.lines =~= p.out.lines + seq!["    end"@]);
    lemma_last(before.lines, start);
    lemma_funcs_keep(device, m, addrs, ptrs, lo, pre, 0, start);
    lemma_more(p.out.lines, seq!["    end"@], start);
    if 0 <= e < m.module_asm@.len() {
        let run = split_lines(m.module_asm@[e]@);
        law_assembly_stands_as_written(header(device), m, e, run);
        lemma_more(before.lines, start, run);
        lemma_funcs_keep(device, m, addrs, ptrs, lo, pre, 0, run);
        lemma_more(p.out.lines, seq!["    end"@], run);
    }
}

/// A program is selected only if the bytes that every function uses lie in the common
/// RAM, one apart from the other: that of a comparison, the four of a result, and two for
/// intermediate values. Seven bytes are enough; and no handler can be lowered.
pub proof fn law_fixed_bytes_lie_in_the_common_ram(
    device: &Device,
    m: &Module,
    addrs: &AddrMap,
    ptrs: &PtrMap,
    func: usize,
)
    requires
        program(device, m, addrs, ptrs) is Ok,
    ensures
        device.common_ram matches Some((lo, hi)) && {
            let g = gen_for(device, m, addrs, ptrs, lo, func);
            &&& lo <= g.scratch < g.retval
            &&& g.retval + 4 <= g.tmp < g.tmp2 <= hi
        },
        forall|i: int| 0 <= i < m.funcs@.len() ==> !(#[trigger] m.funcs@[i]).isr,
{
}

impl<'a> Gen<'a> {
    /// Whether the bytes of a constant in RAM can be reached.
    pub open spec fn init_sound(&self, g: int) -> bool {
        let x = self.cx.m.globals@[g];
        let b = self.cx.addrs@[x.name@];
        in_ram(self.cx.m, self.cx.addrs, g) ==> b + x.bytes@.len() <= 0x1_0000 && forall|k: int|
            0 <= k < x.bytes@.len() ==> self.sound(#[trigger] ((b + k) as u32))
    }

    /// Whether two constants in RAM have no byte in common.
    pub open spec fn init_apart(&self, g: int, h: int) -> bool {
        let (x, y) = (self.cx.m.globals@[g], self.cx.m.globals@[h]);
        let (a, b) = (self.cx.addrs@[x.name@], self.cx.addrs@[y.name@]);
        in_ram(self.cx.m, self.cx.addrs, g) && in_ram(self.cx.m, self.cx.addrs, h) ==> a
            + x.bytes@.len() <= b || b + y.bytes@.len() <= a
    }

    proof fn lemma_init_bytes(&self, st: St, gi: usize, i: int, base: int, m: Machine)
        requires
            self.at_row(st, base, m),
            gi < self.cx.m.globals@.len(),
            in_ram(self.cx.m, self.cx.addrs, gi as int),
            self.init_sound(gi as int),
            0 <= i <= self.cx.m.globals@[gi as int].bytes@.len(),
        ensures
            ({
                let x = self.cx.m.globals@[gi as int];
                let at = self.cx.addrs@[x.name@];
                let s = init_bytes(*self, st, gi, at, i);
                let b = exec(st.rows, base, m);
                let a = exec(s.rows, base, m);
                &&& self.at_row(s, base, m)
                &&& passes(b, a)
                &&& kept(b, a, (at + i) as u32, x.bytes@.len() - i)
                &&& forall|j: int|
                    i <= j < x.bytes@.len() ==> a.ram[#[trigger] ((at + j) as u32)] == literal(
                        b,
                        byte_imm(self.cx.m, self.cx.addrs, gi, j),
                    )
            }),
        decreases self.cx.m.globals@[gi as int].bytes@.len() - i,
    {
        let x = self.cx.m.globals@[gi as int];
        let at = self.cx.addrs@[x.name@];
        if i < x.bytes@.len() {
            let imm = byte_imm(self.cx.m, self.cx.addrs, gi, i);
            let s1 = st.emit(Line::Lit(LitOp::Movlw, imm));
            let z = (at as u32).wrapping_add(i as u32);
            assert(z == (at + i) as u32);
            assert(self.sound((at + i) as u32));
            self.lemma_literal(st, imm, base, m);
            self.lemma_put(s1, z, base, m);
            let s2 = self.put(s1, z);
            self.lemma_init_bytes(s2, gi, i + 1, base, m);
            let b = exec(st.rows, base, m);
            let c = exec(s2.rows, base, m);
            let a = exec(init_bytes(*self, st, gi, at, i).rows, base, m);
            assert(init_bytes(*self, st, gi, at, i) == init_bytes(*self, s2, gi, at, i + 1));
            assert forall|j: int| i <= j < x.bytes@.len() implies a.ram[#[trigger] ((at
                + j) as u32)] == literal(b, byte_imm(self.cx.m, self.cx.addrs, gi, j)) by {
                if j == i {
                    assert(a.ram[z] == c.ram[z]);
                }
            }
        }
    }

    proof fn lemma_init(&self, st: St, g: int, gi: usize, j: int, base: int, m: Machine)
        requires
            self.at_row(st, base, m),
            0 <= g <= self.cx.m.globals@.len() <= usize::MAX,
            gi < self.cx.m.globals@.len(),
            in_ram(self.cx.m, self.cx.addrs, gi as int),
            0 <= j < self.cx.m.globals@[gi as int].bytes@.len(),
            forall|h: int| 0 <= h < self.cx.m.globals@.len() ==> #[trigger] self.init_sound(h),
            forall|h: int|
                0 <= h < self.cx.m.globals@.len() && h != gi ==> #[trigger] self.init_apart(
                    gi as int,
                    h,
                ),
        ensures
            ({
                let z = (self.cx.addrs@[self.cx.m.globals@[gi as int].name@] + j) as u32;
                let s = init_from(*self, st, g);
                let b = exec(st.rows, base, m);
                let a = exec(s.rows, base, m);
                &&& self.at_row(s, base, m)
                &&& passes(b, a)
                &&& a.ram[z] == if g <= gi {
                    literal(b, byte_imm(self.cx.m, self.cx.addrs, gi, j))
                } else {
                    b.ram[z]
                }
            }),
        decreases self.cx.m.globals@.len() - g,
    {
        let z = (self.cx.addrs@[self.cx.m.globals@[gi as int].name@] + j) as u32;
        assert(self.init_sound(gi as int));
        if g < self.cx.m.globals@.len() {
            assert(self.init_sound(g));
            if in_ram(self.cx.m, self.cx.addrs, g) {
                let at = self.cx.addrs@[self.cx.m.globals@[g].name@];
                let s = init_bytes(*self, st, g as usize, at, 0);
                self.lemma_init_bytes(st, g as usize, 0, base, m);
                if g != gi {
                    assert(self.init_apart(gi as int, g));
                    assert(exec(s.rows, base, m).ram[z] == exec(st.rows, base, m).ram[z]);
                }
                self.lemma_init(s, g + 1, gi, j, base, m);
            } else {
                self.lemma_init(st, g + 1, gi, j, base, m);
            }
        }
    }

    /// Where `main` is called, every byte of every constant in RAM holds what the constant
    /// has there: a number, or the byte of an address.
    pub proof fn law_reset_code_puts_every_byte(
        &self,
        st: St,
        gi: usize,
        j: int,
        base: int,
        m: Machine,
    )
        requires
            self.at_row(st, base, m),
            self.cx.m.globals@.len() <= usize::MAX,
            gi < self.cx.m.globals@.len(),
            in_ram(self.cx.m, self.cx.addrs, gi as int),
            0 <= j < self.cx.m.globals@[gi as int].bytes@.len(),
            forall|h: int| 0 <= h < self.cx.m.globals@.len() ==> #[trigger] self.init_sound(h),
            forall|h: int|
                0 <= h < self.cx.m.globals@.len() && h != gi ==> #[trigger] self.init_apart(
                    gi as int,
                    h,
                ),
        ensures
            ({
                let z = (self.cx.addrs@[self.cx.m.globals@[gi as int].name@] + j) as u32;
                let s = init_from(*self, st, 0);
                exec(s.rows, base, m).flow is Next && exec(s.rows, base, m).ram[z] == literal(
                    exec(st.rows, base, m),
                    byte_imm(self.cx.m, self.cx.addrs, gi, j),
                )
            }),
    {
        self.lemma_init(st, 0, gi, j, base, m);
    }
}

} // verus!
