//! Objects and where they lie: their sizes, whether they cross a bank, and
//! the address FSR0 reaches them by.
use vstd::prelude::*;
use crate::device::{lemma_bank_from, Device};
use crate::emit::{at, Emitter, St};
use crate::error::IselError;
use crate::ir::{Base, Block, Inst};
use crate::machine::unlinear;
use crate::names::{find_param, param_from};
use crate::pic14e::Gen;
use crate::text::same;

verus! {

/// Whether an object of `span` bytes at `base` crosses the end of its bank.
/// `None` if it lies outside the RAM or past the address space.
pub open spec fn straddles(device: &Device, base: u32, span: u16) -> Result<bool, IselError> {
    match device.region(base) {
        None => Err(IselError::OutsideRam),
        Some(r) => if base + span > 0xFFFF {
            Err(IselError::AddressOverflow)
        } else {
            Ok(base + span > r.1 + 1)
        },
    }
}

/// Whether an object crosses a bank boundary. Such an object is reached
/// through the linear region, where one FSR spans banks.
pub fn object_straddles(device: &Device, base: u32, span: u16) -> (r: Result<bool, IselError>)
    ensures
        r == straddles(device, base, span),
{
    match device.region_for(base) {
        None => Err(IselError::OutsideRam),
        Some(region) => if base > 0xFFFF || base + span as u32 > 0xFFFF {
            Err(IselError::AddressOverflow)
        } else {
            Ok(base + span as u32 > region.1 as u32 + 1)
        },
    }
}

/// The address FSR0 starts from: the object's own, or the linear alias of an
/// object that crosses a bank. The linear region strings the 80 bytes of
/// each bank together from 0x2000 on.
pub open spec fn base_for(device: &Device, base: u32, span: u16) -> Result<u32, IselError> {
    match straddles(device, base, span) {
        Err(e) => Err(e),
        Ok(false) => Ok(base),
        Ok(true) => match device.bank(base) {
            None => Err(IselError::OutsideRam),
            Some(b) => {
                let off = base & 0x7F;
                if off < 0x20 {
                    Err(IselError::OutsideRam)
                } else if 0x2000 + b * 80 + (off - 0x20) > 0xFFFF {
                    Err(IselError::AddressOverflow)
                } else {
                    Ok((0x2000 + b * 80 + (off - 0x20)) as u32)
                }
            },
        },
    }
}

pub fn fsr_base(device: &Device, base: u32, span: u16) -> (r: Result<u32, IselError>)
    ensures
        r == base_for(device, base, span),
{
    match object_straddles(device, base, span) {
        Err(e) => Err(e),
        Ok(false) => Ok(base),
        Ok(true) => match device.bank_of(base) {
            None => Err(IselError::OutsideRam),
            Some(b) => {
                let off: u32 = base & 0x7F;
                assert(base & 0x7F <= 0x7F) by (bit_vector);
                if off < 0x20 {
                    Err(IselError::OutsideRam)
                } else if b > 0x1000 || 0x2000 + b as u32 * 80 + (off - 0x20) > 0xFFFF {
                    Err(IselError::AddressOverflow)
                } else {
                    Ok(0x2000 + b as u32 * 80 + (off - 0x20))
                }
            },
        },
    }
}

/// Whether the banks are those of the enhanced core: bank `b` has its
/// general-purpose RAM from `0x80 * b + 0x20` on, 80 bytes of it at most.
pub open spec fn gpr_banks(device: &Device) -> bool {
    forall|b: int|
        0 <= b < device.ram_banks@.len() ==> 128 * b + 0x20 <= (#[trigger] device.ram_banks@[b]).0
            && device.ram_banks@[b].1 <= 128 * b + 0x6F
}

/// The place of a general-purpose byte when the banks are strung together.
pub open spec fn strung(a: u32) -> int {
    a as int / 128 * 80 + a as int % 128 - 0x20
}

/// The address FSR0 starts from reaches the object: byte `i` of an object
/// that crosses a bank is `i` places further along the strung banks, and
/// byte `i` of any other object is at its own address.
pub proof fn law_fsr_base_reaches_the_object(device: &Device, base: u32, span: u16, i: int)
    requires
        gpr_banks(device),
        base_for(device, base, span) is Ok,
        0 <= i < span,
        straddles(device, base, span) == Ok::<bool, IselError>(false) ==> base + span <= 0x2000,
        straddles(device, base, span) == Ok::<bool, IselError>(true) ==> strung(base) + span
            <= 0x9B0,
    ensures
        ({
            let p = base_for(device, base, span)->Ok_0;
            if straddles(device, base, span) == Ok::<bool, IselError>(true) {
                unlinear(p as int) == base && strung(unlinear(p + i)) == strung(base) + i
            } else {
                unlinear(p + i) == base + i
            }
        }),
{
    if straddles(device, base, span) == Ok::<bool, IselError>(true) {
        assert(device.ram_banks.len() == device.ram_banks@.len());
        lemma_bank_from(device.ram_banks@, base, 0);
        assert(base & 0x7F == base % 128) by (bit_vector);
    }
}

/// The size of the stack slot `name`, from instruction `j` of a block on.
pub open spec fn alloca_in(insts: Seq<Inst>, name: Seq<char>, j: int) -> Option<u16>
    decreases insts.len() - j,
{
    if j < 0 || j >= insts.len() {
        None
    } else {
        match insts[j] {
            Inst::Alloca(x) => if x.dst@ == name {
                Some(x.size)
            } else {
                alloca_in(insts, name, j + 1)
            },
            _ => alloca_in(insts, name, j + 1),
        }
    }
}

pub open spec fn alloca_from(blocks: Seq<Block>, name: Seq<char>, i: int) -> Option<u16>
    decreases blocks.len() - i,
{
    if i < 0 || i >= blocks.len() {
        None
    } else {
        match alloca_in(blocks[i].insts@, name, 0) {
            Some(n) => Some(n),
            None => alloca_from(blocks, name, i + 1),
        }
    }
}

fn find_alloca(blocks: &Vec<Block>, name: &str) -> (r: Option<u16>)
    ensures
        r == alloca_from(blocks@, name@, 0),
{
    let mut i: usize = 0;
    while i < blocks.len()
        invariant
            i <= blocks@.len(),
            alloca_from(blocks@, name@, 0) == alloca_from(blocks@, name@, i as int),
        decreases blocks@.len() - i,
    {
        let insts = &blocks[i].insts;
        let mut j: usize = 0;
        while j < insts.len()
            invariant
                i < blocks@.len(),
                insts == blocks@[i as int].insts,
                j <= insts@.len(),
                alloca_from(blocks@, name@, 0) == alloca_from(blocks@, name@, i as int),
                alloca_in(insts@, name@, 0) == alloca_in(insts@, name@, j as int),
            decreases insts@.len() - j,
        {
            if let Inst::Alloca(x) = &insts[j] {
                if same(x.dst.as_str(), name) {
                    return Some(x.size);
                }
            }
            j += 1;
        }
        i += 1;
    }
    None
}

/// The width an instruction gives register `name`, if it defines it.
pub open spec fn def_width(i: Inst, name: Seq<char>) -> Option<u8> {
    match i {
        Inst::Load(x) => if x.dst@ == name { Some(x.ty.bytes()) } else { None },
        Inst::Bin(x) => if x.dst@ == name { Some(x.ty.bytes()) } else { None },
        Inst::Zext(x) => if x.dst@ == name { Some(x.to.bytes()) } else { None },
        Inst::Sext(x) => if x.dst@ == name { Some(x.to.bytes()) } else { None },
        Inst::Trunc(x) => if x.dst@ == name { Some(x.to.bytes()) } else { None },
        Inst::IntToPtr(x) => if x.dst@ == name { Some(x.to.bytes()) } else { None },
        Inst::Icmp(x) => if x.dst@ == name { Some(1u8) } else { None },
        Inst::Select(x) => if x.dst@ == name { Some(x.ty.bytes()) } else { None },
        Inst::Phi(x) => if x.dst@ == name { Some(x.ty.bytes()) } else { None },
        Inst::Freeze(x) => if x.dst@ == name { Some(x.ty.bytes()) } else { None },
        Inst::Call(x) => match x.dst {
            Some(d) => if d@ == name {
                match x.ty {
                    Some(t) => Some(t.bytes()),
                    None => Some(1u8),
                }
            } else {
                None
            },
            None => None,
        },
        Inst::FloatBin(x) => if x.dst@ == name { Some(4u8) } else { None },
        Inst::Fcmp(x) => if x.dst@ == name { Some(1u8) } else { None },
        Inst::FloatConv(x) => if x.dst@ == name { Some(x.to.bytes()) } else { None },
        _ => None,
    }
}

fn find_def_width(i: &Inst, name: &str) -> (r: Option<u8>)
    ensures
        r == def_width(*i, name@),
{
    match i {
        Inst::Load(x) => if same(x.dst.as_str(), name) { Some(x.ty.bytes()) } else { None },
        Inst::Bin(x) => if same(x.dst.as_str(), name) { Some(x.ty.bytes()) } else { None },
        Inst::Zext(x) => if same(x.dst.as_str(), name) { Some(x.to.bytes()) } else { None },
        Inst::Sext(x) => if same(x.dst.as_str(), name) { Some(x.to.bytes()) } else { None },
        Inst::Trunc(x) => if same(x.dst.as_str(), name) { Some(x.to.bytes()) } else { None },
        Inst::IntToPtr(x) => if same(x.dst.as_str(), name) { Some(x.to.bytes()) } else { None },
        Inst::Icmp(x) => if same(x.dst.as_str(), name) { Some(1) } else { None },
        Inst::Select(x) => if same(x.dst.as_str(), name) { Some(x.ty.bytes()) } else { None },
        Inst::Phi(x) => if same(x.dst.as_str(), name) { Some(x.ty.bytes()) } else { None },
        Inst::Freeze(x) => if same(x.dst.as_str(), name) { Some(x.ty.bytes()) } else { None },
        Inst::Call(x) => match &x.dst {
            Some(d) => if same(d.as_str(), name) {
                match x.ty {
                    Some(t) => Some(t.bytes()),
                    None => Some(1),
                }
            } else {
                None
            },
            None => None,
        },
        Inst::FloatBin(x) => if same(x.dst.as_str(), name) { Some(4) } else { None },
        Inst::Fcmp(x) => if same(x.dst.as_str(), name) { Some(1) } else { None },
        Inst::FloatConv(x) => if same(x.dst.as_str(), name) { Some(x.to.bytes()) } else { None },
        _ => None,
    }
}

pub open spec fn width_in(insts: Seq<Inst>, name: Seq<char>, j: int) -> Option<u8>
    decreases insts.len() - j,
{
    if j < 0 || j >= insts.len() {
        None
    } else {
        match def_width(insts[j], name) {
            Some(w) => Some(w),
            None => width_in(insts, name, j + 1),
        }
    }
}

pub open spec fn width_from(blocks: Seq<Block>, name: Seq<char>, i: int) -> Option<u8>
    decreases blocks.len() - i,
{
    if i < 0 || i >= blocks.len() {
        None
    } else {
        match width_in(blocks[i].insts@, name, 0) {
            Some(w) => Some(w),
            None => width_from(blocks, name, i + 1),
        }
    }
}

fn find_width(blocks: &Vec<Block>, name: &str) -> (r: Option<u8>)
    ensures
        r == width_from(blocks@, name@, 0),
{
    let mut i: usize = 0;
    while i < blocks.len()
        invariant
            i <= blocks@.len(),
            width_from(blocks@, name@, 0) == width_from(blocks@, name@, i as int),
        decreases blocks@.len() - i,
    {
        let insts = &blocks[i].insts;
        let mut j: usize = 0;
        while j < insts.len()
            invariant
                i < blocks@.len(),
                insts == blocks@[i as int].insts,
                j <= insts@.len(),
                width_from(blocks@, name@, 0) == width_from(blocks@, name@, i as int),
                width_in(insts@, name@, 0) == width_in(insts@, name@, j as int),
            decreases insts@.len() - j,
        {
            if let Some(w) = find_def_width(&insts[j], name) {
                return Some(w);
            }
            j += 1;
        }
        i += 1;
    }
    None
}

impl<'a> Gen<'a> {
    /// The width of register `name`: of its parameter, or of the first
    /// instruction that defines it.
    pub open spec fn width_of(&self, name: Seq<char>) -> Option<u8> {
        let f = self.cx.m.funcs@[self.cx.func as int];
        match param_from(f.params@, name, 0) {
            Some(p) => Some(f.params@[p as int].width),
            None => width_from(f.blocks@, name, 0),
        }
    }

    pub open spec fn width_step(&self, st: St, name: Seq<char>) -> (St, u8) {
        match self.width_of(name) {
            Some(w) => (st, w),
            None => (st.fail(IselError::NoDefinition), 0),
        }
    }

    /// The bytes a pointer into `base` can touch: the global, the parameter,
    /// or the stack slot.
    pub open spec fn span_step(&self, st: St, base: Base) -> (St, u16) {
        match base {
            Base::Global(name) => self.cx.size_step(st, name@),
            Base::Slot(sname, _) => {
                let f = self.cx.m.funcs@[self.cx.func as int];
                match param_from(f.params@, sname@, 0) {
                    Some(p) => (st, f.params@[p as int].width as u16),
                    None => match alloca_from(f.blocks@, sname@, 0) {
                        Some(n) => (st, n),
                        None => (st.fail(IselError::NoSpan), 0),
                    },
                }
            },
        }
    }

    pub open spec fn straddle_step(&self, st: St, base: u32, span: u16) -> (St, bool) {
        match straddles(self.cx.device, base, span) {
            Ok(b) => (st, b),
            Err(e) => (st.fail(e), false),
        }
    }

    pub open spec fn base_step(&self, st: St, base: u32, span: u16) -> (St, u32) {
        match base_for(self.cx.device, base, span) {
            Ok(a) => (st, a),
            Err(e) => (st.fail(e), 0),
        }
    }

    /// The value of a pointer to byte `k` of global `name`: linear for a
    /// global that crosses a bank.
    pub open spec fn value_step(&self, st: St, name: Seq<char>, k: u8) -> (St, u32) {
        let (st, a) = self.cx.global_step(st, name);
        let (st, n) = self.cx.size_step(st, name);
        let (st, base) = self.base_step(st, a, n);
        let v = at(base, k);
        (st.check(v <= 0xFFFF, IselError::AddressOverflow), v)
    }

    /// The byte width of a register of the current function.
    pub fn reg_bytes(&self, g: &mut Emitter, name: &str) -> (r: u8)
        requires
            self.wf(),
        ensures
            (final(g)@, r) == self.width_step(old(g)@, name@),
    {
        let f = &self.cx.m.funcs[self.cx.func];
        match find_param(&f.params, name) {
            Some(p) => f.params[p].width,
            None => match find_width(&f.blocks, name) {
                Some(w) => w,
                None => {
                    g.fail(IselError::NoDefinition);
                    0
                },
            },
        }
    }

    /// The byte span of the object behind a folded pointer.
    pub fn object_span(&self, g: &mut Emitter, base: &Base) -> (r: u16)
        requires
            self.wf(),
        ensures
            (final(g)@, r) == self.span_step(old(g)@, *base),
    {
        match base {
            Base::Global(name) => self.cx.global_size(g, name.as_str()),
            Base::Slot(sname, _) => {
                let f = &self.cx.m.funcs[self.cx.func];
                match find_param(&f.params, sname.as_str()) {
                    Some(p) => f.params[p].width as u16,
                    None => match find_alloca(&f.blocks, sname.as_str()) {
                        Some(n) => n,
                        None => {
                            g.fail(IselError::NoSpan);
                            0
                        },
                    },
                }
            },
        }
    }

    pub fn check_straddle(&self, g: &mut Emitter, base: u32, span: u16) -> (r: bool)
        ensures
            (final(g)@, r) == self.straddle_step(old(g)@, base, span),
    {
        match object_straddles(self.cx.device, base, span) {
            Ok(b) => b,
            Err(e) => {
                g.fail(e);
                false
            },
        }
    }

    pub fn find_base(&self, g: &mut Emitter, base: u32, span: u16) -> (r: u32)
        ensures
            (final(g)@, r) == self.base_step(old(g)@, base, span),
    {
        match fsr_base(self.cx.device, base, span) {
            Ok(a) => a,
            Err(e) => {
                g.fail(e);
                0
            },
        }
    }

    /// The run-time pointer value of a global at offset `k`.
    pub fn ptr_value_addr(&self, g: &mut Emitter, name: &str, k: u8) -> (r: u32)
        ensures
            (final(g)@, r) == self.value_step(old(g)@, name@, k),
    {
        let a: u32 = self.cx.global_addr(g, name);
        let n: u16 = self.cx.global_size(g, name);
        let base: u32 = self.find_base(g, a, n);
        let v: u32 = at(base, k);
        g.check(v <= 0xFFFF, IselError::AddressOverflow);
        v
    }
}

} // verus!
