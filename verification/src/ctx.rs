//! What both selectors look up while they lower one function: addresses,
//! folded pointers, globals, and the operands of inline assembly.
use vstd::prelude::*;
use crate::device::Device;
use crate::emit::{Emitter, St};
use crate::error::IselError;
use crate::ir::{AsmOperand, Base, Module, Pointer, Val};
use crate::names::{
    find_func, find_global, func_index, global_index, holds_pointer, is_pointer_param, key, ssa_key,
    AddrMap, PtrMap,
};
use crate::scan::{digit_value, digits_value, parse_number, read_number, starts_with};
use crate::text::{chars_of, hex2_text, push_hex2, strip_char};

verus! {

/// The address that a literal pointer `0x<hex>` writes.
pub open spec fn literal_ptr(ptr: Seq<char>) -> Option<u16> {
    if starts_with(ptr, "0x"@) {
        match parse_number(ptr.skip(2), 16, 0xFFFF) {
            Some(n) => Some(n as u16),
            None => None,
        }
    } else {
        None
    }
}

/// Reads a literal pointer, if `ptr` is one.
pub fn parse_literal_ptr(ptr: &str) -> (r: Option<u16>)
    ensures
        r == literal_ptr(ptr@),
{
    proof {
        reveal_strlit("0x");
    }
    let n: usize = ptr.unicode_len();
    if n < 2 || ptr.get_char(0) != '0' || ptr.get_char(1) != 'x' {
        assert(starts_with(ptr@, "0x"@) ==> ptr@.take(2)[0] == "0x"@[0] && ptr@.take(2)[1]
            == "0x"@[1]);
        return None;
    }
    assert(ptr@.take(2) =~= "0x"@);
    let rest = chars_of(ptr.substring_char(2, n));
    assert(rest@ =~= ptr@.skip(2));
    match read_number(&rest, 16, 0xFFFF) {
        Some(v) => Some(v as u16),
        None => None,
    }
}

/// The byte address of a literal-pointer operand `0x<hex>`.
pub fn literal_ptr_addr(ptr: &str) -> (r: u16)
    requires
        literal_ptr(ptr@) is Some,
    ensures
        literal_ptr(ptr@) == Some(r),
{
    match parse_literal_ptr(ptr) {
        Some(a) => a,
        None => 0,
    }
}

/// The context of one function: the module, the addresses, the device, the
/// folded pointers, and the index of the function.
#[derive(Clone, Copy)]
pub struct Ctx<'a> {
    pub m: &'a Module,
    pub addrs: &'a AddrMap,
    pub device: &'a Device,
    pub ptrs: &'a PtrMap,
    pub func: usize,
}

/// The first index from `i` on that holds no decimal digit.
pub open spec fn digits_end(t: Seq<char>, i: int) -> int
    decreases t.len() - i,
{
    if i < 0 || i >= t.len() || digit_value(t[i], 10) is None {
        i
    } else {
        digits_end(t, i + 1)
    }
}

impl<'a> Ctx<'a> {
    pub open spec fn wf(&self) -> bool {
        self.func < self.m.funcs@.len()
    }

    /// The name of the current function.
    pub open spec fn fname(&self) -> Seq<char> {
        self.m.funcs@[self.func as int].name@
    }

    /// The address of local `name` of `func`.
    pub open spec fn slot(&self, func: Seq<char>, name: Seq<char>) -> Option<u32> {
        let k = key(func, name);
        if self.addrs@.dom().contains(k) {
            Some(self.addrs@[k] as u32)
        } else {
            None
        }
    }

    /// The address of a RAM global.
    pub open spec fn global(&self, name: Seq<char>) -> Option<u32> {
        if self.addrs@.dom().contains(name) {
            Some(self.addrs@[name] as u32)
        } else {
            None
        }
    }

    /// The folded pointer in register `r` of the current function.
    pub open spec fn pointer(&self, r: Seq<char>) -> Option<Pointer> {
        let k = key(self.fname(), r);
        if self.ptrs@.dom().contains(k) {
            Some(self.ptrs@[k])
        } else {
            None
        }
    }

    /// Whether `name` is a parameter whose slot holds a run-time address.
    pub open spec fn holds_addr(&self, name: Seq<char>) -> bool {
        is_pointer_param(self.m.funcs@[self.func as int].params@, name)
    }

    pub open spec fn is_func(&self, name: Seq<char>) -> bool {
        func_index(self.m, name) is Some
    }

    /// The index of a function, for its label.
    pub open spec fn func_no(&self, name: Seq<char>) -> usize {
        func_index(self.m, name).unwrap_or(0)
    }

    /// Whether `name` lives in flash; `None` if there is no such global. A
    /// constant that the address map placed in RAM is a RAM global.
    pub open spec fn in_flash(&self, name: Seq<char>) -> Option<bool> {
        if self.addrs@.dom().contains(name) {
            Some(false)
        } else {
            match global_index(self.m, name) {
                Some(i) => Some(self.m.globals@[i as int].is_const),
                None => None,
            }
        }
    }

    pub open spec fn size_of(&self, name: Seq<char>) -> Option<u16> {
        match global_index(self.m, name) {
            Some(i) => Some(self.m.globals@[i as int].size),
            None => None,
        }
    }

    /// Whether register `name` was folded to a bare slot that holds an
    /// address, so that its own slot holds that address as a value.
    pub open spec fn seeded(&self, name: Seq<char>) -> bool {
        match self.pointer(name) {
            Some(p) => match p.base {
                Base::Slot(_, true) => p.k == 0 && p.terms@.len() == 0,
                _ => false,
            },
            None => false,
        }
    }

    /// The address of a local, or a failure.
    pub open spec fn slot_step(&self, st: St, func: Seq<char>, name: Seq<char>) -> (St, u32) {
        match self.slot(func, name) {
            Some(a) => (st, a),
            None => (st.fail(IselError::NoSlot), 0),
        }
    }

    pub open spec fn local_step(&self, st: St, name: Seq<char>) -> (St, u32) {
        self.slot_step(st, self.fname(), name)
    }

    pub open spec fn global_step(&self, st: St, name: Seq<char>) -> (St, u32) {
        match self.global(name) {
            Some(a) => (st, a),
            None => (st.fail(IselError::NoAddress), 0),
        }
    }

    pub open spec fn flash_step(&self, st: St, name: Seq<char>) -> (St, bool) {
        match self.in_flash(name) {
            Some(b) => (st, b),
            None => (st.fail(IselError::UnknownGlobal), false),
        }
    }

    pub open spec fn size_step(&self, st: St, name: Seq<char>) -> (St, u16) {
        match self.size_of(name) {
            Some(n) => (st, n),
            None => (st.fail(IselError::UnknownGlobal), 0),
        }
    }

    /// The base address of an operand; a constant stands for its low byte.
    pub open spec fn val_step(&self, st: St, v: Val) -> (St, u32) {
        match v {
            Val::Reg(r) => self.local_step(st, r@),
            Val::Global(g) => self.global_step(st, g@),
            Val::Const(k) => (st, (k & 0xFF) as u32),
        }
    }

    /// The address an assembly operand stands for.
    pub open spec fn asm_addr(&self, ptr: Seq<char>) -> Result<u32, IselError> {
        if ptr.len() > 0 && ptr[0] == '@' {
            match self.global(ptr.skip(1)) {
                Some(a) => Ok(a),
                None => Err(IselError::NoAddress),
            }
        } else if ptr.len() > 0 && ptr[0] == '%' {
            match self.slot(self.fname(), ptr.skip(1)) {
                Some(a) => Ok(a),
                None => Err(IselError::NoSlot),
            }
        } else {
            Err(IselError::AsmMalformedOperand)
        }
    }

    /// Whether an assembly operand names a pointer that was computed.
    pub open spec fn asm_derived(&self, ptr: Seq<char>) -> bool {
        if ptr.len() > 0 && ptr[0] == '%' {
            match self.pointer(ptr.skip(1)) {
                Some(p) => p.k != 0 || p.terms@.len() > 0,
                None => false,
            }
        } else {
            false
        }
    }

    /// `out` followed by template `t` from `i` on: `$n` and `%n` become the
    /// address of operand `n`, `$$` and `%%` their second character, all
    /// else stands for itself.
    pub open spec fn subst_from(
        &self,
        t: Seq<char>,
        ops: Seq<AsmOperand>,
        i: int,
        out: Seq<char>,
    ) -> Result<Seq<char>, IselError>
        decreases t.len() - i,
    {
        if i < 0 || i >= t.len() {
            Ok(out)
        } else if (t[i] == '$' || t[i] == '%') && i + 1 < t.len() && (t[i + 1] == '%' || t[i + 1]
            == '$') {
            self.subst_from(t, ops, i + 2, out.push(t[i + 1]))
        } else if (t[i] == '$' || t[i] == '%') && i + 1 < t.len() && digit_value(t[i + 1], 10)
            is Some {
            let e = digits_end(t, i + 1);
            let n = digits_value(t.subrange(i + 1, e), 10);
            if n >= ops.len() || e <= i || e > t.len() {
                Err(IselError::AsmPlaceholderRange)
            } else {
                match self.asm_addr(ops[n as int].ptr@) {
                    Ok(a) => self.subst_from(t, ops, e, out + "0x"@ + hex2_text(a as nat)),
                    Err(e) => Err(e),
                }
            }
        } else {
            self.subst_from(t, ops, i + 1, out.push(t[i]))
        }
    }

    /// An assembly template with its operands filled in.
    pub open spec fn subst(&self, t: Seq<char>, ops: Seq<AsmOperand>) -> Result<
        Seq<char>,
        IselError,
    > {
        if exists|i: int| 0 <= i < ops.len() && self.asm_derived((#[trigger] ops[i]).ptr@) {
            Err(IselError::AsmDerivedOperand)
        } else {
            self.subst_from(t, ops, 0, Seq::empty())
        }
    }

    pub fn name(&self) -> (r: &'a str)
        requires
            self.wf(),
        ensures
            r@ == self.fname(),
    {
        self.m.funcs[self.func].name.as_str()
    }

    pub fn find_slot(&self, func: &str, name: &str) -> (r: Option<u32>)
        ensures
            r == self.slot(func@, name@),
    {
        match self.addrs.get(ssa_key(func, name).as_str()) {
            Some(a) => Some(*a as u32),
            None => None,
        }
    }

    pub fn find_address(&self, name: &str) -> (r: Option<u32>)
        ensures
            r == self.global(name@),
    {
        match self.addrs.get(name) {
            Some(a) => Some(*a as u32),
            None => None,
        }
    }

    pub fn find_pointer(&self, r: &str) -> (p: Option<&'a Pointer>)
        requires
            self.wf(),
        ensures
            match p {
                Some(x) => self.pointer(r@) == Some(*x),
                None => self.pointer(r@) is None,
            },
    {
        self.ptrs.get(ssa_key(self.name(), r).as_str())
    }

    /// Whether `name` is a plain pointer parameter of the current function,
    /// whose slot holds a run-time address rather than the object itself.
    pub fn param_holds_addr(&self, name: &str) -> (r: bool)
        requires
            self.wf(),
        ensures
            r == self.holds_addr(name@),
    {
        holds_pointer(&self.m.funcs[self.func].params, name)
    }

    pub fn is_function(&self, name: &str) -> (r: bool)
        ensures
            r == self.is_func(name@),
    {
        find_func(self.m, name).is_some()
    }

    pub fn func_number(&self, name: &str) -> (r: usize)
        ensures
            r == self.func_no(name@),
    {
        match find_func(self.m, name) {
            Some(i) => i,
            None => 0,
        }
    }

    /// Whether pointer-select destination `name` holds an address value.
    pub fn select_is_seeded(&self, name: &str) -> (r: bool)
        requires
            self.wf(),
        ensures
            r == self.seeded(name@),
    {
        match self.find_pointer(name) {
            Some(p) => match &p.base {
                Base::Slot(_, true) => p.k == 0 && p.terms.len() == 0,
                _ => false,
            },
            None => false,
        }
    }

    /// The address of `{func}::{name}`.
    pub fn slot_addr(&self, g: &mut Emitter, func: &str, name: &str) -> (r: u32)
        ensures
            (final(g)@, r) == self.slot_step(old(g)@, func@, name@),
    {
        match self.find_slot(func, name) {
            Some(a) => a,
            None => {
                g.fail(IselError::NoSlot);
                0
            },
        }
    }

    pub fn local_addr(&self, g: &mut Emitter, name: &str) -> (r: u32)
        requires
            self.wf(),
        ensures
            (final(g)@, r) == self.local_step(old(g)@, name@),
    {
        self.slot_addr(g, self.name(), name)
    }

    /// The byte address of a RAM global.
    pub fn global_addr(&self, g: &mut Emitter, name: &str) -> (r: u32)
        ensures
            (final(g)@, r) == self.global_step(old(g)@, name@),
    {
        match self.find_address(name) {
            Some(a) => a,
            None => {
                g.fail(IselError::NoAddress);
                0
            },
        }
    }

    /// Whether `name` is a constant in flash.
    pub fn global_is_const(&self, g: &mut Emitter, name: &str) -> (r: bool)
        ensures
            (final(g)@, r) == self.flash_step(old(g)@, name@),
    {
        if self.find_address(name).is_some() {
            return false;
        }
        match find_global(self.m, name) {
            Some(i) => self.m.globals[i].is_const,
            None => {
                g.fail(IselError::UnknownGlobal);
                false
            },
        }
    }

    /// The byte size of a global.
    pub fn global_size(&self, g: &mut Emitter, name: &str) -> (r: u16)
        ensures
            (final(g)@, r) == self.size_step(old(g)@, name@),
    {
        match find_global(self.m, name) {
            Some(i) => self.m.globals[i].size,
            None => {
                g.fail(IselError::UnknownGlobal);
                0
            },
        }
    }

    /// The base byte address of an operand.
    pub fn val_addr(&self, g: &mut Emitter, v: &Val) -> (r: u32)
        requires
            self.wf(),
        ensures
            (final(g)@, r) == self.val_step(old(g)@, *v),
    {
        match v {
            Val::Reg(r) => self.local_addr(g, r.as_str()),
            Val::Global(n) => self.global_addr(g, n.as_str()),
            Val::Const(k) => (*k & 0xFF) as u32,
        }
    }

    fn find_asm_addr(&self, ptr: &str) -> (r: Result<u32, IselError>)
        requires
            self.wf(),
        ensures
            r == self.asm_addr(ptr@),
    {
        if let Some(n) = strip_char(ptr, '@') {
            return match self.find_address(n) {
                Some(a) => Ok(a),
                None => Err(IselError::NoAddress),
            };
        }
        if let Some(n) = strip_char(ptr, '%') {
            return match self.find_slot(self.name(), n) {
                Some(a) => Ok(a),
                None => Err(IselError::NoSlot),
            };
        }
        Err(IselError::AsmMalformedOperand)
    }

    fn is_derived(&self, ptr: &str) -> (r: bool)
        requires
            self.wf(),
        ensures
            r == self.asm_derived(ptr@),
    {
        match strip_char(ptr, '%') {
            Some(n) => match self.find_pointer(n) {
                Some(p) => p.k != 0 || p.terms.len() > 0,
                None => false,
            },
            None => false,
        }
    }

    /// Fills the operands of an inline assembly template in.
    pub fn substitute_asm(&self, template: &str, operands: &Vec<AsmOperand>) -> (r: Result<
        String,
        IselError,
    >)
        requires
            self.wf(),
        ensures
            match self.subst(template@, operands@) {
                Ok(s) => r matches Ok(t) && t@ == s,
                Err(e) => r matches Err(x) && x == e,
            },
    {
        let mut k: usize = 0;
        while k < operands.len()
            invariant
                self.wf(),
                k <= operands@.len(),
                forall|j: int| 0 <= j < k ==> !self.asm_derived((#[trigger] operands@[j]).ptr@),
            decreases operands@.len() - k,
        {
            if self.is_derived(operands[k].ptr.as_str()) {
                assert(self.asm_derived(operands@[k as int].ptr@));
                return Err(IselError::AsmDerivedOperand);
            }
            k += 1;
        }
        let t = chars_of(template);
        let count: usize = operands.len();
        let mut out = String::new();
        let mut i: usize = 0;
        assert(out@ =~= Seq::<char>::empty());
        while i < t.len()
            invariant
                self.wf(),
                t@ == template@,
                i <= t@.len(),
                count == operands@.len(),
                self.subst(template@, operands@) == self.subst_from(
                    t@,
                    operands@,
                    i as int,
                    out@,
                ),
            decreases t@.len() - i,
        {
            let c = t[i];
            if (c == '$' || c == '%') && i + 1 < t.len() && (t[i + 1] == '%' || t[i + 1] == '$') {
                let ghost before = out@;
                out.append(template.substring_char(i + 1, i + 2));
                assert(out@ =~= before.push(t@[i + 1]));
                i += 2;
            } else if (c == '$' || c == '%') && i + 1 < t.len() && is_decimal(t[i + 1]) {
                let mut e: usize = i + 1;
                let ghost from = i + 1;
                while e < t.len() && is_decimal(t[e])
                    invariant
                        from <= e <= t@.len(),
                        digits_end(t@, from as int) == digits_end(t@, e as int),
                        forall|j: int| from <= j < e ==> digit_value(#[trigger] t@[j], 10) is Some,
                        e == from ==> digit_value(t@[e as int], 10) is Some,
                        from < t@.len(),
                    decreases t@.len() - e,
                {
                    e += 1;
                }
                let digits = chars_of(template.substring_char(i + 1, e));
                let ghost d = t@.subrange(from as int, e as int);
                proof {
                    assert(digits@ =~= d);
                    assert(d[0] == t@[from as int]);
                    assert(d[0] != '+');
                    assert(forall|j: int|
                        0 <= j < d.len() ==> digit_value(#[trigger] d[j], 10) is Some) by {
                        assert forall|j: int| 0 <= j < d.len() implies digit_value(
                            #[trigger] d[j],
                            10,
                        ) is Some by {
                            assert(d[j] == t@[from + j]);
                        }
                    }
                }
                let n: usize = match read_number(&digits, 10, usize::MAX) {
                    Some(n) => n,
                    None => {
                        assert(digits_value(d, 10) > usize::MAX);
                        return Err(IselError::AsmPlaceholderRange);
                    },
                };
                if n >= count {
                    return Err(IselError::AsmPlaceholderRange);
                }
                match self.find_asm_addr(operands[n].ptr.as_str()) {
                    Ok(a) => {
                        out.append("0x");
                        push_hex2(&mut out, a);
                    },
                    Err(x) => {
                        return Err(x);
                    },
                }
                i = e;
            } else {
                let ghost before = out@;
                out.append(template.substring_char(i, i + 1));
                assert(out@ =~= before.push(t@[i as int]));
                i += 1;
            }
        }
        Ok(out)
    }
}

fn is_decimal(c: char) -> (r: bool)
    ensures
        r == (digit_value(c, 10) is Some),
{
    let n: u32 = c as u32;
    48 <= n && n <= 57
}

} // verus!
