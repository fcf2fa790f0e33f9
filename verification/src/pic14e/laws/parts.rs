//! What holds of the parts of a program: its functions, its tables, its handlers, and
//! the calls that are not calls.
use vstd::prelude::*;
use crate::body::Lower;
use crate::consts::{byte_imm, in_ram, init_words, ref_at};
use crate::delay::{law_delay_is_exact, law_short_count_is_kept, only_counts, steady};
use crate::emit::{at, hi8, lo8, movf, movlw, movwf, St};
use crate::ir::{Base, Block, Call, CallArg, Func, Inst, Module, Pointer, Ref, Ret, Term, Val};
use crate::line::{sym_text, Imm, Line, LitOp, Op, Reg};
use crate::machine::{exec, group_exec_pointer, literal, runs_to, Machine};
use crate::meaning::word;
use crate::names::{func_index, AddrMap};
use crate::pic14e::laws::flash::reads_through;
use crate::pic14e::laws::memory::{fsr_of, lemma_halves, points};
use crate::pic14e::laws::arguments::taken_by;
use crate::pic14e::laws::flow::{law_handler_restores, law_handler_saves};
use crate::pic14e::laws::{lemma_movf, ready};
use crate::pic14e::pointer::{fsr_high, offset_of};
use crate::pic14e::select::{init_bytes, init_from, order, picked, saved, text_le, vector, Inputs};
use crate::pic14e::span::base_for;
use crate::pic14e::variadic::{
    blocks_extra, call_extra, extra_from, funcs_extra, insts_extra, va_size,
};
use crate::pic14e::{Gen, COPY_INDEX};
use crate::runs::lemma_upto;

verus! {

/// The functions picked are those that are handlers, or those that are not, in order.
proof fn lemma_picked(m: &Module, isr: bool, n: int)
    requires
        0 <= n <= m.funcs@.len() <= usize::MAX,
    ensures
        forall|k: int|
            0 <= k < picked(m, isr, n).len() ==> (#[trigger] picked(m, isr, n)[k]) < n
                && m.funcs@[picked(m, isr, n)[k] as int].isr == isr,
        forall|j: int, k: int|
            0 <= j < k < picked(m, isr, n).len() ==> #[trigger] picked(m, isr, n)[j]
                < #[trigger] picked(m, isr, n)[k],
        forall|i: int|
            0 <= i < n && (#[trigger] m.funcs@[i]).isr == isr ==> picked(m, isr, n).contains(
                i as usize,
            ),
        picked(m, true, n).len() + picked(m, false, n).len() == n,
    decreases n,
{
    if n > 0 {
        lemma_picked(m, isr, n - 1);
        lemma_picked(m, !isr, n - 1);
        let v = picked(m, isr, n - 1);
        let w = picked(m, isr, n);
        assert forall|i: int| 0 <= i < n && (#[trigger] m.funcs@[i]).isr == isr implies w.contains(
            i as usize,
        ) by {
            if i < n - 1 {
                let k = choose|k: int| 0 <= k < v.len() && v[k] == i as usize;
                assert(w[k] == i as usize);
            } else {
                assert(w[w.len() - 1] == i as usize);
            }
        }
    }
}

/// Every function is written, none of them twice, and the handlers come first. The
/// vector leads to the first handler.
pub proof fn law_every_function_is_written_once(m: &Module)
    requires
        m.funcs@.len() <= usize::MAX,
    ensures
        order(m).len() == m.funcs@.len(),
        forall|i: usize| i < m.funcs@.len() ==> #[trigger] order(m).contains(i),
        forall|j: int, k: int|
            0 <= j < k < order(m).len() ==> #[trigger] order(m)[j] != #[trigger] order(m)[k],
        forall|j: int, k: int|
            0 <= j < k < order(m).len() && m.funcs@[(#[trigger] order(m)[k]) as int].isr
                ==> m.funcs@[(#[trigger] order(m)[j]) as int].isr,
        vector(m) matches Some(name) ==> exists|i: int|
            0 <= i < m.funcs@.len() && (#[trigger] m.funcs@[i]).isr && m.funcs@[i].name@ == name
                && forall|j: int| 0 <= j < i ==> !(#[trigger] m.funcs@[j]).isr,
        vector(m) is None ==> forall|i: int|
            0 <= i < m.funcs@.len() ==> !(#[trigger] m.funcs@[i]).isr,
{
    let n = m.funcs@.len() as int;
    lemma_picked(m, true, n);
    lemma_picked(m, false, n);
    let (h, p) = (picked(m, true, n), picked(m, false, n));
    let o = order(m);
    assert forall|i: usize| i < n implies #[trigger] o.contains(i) by {
        if m.funcs@[i as int].isr {
            let k = choose|k: int| 0 <= k < h.len() && h[k] == i;
            assert(o[k] == i);
        } else {
            let k = choose|k: int| 0 <= k < p.len() && p[k] == i;
            assert(o[h.len() + k] == i);
        }
    }
    if h.len() > 0 {
        let i = h[0] as int;
        assert(m.funcs@[i].isr);
        assert forall|j: int| 0 <= j < i implies !(#[trigger] m.funcs@[j]).isr by {
            if m.funcs@[j].isr {
                let k = choose|k: int| 0 <= k < h.len() && h[k] == j as usize;
                if k > 0 {
                    assert(h[0] < h[k]);
                }
            }
        }
    }
}

/// Names are ordered by their first difference, and a name comes before one that it
/// starts.
pub proof fn law_names_are_ordered_by_their_first_difference(a: Seq<char>, b: Seq<char>, i: int)
    requires
        0 <= i <= a.len(),
        i <= b.len(),
        forall|j: int| 0 <= j < i ==> a[j] == b[j],
    ensures
        i < a.len() && i < b.len() && a[i] != b[i] ==> text_le(a, b) == (a[i] < b[i]),
        i == a.len() ==> text_le(a, b),
        i == b.len() && i < a.len() ==> !text_le(a, b),
    decreases i,
{
    if i > 0 {
        let (x, y) = (a.skip(1), b.skip(1));
        assert forall|j: int| 0 <= j < i - 1 implies x[j] == y[j] by {
            assert(a[j + 1] == b[j + 1]);
        }
        assert(a[0] == b[0]);
        law_names_are_ordered_by_their_first_difference(x, y, i - 1);
    }
}

/// The field at a byte is the first that starts there.
proof fn lemma_field(refs: Seq<Ref>, i: int, r: int, k: int)
    requires
        0 <= k <= r < refs.len() <= usize::MAX,
        refs[r].offset == i,
        forall|j: int| 0 <= j < r ==> (#[trigger] refs[j]).offset != i,
    ensures
        ref_at(refs, i, k) == Some(r as usize),
    decreases r - k,
{
    if k < r {
        assert(refs[k].offset != i);
        lemma_field(refs, i, r, k + 1);
    }
}

proof fn lemma_no_field(refs: Seq<Ref>, i: int, k: int)
    requires
        0 <= k,
        forall|j: int| 0 <= j < refs.len() ==> (#[trigger] refs[j]).offset != i,
    ensures
        ref_at(refs, i, k) is None,
    decreases refs.len() - k,
{
    if k < refs.len() {
        assert(refs[k].offset != i);
        lemma_no_field(refs, i, k + 1);
    }
}

/// A constant's byte that belongs to no address field is the byte as it stands.
pub proof fn law_plain_byte_stands(m: &Module, addrs: &AddrMap, gi: usize, i: int)
    requires
        forall|j: int|
            0 <= j < m.globals@[gi as int].refs@.len() ==> (
            #[trigger] m.globals@[gi as int].refs@[j]).offset != i,
    ensures
        byte_imm(m, addrs, gi, i) == Imm::Byte(m.globals@[gi as int].bytes@[i]),
{
    lemma_no_field(m.globals@[gi as int].refs@, i, 0);
}

/// The two bytes of an address field, the low one at an even offset, write the address
/// of what the field names: that of a global as a number, that of a function by the
/// function's label.
pub proof fn law_field_writes_its_address(
    m: &Module,
    addrs: &AddrMap,
    gi: usize,
    i: int,
    r: int,
    s: int,
    name: Seq<char>,
    z: Machine,
)
    requires
        gi < m.globals@.len(),
        i >= 0,
        i % 2 == 0,
        ({
            let refs = m.globals@[gi as int].refs@;
            &&& 0 <= r < refs.len() <= usize::MAX
            &&& 0 <= s < refs.len()
            &&& refs[r].offset == i && refs[r].name@ == name
            &&& refs[s].offset == i + 1 && refs[s].name@ == name
            &&& forall|j: int| 0 <= j < r ==> (#[trigger] refs[j]).offset != i
            &&& forall|j: int| 0 <= j < s ==> (#[trigger] refs[j]).offset != i + 1
        }),
    ensures
        addrs@.dom().contains(name) ==> literal(z, byte_imm(m, addrs, gi, i)) + 0x100 * literal(
            z,
            byte_imm(m, addrs, gi, i + 1),
        ) == addrs@[name],
        !addrs@.dom().contains(name) ==> ({
            let (lo, hi) = (byte_imm(m, addrs, gi, i), byte_imm(m, addrs, gi, i + 1));
            &&& lo matches Imm::Low(l) && sym_text(m, l) == name
            &&& hi matches Imm::High(h) && sym_text(m, h) == name
        }),
{
    let refs = m.globals@[gi as int].refs@;
    lemma_field(refs, i, r, 0);
    lemma_field(refs, i + 1, s, 0);
    if addrs@.dom().contains(name) {
        lemma_halves(addrs@[name] as u32);
    }
}

/// The code that puts a constant into RAM takes two words for each byte.
proof fn lemma_init_bytes(x: Inputs, st: St, gi: usize, base: u16, i: int)
    requires
        0 <= i <= x.m.globals@[gi as int].bytes@.len(),
    ensures
        init_bytes(x, st, gi, base, i).rows.len() == st.rows.len() + 2 * (
        x.m.globals@[gi as int].bytes@.len() - i),
    decreases x.m.globals@[gi as int].bytes@.len() - i,
{
    if i < x.m.globals@[gi as int].bytes@.len() {
        let s1 = st.emit(Line::Lit(LitOp::Movlw, byte_imm(x.m, x.addrs, gi, i))).emit(
            movwf((base as u32).wrapping_add(i as u32)),
        );
        lemma_init_bytes(x, s1, gi, base, i + 1);
    }
}

/// The words that initialise constants in RAM are as many as are counted for them.
pub proof fn law_initial_words_are_counted(x: Inputs, st: St, gi: int)
    requires
        0 <= gi <= x.m.globals@.len() <= usize::MAX,
    ensures
        init_from(x, st, gi).rows.len() == st.rows.len() + init_words(
            x.m,
            x.addrs,
            x.m.globals@.len() as int,
        ) - init_words(x.m, x.addrs, gi),
    decreases x.m.globals@.len() - gi,
{
    if gi < x.m.globals@.len() {
        if in_ram(x.m, x.addrs, gi) {
            let base = x.addrs@[x.m.globals@[gi].name@];
            lemma_init_bytes(x, st, gi as usize, base, 0);
            law_initial_words_are_counted(x, init_bytes(x, st, gi as usize, base, 0), gi + 1);
        } else {
            law_initial_words_are_counted(x, st, gi + 1);
        }
    }
}

proof fn lemma_extra(args: Seq<CallArg>, n: int, i: int)
    requires
        0 <= n <= i <= args.len(),
        forall|k: int| n <= k < args.len() ==> (#[trigger] args[k]).ty is Some,
    ensures
        extra_from(args, n) == taken_by(args, n, i) + extra_from(args, i),
    decreases i - n,
{
    if i > n {
        lemma_extra(args, n, i - 1);
        assert(args[i - 1].ty is Some);
    }
}

proof fn lemma_insts_extra(insts: Seq<Inst>, func: Seq<char>, named: nat, j: int, k: int)
    requires
        0 <= j <= k < insts.len(),
    ensures
        insts[k] matches Inst::Call(c) ==> call_extra(c, func, named) <= insts_extra(
            insts,
            func,
            named,
            j,
        ),
    decreases k - j,
{
    if j < k {
        lemma_insts_extra(insts, func, named, j + 1, k);
    }
}

proof fn lemma_blocks_extra(blocks: Seq<Block>, func: Seq<char>, named: nat, b: int, k: int)
    requires
        0 <= b <= k < blocks.len(),
    ensures
        insts_extra(blocks[k].insts@, func, named, 0) <= blocks_extra(blocks, func, named, b),
    decreases k - b,
{
    if b < k {
        lemma_blocks_extra(blocks, func, named, b + 1, k);
    }
}

proof fn lemma_funcs_extra(funcs: Seq<Func>, func: Seq<char>, named: nat, f: int, k: int)
    requires
        0 <= f <= k < funcs.len(),
    ensures
        blocks_extra(funcs[k].blocks@, func, named, 0) <= funcs_extra(funcs, func, named, f),
    decreases k - f,
{
    if f < k {
        lemma_funcs_extra(funcs, func, named, f + 1, k);
    }
}

/// The region of a variadic function holds what every call of it passes there: the
/// last byte of the last argument lies in it.
pub proof fn law_region_holds_every_call(m: &Module, func: Seq<char>, f: usize, g: int, b: int, k: int)
    requires
        func_index(m, func) == Some(f),
        0 <= g < m.funcs@.len(),
        0 <= b < m.funcs@[g].blocks@.len(),
        0 <= k < m.funcs@[g].blocks@[b].insts@.len(),
    ensures
        m.funcs@[g].blocks@[b].insts@[k] matches Inst::Call(c) ==> ({
            let n = m.funcs@[f as int].params@.len() as int;
            c.func@ == func && c.callees@.len() == 0 && n <= c.args@.len() && (forall|i: int|
                n <= i < c.args@.len() ==> (#[trigger] c.args@[i]).ty is Some) ==> taken_by(
                c.args@,
                n,
                c.args@.len() as int,
            ) <= va_size(m, func)
        }),
{
    let n = m.funcs@[f as int].params@.len();
    let blocks = m.funcs@[g].blocks@;
    let insts = blocks[b].insts@;
    lemma_insts_extra(insts, func, n, 0, k);
    lemma_blocks_extra(blocks, func, n, 0, b);
    lemma_funcs_extra(m.funcs@, func, n, 0, g);
    if let Inst::Call(c) = insts[k] {
        if c.func@ == func && c.callees@.len() == 0 && n <= c.args@.len() && (forall|i: int|
            n <= i < c.args@.len() ==> (#[trigger] c.args@[i]).ty is Some) {
            lemma_extra(c.args@, n as int, c.args@.len() as int);
            if c.args@.len() == n {
                assert(extra_from(c.args@, n as int) == 0);
            }
        }
    }
}

/// A handler leaves the fixed bytes as it found them, if it keeps the bytes that it
/// saved them in: the comparison byte and the four result bytes.
pub proof fn law_handler_gives_back_the_fixed_bytes(
    g: &Gen,
    f: Func,
    x: Ret,
    st: St,
    base: int,
    m: Machine,
    st2: St,
    base2: int,
    m2: Machine,
)
    requires
        f.isr,
        x.val is None,
        g.scratch == 0x70,
        g.retval == 0x71,
        ready(st, base, m),
        ready(st2, base2, m2),
        forall|z: u32|
            0x79 <= z <= 0x7D ==> #[trigger] exec(st2.rows, base2, m2).ram[z] == exec(
                g.enter_step(st, f).rows,
                base,
                m,
            ).ram[z],
    ensures
        ({
            let b = exec(st.rows, base, m);
            let s = g.ret_step(st2, f, x);
            let a = exec(s.rows, base2, m2);
            &&& exec(g.enter_step(st, f).rows, base, m).pclath == 0
            &&& s.rows.last().line == Line::Retfie
            &&& a.flow is Gone
            &&& a.ram[g.scratch] == b.ram[g.scratch]
            &&& word(a, g.retval, 4) == word(b, g.retval, 4)
        }),
{
    let b = exec(st.rows, base, m);
    let e = exec(g.enter_step(st, f).rows, base, m);
    let d = exec(st2.rows, base2, m2);
    law_handler_saves(st, base, m);
    assert(e.ram[saved(0).1] == b.ram[saved(0).0]);
    assert(e.ram[saved(1).1] == b.ram[saved(1).0]);
    assert(e.ram[saved(2).1] == b.ram[saved(2).0]);
    assert(e.ram[saved(3).1] == b.ram[saved(3).0]);
    assert(e.ram[saved(4).1] == b.ram[saved(4).0]);
    assert forall|k: u8| k < 5 implies d.ram[#[trigger] saved(k).1] == b.ram[saved(k).0] by {
        assert(d.ram[saved(k).1] == e.ram[saved(k).1]);
        assert(e.ram[saved(k).1] == b.ram[saved(k).0]);
    }
    law_handler_restores(st2, b, base2, m2);
    let a = exec(g.ret_step(st2, f, x).rows, base2, m2);
    assert(a.ram[saved(0).0] == b.ram[saved(0).0]);
    assert(a.ram[saved(1).0] == b.ram[saved(1).0]);
    assert(a.ram[saved(2).0] == b.ram[saved(2).0]);
    assert(a.ram[saved(3).0] == b.ram[saved(3).0]);
    assert(a.ram[saved(4).0] == b.ram[saved(4).0]);
}

impl<'a> Gen<'a> {
    /// A function that is no handler is entered without code, and returns with the
    /// value of its operand.
    pub proof fn law_plain_function_returns(&self, st: St, f: Func, x: Ret)
        requires
            !f.isr,
        ensures
            self.enter_step(st, f) == st,
            self.ret_step(st, f, x) == self.ret(st, x),
    {
    }

    /// A call of the built-in delay with a constant waits for as many cycles, and
    /// changes nothing but its counter.
    pub proof fn law_delay_call_waits(&self, st: St, x: Call, k: i64, m: Machine)
        requires
            x.callees@.len() == 0,
            x.func@ == "_delay"@,
            !self.cx.is_func(x.func@),
            x.args@.len() == 1,
            x.args@[0].val == Val::Const(k),
            0 <= k <= u32::MAX,
            m.flow is Next,
            steady(m, self.retval),
        ensures
            exists|after: Machine| #[trigger]
                runs_to(self.inst(st, Inst::Call(x)).rows, st.rows.len() as int, m, after)
                    && after.flow is Next && after.cycles == m.cycles + k && only_counts(
                    m,
                    after,
                    self.retval,
                ),
    {
        reveal(Gen::inst);
        reveal(Gen::call);
        law_short_count_is_kept(k);
        law_delay_is_exact(st, k as u32, self.retval, m);
    }

    /// A call of a function that is not there ends in a jump to itself.
    pub proof fn law_missing_function_is_trapped(&self, st: St, x: Call, base: int, m: Machine)
        requires
            ready(st, base, m),
            x.callees@.len() == 0,
            x.func@ != "_delay"@,
            !self.cx.is_func(x.func@),
        ensures
            Self::traps_at(self.inst(st, Inst::Call(x)), base, m, st.rows.len() as int),
    {
        reveal(Gen::inst);
        reveal(Gen::call);
        let s = self.inst(st, Inst::Call(x));
        lemma_upto(st.rows, s.rows, base, m);
    }

    /// A read behind a pointer into a table in flash gives the byte of the table that
    /// the pointer's offset and its terms name.
    pub proof fn law_small_table_is_read_behind_its_pointer(
        &self,
        flash: Map<int, Line>,
        addr: nat,
        st: St,
        r: Seq<char>,
        p: Pointer,
        name: String,
        off: u8,
        base: int,
        m: Machine,
    )
        requires
            ready(st, base, m),
            self.cx.pointer(r) == Some(p),
            p.base == Base::Global(name),
            self.cx.in_flash(name@) == Some(true),
            self.good_terms(p.terms@),
            p.k + off <= 0xFF,
            self.table_in(flash, m, name@, addr),
            self.cx.m.globals@[self.table_no(name@) as int].bytes@.len() <= 255,
            p.k + off + self.terms_sum(exec(st.rows, base, m), p.terms@, 0)
                < self.cx.m.globals@[self.table_no(name@) as int].bytes@.len(),
            m.core is Enhanced,
        ensures
            exists|after: Machine| #[trigger]
                reads_through(
                    flash,
                    self.scratch,
                    self.reg_load_byte(st, r, off).rows,
                    base,
                    m,
                    after,
                ) && after.flow is Next && after.w == self.table_byte(
                    m,
                    name@,
                    p.k + off + self.terms_sum(exec(st.rows, base, m), p.terms@, 0),
                ),
    {
        self.law_small_read_gives_the_byte(flash, addr, st, name@, p.k, p.terms@, off, base, m);
    }

    /// The same for a table of 256 bytes or more.
    pub proof fn law_large_table_is_read_behind_its_pointer(
        &self,
        flash: Map<int, Line>,
        addr: nat,
        st: St,
        r: Seq<char>,
        p: Pointer,
        name: String,
        t: Term,
        off: u8,
        base: int,
        m: Machine,
    )
        requires
            ready(st, base, m),
            self.cx.pointer(r) == Some(p),
            p.base == Base::Global(name),
            self.cx.in_flash(name@) == Some(true),
            p.terms@ == seq![t],
            st.w is None,
            st.next <= u32::MAX - 301,
            t.scale == 1 || t.scale == 2 || t.scale == 4,
            self.width_of(t.reg@) == Some(2u8),
            self.term_slot(t) matches Some(a) && self.index_slots(a),
            p.k + off <= 0xFF,
            self.table_in(flash, m, name@, addr),
            self.cx.m.globals@[self.table_no(name@) as int].bytes@.len() >= 256,
            p.k + off + t.scale * word(exec(st.rows, base, m), self.term_slot(t)->0, 2)
                < self.cx.m.globals@[self.table_no(name@) as int].bytes@.len(),
            m.core is Enhanced,
        ensures
            exists|after: Machine| #[trigger]
                reads_through(
                    flash,
                    self.scratch,
                    self.reg_load_byte(st, r, off).rows,
                    base,
                    m,
                    after,
                ) && after.flow is Next && after.w == self.table_byte(
                    m,
                    name@,
                    p.k + off + t.scale * word(exec(st.rows, base, m), self.term_slot(t)->0, 2),
                ),
    {
        self.law_large_read_gives_the_byte(
            flash,
            addr,
            st,
            name@,
            p.k,
            t,
            p.terms@,
            off,
            base,
            m,
        );
    }

    /// A copy loop reaches, in the turn that its index counts, the byte as far behind
    /// the pointer as the index says, with the pointer's offset and its terms.
    pub proof fn law_copy_loop_follows_its_pointer(
        &self,
        st: St,
        v: Val,
        p: Pointer,
        base: int,
        m: Machine,
    )
        requires
            ready(st, base, m),
            self.behind(v, p),
            !self.is_held(p),
            self.home_of(p) is Some,
            self.span_of(p) is Some,
            self.good_terms(p.terms@),
            self.scratch != COPY_INDEX,
            self.scratch != at(self.retval, 2),
            ({
                let b = exec(st.rows, base, m);
                base_for(self.cx.device, self.home_of(p)->0, self.span_of(p)->0) matches Ok(a) && a
                    + 255 + self.index_of(b) <= 0xFFFF
            }),
        ensures
            ({
                let b = exec(st.rows, base, m);
                let s = self.copy_fsr(st, v);
                let a = exec(s.rows, base, m);
                &&& ready(s, base, m)
                &&& points(b, a)
                &&& fsr_of(a) == base_for(
                    self.cx.device,
                    self.home_of(p)->0,
                    self.span_of(p)->0,
                )->Ok_0 + (p.k + self.terms_sum(b, p.terms@, 0)) % 256 + self.index_of(b)
                &&& forall|x: u32| x != self.scratch ==> #[trigger] a.ram[x] == b.ram[x]
            }),
    {
        let b = exec(st.rows, base, m);
        let q = base_for(self.cx.device, self.home_of(p)->0, self.span_of(p)->0)->Ok_0;
        let kk = offset_of(p.k, 0);
        assert(kk == p.k);
        assert(lo8(kk) == p.k) by {
            lemma_halves(kk);
        }
        let s1 = st.emit(movlw(lo8(q))).emit(Line::Movwf(Reg::Fsr0L)).emit(movlw(hi8(q))).emit(
            Line::Movwf(Reg::Fsr0H),
        );
        self.lemma_fsr_set(st, q, base, m);
        let c1 = exec(s1.rows, base, m);
        let s2 = self.offset_w(s1, p.k, p.terms@);
        self.lemma_offset_w(s1, p.k, p.terms@, base, m);
        self.lemma_sum_same(b, c1, p.terms@, 0);
        let s3 = self.fsr_add(s2);
        self.lemma_fsr_add(s2, base, m);
        let c3 = exec(s3.rows, base, m);
        let s4 = s3.emit(movf(COPY_INDEX));
        lemma_movf(s3, COPY_INDEX, base, m);
        let s5 = self.fsr_add(s4);
        self.lemma_fsr_add(s4, base, m);
        let c5 = exec(s5.rows, base, m);
        let s6 = s5.emit(movf(at(self.retval, 2)));
        lemma_movf(s5, at(self.retval, 2), base, m);
        let c6 = exec(s6.rows, base, m);
        let s7 = s6.emit(fsr_high(Op::Addwf));
        let c7 = exec(s7.rows, base, m);
        assert(c3.ram[COPY_INDEX] == b.ram[COPY_INDEX]);
        assert(c5.ram[at(self.retval, 2)] == b.ram[at(self.retval, 2)]);
        assert(ready(s7, base, m) && points(c6, c7) && c7.ram == c6.ram && fsr_of(c7) == fsr_of(c6) + 256
            * c6.w) by {
            broadcast use group_exec_pointer;

        }
        assert(self.copy_fsr(st, v).rows == s7.rows && self.copy_fsr(st, v).w == s7.w);
    }
}

} // verus!
