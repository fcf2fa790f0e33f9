//! Instruction selection for the enhanced mid-range core.
//!
//! Operands are full data addresses: a later pass inserts the bank selects.
//! Pointers go through the 16-bit FSR0; an object that crosses a bank is
//! reached through its alias in the linear region. Constants that stay in
//! flash are tables of `RETLW`, read by calling their reader. Program memory
//! has pages of 2048 words: each call sets PCLATH to the page of its target
//! and restores the caller's page unless both share it.
use vstd::prelude::*;
use crate::ctx::Ctx;
use crate::emit::{at, hi8, lo8, movf, movwf, Emitter, St};
use crate::ir::Module;
use crate::line::{push_sym, sym_text, Imm, Line, LitOp, Reg, Sym};
use crate::names::NameMap;
use crate::text::same;

pub mod arith;
pub mod call;
pub mod float;
pub mod inst;
pub mod laws;
pub mod layout;
pub mod pointer;
pub mod routine;
pub mod select;
pub mod span;
pub mod value;
pub mod variadic;

pub use crate::ctx::literal_ptr_addr;
pub use crate::output::word_size;
pub use crate::pic14e::layout::{measure_end_org, verify_page_fit, window_align};
pub use crate::pic14e::select::{select, select_with_locs};

verus! {

/// The page that PCLATH holds after a call of a label returns.
pub type PageMap = NameMap<usize>;

/// A byte of common RAM that nothing else uses: the index of a copy loop.
pub const COPY_INDEX: u32 = 0x7E;

/// A byte of common RAM that nothing else uses: a byte in transit.
pub const HOLD: u32 = 0x7F;

/// The selector for one function: its context, the comparison byte, the
/// first of four result bytes, and the page map once it is known.
#[derive(Clone, Copy)]
pub struct Gen<'a> {
    pub cx: Ctx<'a>,
    pub scratch: u32,
    pub retval: u32,
    pub pages: Option<&'a PageList>,
}

/// Labels with the page of each, the latest first.
#[derive(Debug)]
pub enum PageList {
    Empty,
    Entry(Sym, usize, Box<PageList>),
}

/// The page of the label `name`, where one is listed.
pub open spec fn page_in(m: &Module, pages: &PageList, name: Seq<char>) -> Option<usize>
    decreases pages,
{
    match pages {
        PageList::Empty => None,
        PageList::Entry(s, p, rest) => if sym_text(m, *s) == name {
            Some(*p)
        } else {
            page_in(m, rest, name)
        },
    }
}

fn find_page(m: &Module, pages: &PageList, name: &str) -> (r: Option<usize>)
    ensures
        r == page_in(m, pages, name@),
{
    let mut left: &PageList = pages;
    loop
        invariant
            page_in(m, pages, name@) == page_in(m, left, name@),
        decreases left,
    {
        match left {
            PageList::Empty => {
                return None;
            },
            PageList::Entry(s, p, rest) => {
                let mut t = String::new();
                push_sym(&mut t, m, *s);
                assert(t@ =~= sym_text(m, *s));
                if same(t.as_str(), name) {
                    return Some(*p);
                }
                left = rest;
            },
        }
    }
}

/// `MOVWF PCLATH`.
#[verifier::allow_in_spec]
pub fn to_pclath() -> Line
    returns
        Line::Movwf(Reg::Pclath),
{
    Line::Movwf(Reg::Pclath)
}

impl<'a> Gen<'a> {
    pub open spec fn wf(&self) -> bool {
        self.cx.wf()
    }

    /// Stores W to `addr`, unless W is known to hold its value.
    pub open spec fn w_store(&self, st: St, addr: u32) -> St {
        (if st.w == Some(addr) {
            st
        } else {
            st.emit(movwf(addr))
        }).holding(addr)
    }

    /// Loads `addr` into W, unless W is known to hold its value.
    pub open spec fn w_load(&self, st: St, addr: u32) -> St {
        (if st.w == Some(addr) {
            st
        } else {
            st.emit(movf(addr))
        }).holding(addr)
    }

    /// PCLATH becomes the page of `target`.
    pub open spec fn set_page(&self, st: St, target: Sym) -> St {
        st.emit(Line::Lit(LitOp::Movlw, Imm::Page(target))).emit(to_pclath())
    }

    /// Whether a call of `target` leaves PCLATH at the caller's page. Before
    /// pages are known it is taken not to.
    pub open spec fn same_page(&self, target: Sym) -> bool {
        match self.pages {
            Some(p) => page_in(self.cx.m, p, sym_text(self.cx.m, target)) == page_in(
                self.cx.m,
                p,
                self.cx.fname(),
            ),
            None => false,
        }
    }

    /// PCLATH back to the caller's page after a call of `target`.
    pub open spec fn restore_page(&self, st: St, target: Sym) -> St {
        if self.same_page(target) {
            st
        } else {
            self.set_page(st, Sym::Func(self.cx.func))
        }
    }

    /// A call of `target` with PCLATH set for it.
    pub open spec fn far_call(&self, st: St, target: Sym) -> St {
        self.restore_page(self.set_page(st, target).emit(Line::Call(target)), target)
    }

    /// Two literals into the two bytes at `dst`.
    pub open spec fn put2(&self, st: St, lo: Imm, hi: Imm, dst: u32) -> St {
        st.emit(Line::Lit(LitOp::Movlw, lo)).emit(movwf(dst)).emit(
            Line::Lit(LitOp::Movlw, hi),
        ).emit(movwf(at(dst, 1)))
    }

    /// The address `a` into the two bytes at `dst`.
    pub open spec fn put_addr(&self, st: St, a: u32, dst: u32) -> St {
        self.put2(st, Imm::Byte(lo8(a)), Imm::Byte(hi8(a)), dst)
    }

    /// The two bytes at `src` into the two bytes at `dst`.
    pub open spec fn copy2(&self, st: St, src: u32, dst: u32) -> St {
        st.emit(movf(src)).emit(movwf(dst)).emit(movf(at(src, 1))).emit(movwf(at(dst, 1)))
    }

    /// `MOVWF addr`, unless the byte there is known to equal W.
    pub fn emit_w_store(&self, g: &mut Emitter, addr: u32)
        ensures
            final(g)@ == self.w_store(old(g)@, addr),
    {
        if g.w != Some(addr) {
            g.emit(movwf(addr));
        }
        g.holding(addr);
    }

    /// `MOVF addr, W`, unless W is known to equal the byte there.
    pub fn emit_w_load(&self, g: &mut Emitter, addr: u32)
        ensures
            final(g)@ == self.w_load(old(g)@, addr),
    {
        if g.w != Some(addr) {
            g.emit(movf(addr));
        }
        g.holding(addr);
    }

    pub fn emit_set_page(&self, g: &mut Emitter, target: Sym)
        ensures
            final(g)@ == self.set_page(old(g)@, target),
    {
        g.emit(Line::Lit(LitOp::Movlw, Imm::Page(target)));
        g.emit(to_pclath());
    }

    /// Restores PCLATH after a call, unless target and caller share a page.
    pub fn emit_pclath_restore(&self, g: &mut Emitter, target: Sym)
        requires
            self.wf(),
        ensures
            final(g)@ == self.restore_page(old(g)@, target),
    {
        let shared: bool = match self.pages {
            Some(p) => {
                let mut name = String::new();
                push_sym(&mut name, self.cx.m, target);
                assert(name@ =~= sym_text(self.cx.m, target));
                find_page(self.cx.m, p, name.as_str()) == find_page(self.cx.m, p, self.cx.name())
            },
            None => false,
        };
        if !shared {
            self.emit_set_page(g, Sym::Func(self.cx.func));
        }
    }

    pub fn emit_far_call(&self, g: &mut Emitter, target: Sym)
        requires
            self.wf(),
        ensures
            final(g)@ == self.far_call(old(g)@, target),
    {
        self.emit_set_page(g, target);
        g.emit(Line::Call(target));
        self.emit_pclath_restore(g, target);
    }

    pub fn emit_put2(&self, g: &mut Emitter, lo: Imm, hi: Imm, dst: u32)
        ensures
            final(g)@ == self.put2(old(g)@, lo, hi, dst),
    {
        g.emit(Line::Lit(LitOp::Movlw, lo));
        g.emit(movwf(dst));
        g.emit(Line::Lit(LitOp::Movlw, hi));
        g.emit(movwf(at(dst, 1)));
    }

    pub fn emit_put_addr(&self, g: &mut Emitter, a: u32, dst: u32)
        ensures
            final(g)@ == self.put_addr(old(g)@, a, dst),
    {
        self.emit_put2(g, Imm::Byte(lo8(a)), Imm::Byte(hi8(a)), dst);
    }

    pub fn emit_copy2(&self, g: &mut Emitter, src: u32, dst: u32)
        ensures
            final(g)@ == self.copy2(old(g)@, src, dst),
    {
        g.emit(movf(src));
        g.emit(movwf(dst));
        g.emit(movf(at(src, 1)));
        g.emit(movwf(at(dst, 1)));
    }
}

} // verus!
