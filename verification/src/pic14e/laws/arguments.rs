//! What a callee finds in the slots of its parameters, for arguments of every kind.
use vstd::prelude::*;
use crate::emit::{at, clrf, hi8, lo8, movlw, movwf, ram_bit, Row, St};
use crate::error::IselError;
use crate::ir::{Base, CallArg, Param, Pointer, Ty, Val};
use crate::line::{BitOp, Imm, Sym};
use crate::machine::{exec, group_exec_pointer, literal, Machine};
use crate::meaning::{apart, kept_but, limit, passes, signed, word};
use crate::names::func_index;
use crate::pic14e::laws::memory::{lemma_halves, points};
use crate::pic14e::laws::ready;
use crate::pic14e::laws::values::readable;
use crate::pic14e::span::straddles;
use crate::pic14e::{Gen, HOLD};
use crate::runs::{byte_at, lemma_tidy_emit, lemma_word_bytes, tidy};

verus! {

/// How many bytes the arguments from `n` on take, up to argument `i`.
pub open spec fn taken_by(args: Seq<CallArg>, n: int, i: int) -> int
    decreases i - n,
{
    if i <= n {
        0
    } else {
        taken_by(args, n, i - 1) + args[i - 1].ty->0.bytes()
    }
}

impl<'a> Gen<'a> {
    /// The folded pointer behind an operand.
    pub open spec fn object(&self, v: Val) -> Pointer {
        choose|q: Pointer| self.behind(v, q)
    }

    /// The byte of RAM at which the object that a result pointer names starts.
    pub open spec fn result_home(&self, v: Val) -> Option<u32> {
        match v {
            Val::Const(_) => None,
            Val::Global(g) => self.cx.global(g@),
            Val::Reg(r) => match self.cx.pointer(r@) {
                Some(p) => if p.k == 0 && p.terms@.len() == 0 {
                    match p.base {
                        Base::Global(name) => self.cx.global(name@),
                        Base::Slot(s, indirect) => if indirect {
                            None
                        } else {
                            self.cx.slot(self.cx.fname(), s@)
                        },
                    }
                } else {
                    None
                },
                None => None,
            },
        }
    }

    /// How many bytes that object has.
    pub open spec fn result_span(&self, v: Val) -> Option<u16> {
        match v {
            Val::Const(_) => None,
            Val::Global(g) => self.cx.size_of(g@),
            Val::Reg(r) => match self.cx.pointer(r@) {
                Some(p) => self.span_of(p),
                None => None,
            },
        }
    }

    /// The address that a pointer argument stands for: that of a global or of a
    /// function, the number in a register, the null pointer, or where a folded
    /// pointer leads. A local that is an object itself is where its slot is.
    pub open spec fn passed(&self, m: Machine, v: Val) -> int {
        match v {
            Val::Const(_) => 0,
            Val::Global(g) => if self.cx.is_func(g@) {
                self.entry(m, g@)
            } else {
                self.address(g@)
            },
            Val::Reg(r) => match self.cx.pointer(r@) {
                None => word(m, self.cx.slot(self.cx.fname(), r@)->0, 2),
                Some(p) => match p.base {
                    Base::Slot(s, indirect) => if !indirect && !self.cx.holds_addr(s@) {
                        self.cx.slot(self.cx.fname(), s@)->0 as int
                    } else {
                        self.pointed(m, p)
                    },
                    Base::Global(_) => self.pointed(m, p),
                },
            },
        }
    }

    /// Whether a pointer argument can be passed in the two bytes at `pa`.
    pub open spec fn pointer_passes(&self, m: Machine, v: Val, pa: u32) -> bool {
        match v {
            Val::Const(c) => c == 0,
            Val::Global(g) => self.cx.is_func(g@) || (self.cx.in_flash(g@) == Some(false)
                && self.placed(g@)),
            Val::Reg(r) => match self.cx.pointer(r@) {
                None => {
                    &&& self.cx.slot(self.cx.fname(), r@) is Some
                    &&& ({
                        let a = self.cx.slot(self.cx.fname(), r@)->0;
                        a <= 0xFFFF && (a == pa || apart(a, 2, pa, 2))
                    })
                },
                Some(p) => {
                    &&& self.terms_stand(p, pa)
                    &&& p.terms@.len() <= 1
                    &&& apart(pa, 2, HOLD, 1)
                    &&& !self.carry_is_lost(m, p)
                    &&& match p.base {
                        Base::Global(name) => self.placed(name@) && self.address(name@) + p.k
                            <= 0xFFFF,
                        Base::Slot(s, indirect) => if !indirect && !self.cx.holds_addr(s@) {
                            &&& self.cx.slot(self.cx.fname(), s@) is Some
                            &&& self.cx.slot(self.cx.fname(), s@)->0 <= 0xFFFF
                            &&& p.k == 0 && p.terms@.len() == 0
                        } else {
                            &&& self.cx.slot(self.cx.fname(), s@) is Some
                            &&& readable(self.cx.slot(self.cx.fname(), s@)->0, pa)
                        },
                    }
                },
            },
        }
    }

    /// Where argument `i` of a call of `func` goes: to the slot of its parameter, or,
    /// past the last parameter, behind the variadic arguments before it.
    pub open spec fn arg_at(&self, func: Seq<char>, ps: Seq<Param>, args: Seq<CallArg>, i: int) -> u32 {
        if i < ps.len() {
            self.param_at(func, ps[i])
        } else {
            (self.cx.slot(func, "__va"@)->0 + taken_by(args, ps.len() as int, i)) as u32
        }
    }

    /// How many bytes argument `i` takes there: those of a struct passed by value,
    /// two for a pointer, else those of its type, or the four of a widened one.
    pub open spec fn arg_len(&self, ps: Seq<Param>, args: Seq<CallArg>, i: int) -> u8 {
        let arg = args[i];
        if i >= ps.len() {
            arg.ty->0.bytes()
        } else if arg.byval is Some {
            arg.byval->0
        } else if arg.sret || arg.ty is None {
            2
        } else if arg.ty->0.bytes() < ps[i].width {
            4
        } else {
            arg.ty->0.bytes()
        }
    }

    /// Byte `j` of argument `i`, as the caller has it.
    pub open spec fn arg_byte(
        &self,
        m: Machine,
        func: Seq<char>,
        ps: Seq<Param>,
        args: Seq<CallArg>,
        i: int,
        j: u8,
    ) -> u8 {
        let arg = args[i];
        if i < ps.len() && arg.byval is Some {
            m.ram[self.target(m, self.object(arg.val), j)]
        } else if i < ps.len() && arg.sret {
            byte_at(self.result_home(arg.val)->0 as int, j)
        } else if arg.ty is None {
            byte_at(self.passed(m, arg.val), j)
        } else {
            let n = arg.ty->0.bytes();
            let x = self.value(m, arg.val, n);
            byte_at(
                if i < ps.len() && n < ps[i].width && func == "__sitofp_f32"@ {
                    signed(x, n) % limit(4)
                } else {
                    x
                },
                j,
            )
        }
    }

    /// Whether argument `i` can be passed from where `m` stands: it fits its parameter,
    /// and what it is read from is known and is not its own slot.
    pub open spec fn arg_stands(
        &self,
        m: Machine,
        func: Seq<char>,
        ps: Seq<Param>,
        args: Seq<CallArg>,
        i: int,
    ) -> bool {
        let arg = args[i];
        let pa = self.arg_at(func, ps, args, i);
        let n = self.arg_len(ps, args, i);
        &&& pa <= 0xFFFF
        &&& if i >= ps.len() {
            let off = taken_by(args, ps.len() as int, i);
            &&& self.cx.slot(func, "__va"@) is Some
            &&& arg.ty is Some
            &&& self.cx.slot(func, "__va"@)->0 + off <= 0xFFFF
            &&& (self.cx.slot(func, "__va"@)->0 & 0xFF) + off + n <= 0x100
            &&& self.has_bytes(arg.val, n)
            &&& self.stays(arg.val, n, pa)
        } else {
            let p = ps[i];
            &&& self.cx.slot(func, p.name@) is Some
            &&& if arg.byval is Some {
                let q = self.object(arg.val);
                &&& p.byval == arg.byval
                &&& self.behind(arg.val, q)
                &&& self.beside(q, pa, n as int)
                &&& forall|j: u8|
                    j < n ==> #[trigger] self.leads(m, q, j) && self.target(m, q, j) != self.scratch
                        && apart(pa, n as int, self.target(m, q, j), 1)
            } else if arg.sret {
                &&& p.sret
                &&& self.result_home(arg.val) is Some
                &&& self.result_home(arg.val)->0 <= 0xFFFF
                &&& self.result_span(arg.val) is Some
                &&& straddles(
                    self.cx.device,
                    self.result_home(arg.val)->0,
                    self.result_span(arg.val)->0,
                ) == Ok::<bool, IselError>(false)
            } else if arg.ty is None {
                p.width == 2 && self.pointer_passes(m, arg.val, pa)
            } else if arg.ty->0.bytes() >= p.width {
                self.has_bytes(arg.val, n) && self.stays(arg.val, n, pa)
            } else {
                &&& func == "__uitofp_f32"@ || func == "__sitofp_f32"@
                &&& p.width == 4
                &&& arg.ty == Some(Ty::I8) || arg.ty == Some(Ty::I16)
                &&& self.plain(arg.val)
                &&& self.fits_wide(arg.val, 4, pa, 4)
            }
        }
    }

    /// The lines that pass argument `i`.
    pub open spec fn pass_one(&self, st: St, func: Seq<char>, ps: Seq<Param>, args: Seq<CallArg>, i: int) -> St {
        if i < ps.len() {
            self.arg_step(st, func, ps[i], args[i])
        } else {
            self.extra_step(st, func, args[i], taken_by(args, ps.len() as int, i) as u32).0
        }
    }

    /// A pointer argument arrives as the address it stands for.
    proof fn lemma_pointer_passed(&self, st: St, v: Val, pa: u32, base: int, m: Machine)
        requires
            ready(st, base, m),
            st.err is None,
            pa <= 0xFFFF,
            self.pointer_passes(exec(st.rows, base, m), v, pa),
        ensures
            ({
                let b = exec(st.rows, base, m);
                let s = self.ptr_arg(st, v, pa);
                let a = exec(s.rows, base, m);
                &&& ready(s, base, m)
                &&& passes(b, a)
                &&& word(a, pa, 2) == self.passed(b, v)
                &&& forall|x: u32|
                    x != HOLD && (x < pa || x >= pa + 2) ==> #[trigger] a.ram[x] == b.ram[x]
            }),
    {
        let b = exec(st.rows, base, m);
        match v {
            Val::Const(c) => {
                let s1 = st.emit(clrf(pa));
                self.lemma_clrf(st, pa, base, m);
                self.lemma_clrf(s1, at(pa, 1), base, m);
            },
            Val::Global(g) => if self.cx.is_func(g@) {
                let f = Sym::Func(self.cx.func_no(g@));
                self.lemma_two_put(st, Imm::Low(f), Imm::High(f), pa, base, m);
            } else {
                self.lemma_global_put(st, g@, pa, base, m);
            },
            Val::Reg(r) => match self.cx.pointer(r@) {
                None => {
                    let sa = self.cx.slot(self.cx.fname(), r@)->0;
                    self.lemma_two_copied(st, sa, pa, base, m);
                },
                Some(p) => {
                    if let Base::Global(name) = p.base {
                        self.lemma_value_step(St::start(0), name@, p.k);
                        self.lemma_value_step(St::start(0), name@, 0);
                    }
                    self.law_pointer_argument_is_its_address(st, r, p, pa, base, m);
                },
            },
        }
    }

    proof fn lemma_tidy_pointer(
        &self,
        r0: Seq<Row>,
        next: u32,
        st: St,
        v: Val,
        pa: u32,
        m: Machine,
    )
        requires
            tidy(r0, next, st),
            self.pointer_passes(m, v, pa),
        ensures
            tidy(r0, next, self.ptr_arg(st, v, pa)),
    {
        broadcast use lemma_tidy_emit;

        match v {
            Val::Global(g) => if !self.cx.is_func(g@) {
                self.lemma_value_step(st, g@, 0);
            },
            Val::Reg(r) => match self.cx.pointer(r@) {
                None => {},
                Some(p) => {
                    if p.terms@.len() == 1 {
                        assert(self.term_slot(p.terms@[0]) is Some);
                    }
                    if let Base::Global(name) = p.base {
                        self.lemma_value_step(st, name@, p.k);
                        self.lemma_value_step(st, name@, 0);
                    }
                },
            },
            Val::Const(_) => {},
        }
    }

    proof fn lemma_result_target(&self, st: St, v: Val)
        requires
            self.result_home(v) is Some,
            self.result_span(v) is Some,
            straddles(self.cx.device, self.result_home(v)->0, self.result_span(v)->0) == Ok::<
                bool,
                IselError,
            >(false),
        ensures
            self.sret_target(st, v) == (st, self.result_home(v)->0),
    {
    }

    proof fn lemma_tidy_byval(
        &self,
        r0: Seq<Row>,
        next: u32,
        st: St,
        v: Val,
        q: Pointer,
        n: u8,
        pa: u32,
        k: u8,
        m: Machine,
    )
        requires
            tidy(r0, next, st),
            self.behind(v, q),
            forall|j: u8| j < n ==> #[trigger] self.leads(m, q, j),
        ensures
            tidy(r0, next, self.byval_from(st, v, n, pa, k)),
        decreases n - k,
    {
        if k < n {
            assert(self.leads(m, q, k));
            self.lemma_tidy_read(r0, next, st, v, q, k, m);
            let s1 = self.ptr_load_byte(st, v, k);
            lemma_tidy_emit(r0, next, s1, movwf(at(pa, k)));
            self.lemma_tidy_byval(
                r0,
                next,
                s1.emit(movwf(at(pa, k))),
                v,
                q,
                n,
                pa,
                (k + 1) as u8,
                m,
            );
        }
    }

    /// The lines of an argument that can be passed take no label and meet no error.
    proof fn lemma_tidy_arg(
        &self,
        r0: Seq<Row>,
        next: u32,
        st: St,
        func: Seq<char>,
        ps: Seq<Param>,
        args: Seq<CallArg>,
        i: int,
        m: Machine,
    )
        requires
            tidy(r0, next, st),
            0 <= i < args.len(),
            0 <= taken_by(args, ps.len() as int, i),
            self.arg_stands(m, func, ps, args, i),
        ensures
            tidy(r0, next, self.pass_one(st, func, ps, args, i)),
    {
        let arg = args[i];
        let pa = self.arg_at(func, ps, args, i);
        let n = self.arg_len(ps, args, i);
        if i >= ps.len() {
            self.lemma_tidy_move(r0, next, st, arg.val, n, pa, 0);
        } else if arg.byval is Some {
            self.lemma_tidy_byval(r0, next, st, arg.val, self.object(arg.val), n, pa, 0, m);
        } else if arg.sret {
            self.lemma_result_target(st, arg.val);
            broadcast use lemma_tidy_emit;

        } else if arg.ty is None {
            self.lemma_tidy_pointer(r0, next, st, arg.val, pa, m);
        } else {
            let t = arg.ty->0.bytes();
            self.lemma_tidy_move(r0, next, st, arg.val, t, pa, 0);
            if t < ps[i].width {
                let s1 = self.move_from(st, arg.val, t, pa, 0);
                self.lemma_tidy_clear(r0, next, s1, pa, 4, t);
                let sign = at(pa, (t - 1) as u8);
                let s2 = s1.emit(movlw(0)).emit(ram_bit(BitOp::Btfsc, sign, 7)).emit(movlw(0xFF));
                assert(tidy(r0, next, s2)) by {
                    broadcast use lemma_tidy_emit;

                }
                self.lemma_tidy_fill(r0, next, s2, pa, 4, t);
            }
        }
    }

    /// One argument arrives.
    proof fn lemma_arg_passed(
        &self,
        st: St,
        func: Seq<char>,
        ps: Seq<Param>,
        args: Seq<CallArg>,
        i: int,
        base: int,
        m: Machine,
    )
        requires
            ready(st, base, m),
            st.err is None,
            0 <= i < args.len(),
            0 <= taken_by(args, ps.len() as int, i),
            self.arg_stands(exec(st.rows, base, m), func, ps, args, i),
        ensures
            ({
                let b = exec(st.rows, base, m);
                let s = self.pass_one(st, func, ps, args, i);
                let a = exec(s.rows, base, m);
                let pa = self.arg_at(func, ps, args, i);
                let n = self.arg_len(ps, args, i);
                &&& ready(s, base, m)
                &&& points(b, a)
                &&& forall|j: u8|
                    j < n ==> #[trigger] a.ram[at(pa, j)] == self.arg_byte(b, func, ps, args, i, j)
                &&& forall|x: u32|
                    x != self.scratch && x != HOLD && (x < pa || x >= pa + n) ==> #[trigger] a.ram[x]
                        == b.ram[x]
            }),
    {
        let b = exec(st.rows, base, m);
        let s = self.pass_one(st, func, ps, args, i);
        let a = exec(s.rows, base, m);
        let arg = args[i];
        let pa = self.arg_at(func, ps, args, i);
        let n = self.arg_len(ps, args, i);
        if i >= ps.len() {
            self.lemma_value_moved(st, arg.val, n, pa, base, m);
            self.lemma_number_in_place(a, pa, n, self.value(b, arg.val, n));
        } else if arg.byval is Some {
            let q = self.object(arg.val);
            self.law_struct_argument_is_copied(st, arg.val, q, n, pa, base, m);
        } else if arg.sret {
            self.lemma_result_target(st, arg.val);
            let t = self.result_home(arg.val)->0;
            lemma_halves(t);
            self.lemma_two_put(st, Imm::Byte(lo8(t)), Imm::Byte(hi8(t)), pa, base, m);
            self.lemma_number_in_place(a, pa, 2, t as int);
        } else if arg.ty is None {
            self.lemma_pointer_passed(st, arg.val, pa, base, m);
            self.lemma_number_in_place(a, pa, 2, self.passed(b, arg.val));
        } else if arg.ty->0.bytes() >= ps[i].width {
            self.lemma_value_moved(st, arg.val, n, pa, base, m);
            self.lemma_number_in_place(a, pa, n, self.value(b, arg.val, n));
        } else {
            self.law_conversion_source_is_widened(st, func, ps[i], arg, base, m);
            let t = arg.ty->0.bytes();
            self.lemma_plain_value(b, arg.val, t);
            let x = self.value(b, arg.val, t);
            reveal_strlit("__uitofp_f32");
            reveal_strlit("__sitofp_f32");
            assert("__uitofp_f32"@[2] != "__sitofp_f32"@[2]);
            self.lemma_number_in_place(
                a,
                pa,
                4,
                if func == "__sitofp_f32"@ {
                    signed(x, t) % limit(4)
                } else {
                    x
                },
            );
        }
    }

    proof fn lemma_number_in_place(&self, a: Machine, pa: u32, n: u8, x: int)
        requires
            n <= 4,
            word(a, pa, n) == x,
        ensures
            forall|j: u8| j < n ==> #[trigger] a.ram[at(pa, j)] == byte_at(x, j),
    {
        assert forall|j: u8| j < n implies #[trigger] a.ram[at(pa, j)] == byte_at(x, j) by {
            lemma_word_bytes(a, pa, n, j);
        }
    }

    /// A struct of `n` bytes that is passed by value arrives whole: for every `j` below
    /// `n`, byte `j` of the object behind the argument stands in byte `j` of the
    /// parameter's slot. Nothing else changes but the scratch byte.
    pub proof fn law_struct_arrives_whole(
        &self,
        st: St,
        func: Seq<char>,
        p: Param,
        arg: CallArg,
        q: Pointer,
        n: u8,
        base: int,
        m: Machine,
    )
        requires
            ready(st, base, m),
            st.err is None,
            arg.byval == Some(n),
            p.byval == Some(n),
            self.cx.slot(func, p.name@) is Some,
            self.behind(arg.val, q),
            self.beside(q, self.cx.slot(func, p.name@)->0, n as int),
            ({
                let b = exec(st.rows, base, m);
                let pa = self.cx.slot(func, p.name@)->0;
                forall|j: u8|
                    j < n ==> #[trigger] self.leads(b, q, j) && self.target(b, q, j) != self.scratch
                        && apart(pa, n as int, self.target(b, q, j), 1)
            }),
        ensures
            ({
                let pa = self.cx.slot(func, p.name@)->0;
                let b = exec(st.rows, base, m);
                let s = self.arg_step(st, func, p, arg);
                let a = exec(s.rows, base, m);
                &&& ready(s, base, m)
                &&& s.err is None
                &&& points(b, a)
                &&& forall|j: u8|
                    j < n ==> #[trigger] a.ram[at(pa, j)] == b.ram[self.target(b, q, j)]
                &&& kept_but(b, a, pa, n as int, self.scratch)
            }),
    {
        let pa = self.cx.slot(func, p.name@)->0;
        let b = exec(st.rows, base, m);
        self.law_struct_argument_is_copied(st, arg.val, q, n, pa, base, m);
        self.lemma_tidy_byval(st.rows, st.next, st, arg.val, q, n, pa, 0, b);
    }

    /// Whether a byte is none of those that the first `i` arguments of a call are
    /// passed in, nor one that is used on the way.
    pub open spec fn untouched(
        &self,
        func: Seq<char>,
        ps: Seq<Param>,
        args: Seq<CallArg>,
        i: int,
        x: u32,
    ) -> bool {
        &&& x != self.scratch
        &&& x != HOLD
        &&& forall|k: int|
            #![trigger args[k]]
            0 <= k < i ==> x < self.arg_at(func, ps, args, k) || x >= self.arg_at(func, ps, args, k)
                + self.arg_len(ps, args, k)
    }

    /// Whether two machines differ at most in what passing the first `i` arguments
    /// changes.
    pub open spec fn agrees(
        &self,
        b: Machine,
        c: Machine,
        func: Seq<char>,
        ps: Seq<Param>,
        args: Seq<CallArg>,
        i: int,
    ) -> bool {
        &&& c.core == b.core
        &&& c.pclath == b.pclath
        &&& c.links == b.links
        &&& forall|x: u32| self.untouched(func, ps, args, i, x) ==> #[trigger] c.ram[x] == b.ram[x]
    }

    /// Whether argument `i` can be passed after the arguments before it, whatever they
    /// are, and is still what it was.
    pub open spec fn arg_steady(
        &self,
        b: Machine,
        func: Seq<char>,
        ps: Seq<Param>,
        args: Seq<CallArg>,
        i: int,
    ) -> bool {
        forall|c: Machine| #[trigger]
            self.agrees(b, c, func, ps, args, i) ==> self.arg_stands(c, func, ps, args, i) && (
            forall|j: u8|
                j < self.arg_len(ps, args, i) ==> #[trigger] self.arg_byte(c, func, ps, args, i, j)
                    == self.arg_byte(b, func, ps, args, i, j))
    }

    /// Whether the arguments of a call can be passed one after the other, each in bytes
    /// of its own.
    #[verifier::opaque]
    pub open spec fn passable(&self, b: Machine, func: Seq<char>, ps: Seq<Param>, args: Seq<CallArg>) -> bool {
        &&& forall|i: int| 0 <= i < args.len() ==> #[trigger] self.arg_steady(b, func, ps, args, i)
        &&& forall|i: int|
            #![trigger args[i]]
            0 <= i < args.len() ==> {
                let (pa, n) = (self.arg_at(func, ps, args, i), self.arg_len(ps, args, i) as int);
                apart(pa, n, self.scratch, 1) && apart(pa, n, HOLD, 1)
            }
        &&& forall|i: int, k: int|
            #![trigger args[i], args[k]]
            0 <= i < args.len() && 0 <= k < args.len() && i != k ==> apart(
                self.arg_at(func, ps, args, i),
                self.arg_len(ps, args, i) as int,
                self.arg_at(func, ps, args, k),
                self.arg_len(ps, args, k) as int,
            )
    }

    /// Whether argument `i`, as `b` has it, stands in its place in `a`.
    pub open spec fn in_place(
        &self,
        b: Machine,
        a: Machine,
        func: Seq<char>,
        ps: Seq<Param>,
        args: Seq<CallArg>,
        i: int,
    ) -> bool {
        forall|j: u8|
            j < self.arg_len(ps, args, i) ==> #[trigger] a.ram[at(
                self.arg_at(func, ps, args, i),
                j,
            )] == self.arg_byte(b, func, ps, args, i, j)
    }

    /// Whether every argument stands in its place and nothing else changed but bytes
    /// used on the way.
    #[verifier::opaque]
    pub open spec fn all_in_place(
        &self,
        b: Machine,
        a: Machine,
        func: Seq<char>,
        ps: Seq<Param>,
        args: Seq<CallArg>,
    ) -> bool {
        &&& self.agrees(b, a, func, ps, args, args.len() as int)
        &&& forall|i: int| 0 <= i < args.len() ==> #[trigger] self.in_place(b, a, func, ps, args, i)
    }

    proof fn lemma_taken(args: Seq<CallArg>, n: int, i: int)
        ensures
            0 <= taken_by(args, n, i),
        decreases i - n,
    {
        if i > n {
            Self::lemma_taken(args, n, i - 1);
        }
    }

    /// The lines of the arguments from `i` on take no label and meet no error.
    pub(crate) proof fn lemma_tidy_args(
        &self,
        r0: Seq<Row>,
        next: u32,
        st: St,
        func: Seq<char>,
        ps: Seq<Param>,
        args: Seq<CallArg>,
        off: u32,
        i: int,
        b: Machine,
    )
        requires
            tidy(r0, next, st),
            self.passable(b, func, ps, args),
            0 <= i <= args.len(),
            i >= ps.len() ==> off == taken_by(args, ps.len() as int, i),
            i < ps.len() ==> off == 0,
        ensures
            tidy(r0, next, self.args_from(st, func, ps, args, off, i)),
        decreases args.len() - i,
    {
        reveal(Gen::passable);
        if i < args.len() {
            Self::lemma_taken(args, ps.len() as int, i);
            assert(self.arg_steady(b, func, ps, args, i));
            assert(self.agrees(b, b, func, ps, args, i));
            self.lemma_tidy_arg(r0, next, st, func, ps, args, i, b);
            let s1 = self.pass_one(st, func, ps, args, i);
            let next_off = if i < ps.len() {
                off
            } else {
                (off + args[i].ty->0.bytes()) as u32
            };
            self.lemma_tidy_args(r0, next, s1, func, ps, args, next_off, i + 1, b);
        }
    }

    proof fn lemma_args_passed(
        &self,
        st: St,
        func: Seq<char>,
        ps: Seq<Param>,
        args: Seq<CallArg>,
        off: u32,
        i: int,
        b: Machine,
        base: int,
        m: Machine,
    )
        requires
            ready(st, base, m),
            st.err is None,
            self.passable(b, func, ps, args),
            0 <= i <= args.len(),
            i >= ps.len() ==> off == taken_by(args, ps.len() as int, i),
            i < ps.len() ==> off == 0,
            self.agrees(b, exec(st.rows, base, m), func, ps, args, i),
            forall|k: int|
                0 <= k < i ==> #[trigger] self.in_place(
                    b,
                    exec(st.rows, base, m),
                    func,
                    ps,
                    args,
                    k,
                ),
        ensures
            ({
                let s = self.args_from(st, func, ps, args, off, i);
                &&& ready(s, base, m)
                &&& self.all_in_place(b, exec(s.rows, base, m), func, ps, args)
            }),
        decreases args.len() - i,
    {
        reveal(Gen::passable);
        reveal(Gen::all_in_place);
        if i < args.len() {
            let c = exec(st.rows, base, m);
            Self::lemma_taken(args, ps.len() as int, i);
            assert(self.arg_steady(b, func, ps, args, i));
            self.lemma_arg_passed(st, func, ps, args, i, base, m);
            self.lemma_tidy_arg(st.rows, st.next, st, func, ps, args, i, c);
            let s1 = self.pass_one(st, func, ps, args, i);
            let d = exec(s1.rows, base, m);
            let pa = self.arg_at(func, ps, args, i);
            let n = self.arg_len(ps, args, i);
            assert(self.agrees(b, d, func, ps, args, i + 1)) by {
                assert forall|x: u32| self.untouched(func, ps, args, i + 1, x) implies #[trigger] d.ram[x]
                    == b.ram[x] by {
                    assert(x < self.arg_at(func, ps, args, i) || x >= self.arg_at(func, ps, args, i)
                        + self.arg_len(ps, args, i)) by {
                        let z = args[i];
                    }
                    assert(self.untouched(func, ps, args, i, x));
                    assert(c.ram[x] == b.ram[x]);
                }
            }
            assert forall|k: int| 0 <= k < i + 1 implies #[trigger] self.in_place(
                b,
                d,
                func,
                ps,
                args,
                k,
            ) by {
                if k < i {
                    assert(self.in_place(b, c, func, ps, args, k));
                    let ka = self.arg_at(func, ps, args, k);
                    let kn = self.arg_len(ps, args, k);
                    assert(apart(ka, kn as int, pa, n as int) && apart(ka, kn as int, self.scratch, 1)
                        && apart(ka, kn as int, HOLD, 1)) by {
                        let (z, y) = (args[i], args[k]);
                    }
                    assert(ka <= 0xFFFF) by {
                        assert(self.arg_steady(b, func, ps, args, k));
                        assert(self.agrees(b, b, func, ps, args, k));
                    }
                    assert forall|j: u8| j < kn implies #[trigger] d.ram[at(ka, j)]
                        == self.arg_byte(b, func, ps, args, k, j) by {
                        assert(c.ram[at(ka, j)] == self.arg_byte(b, func, ps, args, k, j));
                    }
                }
            }
            let next_off = if i < ps.len() {
                off
            } else {
                (off + args[i].ty->0.bytes()) as u32
            };
            self.lemma_args_passed(s1, func, ps, args, next_off, i + 1, b, base, m);
        }
    }

    /// Every argument of a call reaches the place its callee reads it from: a number,
    /// a pointer, a struct passed by value, a result pointer or a variadic argument.
    /// Nothing else changes but the scratch byte and the parking byte.
    pub proof fn law_every_argument_is_passed(
        &self,
        st: St,
        func: Seq<char>,
        f: usize,
        args: Seq<CallArg>,
        base: int,
        m: Machine,
    )
        requires
            ready(st, base, m),
            st.err is None,
            func_index(self.cx.m, func) == Some(f),
            self.passable(
                exec(st.rows, base, m),
                func,
                self.cx.m.funcs@[f as int].params@,
                args,
            ),
        ensures
            ({
                let ps = self.cx.m.funcs@[f as int].params@;
                let b = exec(st.rows, base, m);
                let s = self.call_args(st, func, args);
                &&& ready(s, base, m)
                &&& s.err is None
                &&& self.all_in_place(b, exec(s.rows, base, m), func, ps, args)
            }),
    {
        let ps = self.cx.m.funcs@[f as int].params@;
        let b = exec(st.rows, base, m);
        self.lemma_args_passed(st, func, ps, args, 0, 0, b, base, m);
        self.lemma_tidy_args(st.rows, st.next, st, func, ps, args, 0, 0, b);
    }

    /// The arguments are in place, and so is PCLATH, where the call of `f` goes.
    pub(crate) proof fn lemma_call_ready(
        &self,
        st: St,
        func: Seq<char>,
        f: usize,
        args: Seq<CallArg>,
        b: Machine,
        base: int,
        m: Machine,
    )
        requires
            ready(st, base, m),
            st.err is None,
            func_index(self.cx.m, func) == Some(f),
            self.passable(b, func, self.cx.m.funcs@[f as int].params@, args),
            ({
                let c = exec(st.rows, base, m);
                c.core == b.core && c.pclath == b.pclath && c.links == b.links && c.ram == b.ram
            }),
        ensures
            ({
                let s = self.set_page(self.call_args(st, func, args), Sym::Func(f));
                let a = exec(s.rows, base, m);
                &&& ready(s, base, m)
                &&& tidy(st.rows, st.next, s)
                &&& a.core == b.core
                &&& a.links == b.links
                &&& a.pclath == literal(b, Imm::Page(Sym::Func(f)))
                &&& self.all_in_place(
                    b,
                    Machine { pclath: b.pclath, ..a },
                    func,
                    self.cx.m.funcs@[f as int].params@,
                    args,
                )
            }),
    {
        let ps = self.cx.m.funcs@[f as int].params@;
        let s1 = self.call_args(st, func, args);
        self.lemma_args_passed(st, func, ps, args, 0, 0, b, base, m);
        self.lemma_tidy_call(st, func, f, args, b);
        let c = exec(s1.rows, base, m);
        let s = self.set_page(s1, Sym::Func(f));
        let a = exec(s.rows, base, m);
        assert(c.core == b.core && c.links == b.links) by {
            reveal(Gen::all_in_place);
        }
        assert(ready(s, base, m) && a.core == c.core && a.links == c.links && a.ram == c.ram && a.pclath
            == literal(c, Imm::Page(Sym::Func(f)))) by {
            broadcast use group_exec_pointer;

        }
        self.lemma_same_places(b, c, Machine { pclath: b.pclath, ..a }, func, ps, args);
    }

    proof fn lemma_same_places(
        &self,
        b: Machine,
        c: Machine,
        a: Machine,
        func: Seq<char>,
        ps: Seq<Param>,
        args: Seq<CallArg>,
    )
        requires
            self.all_in_place(b, c, func, ps, args),
            a.core == c.core,
            a.links == c.links,
            a.pclath == b.pclath,
            a.ram == c.ram,
        ensures
            self.all_in_place(b, a, func, ps, args),
    {
        reveal(Gen::all_in_place);
        assert forall|i: int| 0 <= i < args.len() implies #[trigger] self.in_place(
            b,
            a,
            func,
            ps,
            args,
            i,
        ) by {
            assert(self.in_place(b, c, func, ps, args, i));
        }
    }

    /// The lines that lead to a call take no label and meet no error.
    pub(crate) proof fn lemma_tidy_call(
        &self,
        st: St,
        func: Seq<char>,
        f: usize,
        args: Seq<CallArg>,
        b: Machine,
    )
        requires
            st.err is None,
            func_index(self.cx.m, func) == Some(f),
            self.passable(b, func, self.cx.m.funcs@[f as int].params@, args),
        ensures
            tidy(st.rows, st.next, self.set_page(self.call_args(st, func, args), Sym::Func(f))),
    {
        let ps = self.cx.m.funcs@[f as int].params@;
        self.lemma_tidy_args(st.rows, st.next, st, func, ps, args, 0, 0, b);
        broadcast use lemma_tidy_emit;

    }
}

} // verus!
