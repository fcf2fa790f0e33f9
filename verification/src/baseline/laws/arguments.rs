//! What a callee finds in the slots of its parameters, for arguments of every kind.
use vstd::prelude::*;
use crate::baseline::laws::passing::lemma_six_bits;
use crate::baseline::Gen;
use crate::emit::{at, movlw, Row, St};
use crate::ir::{Base, CallArg, Param, Pointer, Val};
use crate::line::{Imm, Op, Sym};
use crate::machine::{exec, literal, Machine};
use crate::meaning::{apart, passes, word};
use crate::names::func_index;
use crate::runs::{byte_at, lemma_tidy_emit, lemma_word_bytes, tidy};

verus! {

impl<'a> Gen<'a> {
    /// The folded pointer behind an operand.
    pub open spec fn object(&self, v: Val) -> Pointer {
        choose|q: Pointer| self.behind(v, q)
    }

    /// The byte of RAM at which the object that a result pointer names starts.
    pub open spec fn result_home(&self, v: Val) -> Option<u32> {
        match v {
            Val::Const(_) => None,
            Val::Global(g) => self.cx.global(g@),
            Val::Reg(r) => match self.cx.pointer(r@) {
                Some(p) => if p.k == 0 && p.terms@.len() == 0 {
                    match p.base {
                        Base::Global(name) => self.cx.global(name@),
                        Base::Slot(s, indirect) => if indirect {
                            None
                        } else {
                            self.cx.slot(self.cx.fname(), s@)
                        },
                    }
                } else {
                    None
                },
                None => None,
            },
        }
    }

    /// The address that a pointer argument stands for: that of a global or of a
    /// function, the byte in a register, the null pointer, or where a folded pointer
    /// leads.
    pub open spec fn passed(&self, m: Machine, v: Val) -> int {
        match v {
            Val::Const(_) => 0,
            Val::Global(g) => if self.cx.is_func(g@) {
                literal(m, Imm::Low(Sym::Func(self.cx.func_no(g@)))) as int
            } else {
                self.cx.global(g@)->0 as int
            },
            Val::Reg(r) => match self.cx.pointer(r@) {
                None => m.ram[self.cx.slot(self.cx.fname(), r@)->0] as int,
                Some(p) => self.target(m, p, 0) as int,
            },
        }
    }

    /// Whether a pointer argument can be passed.
    pub open spec fn pointer_passes(&self, m: Machine, v: Val) -> bool {
        match v {
            Val::Const(c) => c == 0,
            Val::Global(g) => self.cx.is_func(g@) || (self.cx.in_flash(g@) == Some(false) && (
            self.cx.global(g@) matches Some(a) && a <= 0x3F)),
            Val::Reg(r) => match self.cx.pointer(r@) {
                None => self.plain(v, 1),
                Some(p) => self.leads(m, p, 0) && self.is_passed(p),
            },
        }
    }

    /// Where argument `i` of a call of `func` goes.
    pub open spec fn arg_at(&self, func: Seq<char>, ps: Seq<Param>, args: Seq<CallArg>, i: int) -> u32 {
        self.param_at(func, ps[i])
    }

    /// How many bytes argument `i` takes there: those of a struct passed by value,
    /// two for a pointer, else those of its type.
    pub open spec fn arg_len(&self, ps: Seq<Param>, args: Seq<CallArg>, i: int) -> u8 {
        let arg = args[i];
        if arg.byval is Some {
            arg.byval->0
        } else if arg.sret || arg.ty is None {
            2
        } else {
            arg.ty->0.bytes()
        }
    }

    /// Byte `j` of argument `i`, as the caller has it.
    pub open spec fn arg_byte(
        &self,
        m: Machine,
        func: Seq<char>,
        ps: Seq<Param>,
        args: Seq<CallArg>,
        i: int,
        j: u8,
    ) -> u8 {
        let arg = args[i];
        if arg.byval is Some {
            m.ram[self.target(m, self.object(arg.val), j)]
        } else if arg.sret {
            byte_at(self.result_home(arg.val)->0 as int, j)
        } else if arg.ty is None {
            byte_at(self.passed(m, arg.val), j)
        } else {
            byte_at(self.value(m, arg.val, arg.ty->0.bytes()), j)
        }
    }

    /// Whether argument `i` can be passed from where `m` stands: it fits its parameter,
    /// and what it is read from is known and is not its own slot.
    pub open spec fn arg_stands(
        &self,
        m: Machine,
        func: Seq<char>,
        ps: Seq<Param>,
        args: Seq<CallArg>,
        i: int,
    ) -> bool {
        let arg = args[i];
        let p = ps[i];
        let pa = self.arg_at(func, ps, args, i);
        let n = self.arg_len(ps, args, i);
        &&& self.cx.slot(func, p.name@) is Some
        &&& self.sound_bytes(pa, n)
        &&& if arg.byval is Some {
            let q = self.object(arg.val);
            p.byval == arg.byval && self.behind(arg.val, q) && self.passes_struct(m, q, pa, n)
        } else if arg.sret {
            p.sret && (self.result_home(arg.val) matches Some(a) && a <= 0x3F)
        } else if arg.ty is None {
            p.width == 2 && self.pointer_passes(m, arg.val)
        } else {
            n >= p.width && self.has_bytes(m, arg.val, n) && self.stays(arg.val, n, pa)
        }
    }

    proof fn lemma_result_target(&self, st: St, v: Val)
        requires
            self.result_home(v) is Some,
        ensures
            self.sret_target(st, v) == (st, self.result_home(v)->0),
    {
    }

    /// A pointer argument arrives as the address it stands for.
    proof fn lemma_pointer_passed(&self, st: St, v: Val, pa: u32, base: int, m: Machine)
        requires
            self.at_row(st, base, m),
            st.err is None,
            self.sound_bytes(pa, 2),
            self.pointer_passes(exec(st.rows, base, m), v),
        ensures
            ({
                let b = exec(st.rows, base, m);
                let s = self.ptr_arg(st, v, pa);
                let a = exec(s.rows, base, m);
                &&& self.at_row(s, base, m)
                &&& passes(b, a)
                &&& word(a, pa, 2) == self.passed(b, v)
                &&& self.only_passed(b, a, pa)
            }),
    {
        match v {
            Val::Global(g) => if self.cx.is_func(g@) {
                let f = Sym::Func(self.cx.func_no(g@));
                self.lemma_literal_put(st, Imm::Low(f), pa, base, m);
            } else {
                self.lemma_put_known(st, self.cx.global(g@)->0, pa, base, m);
            },
            Val::Const(c) => {
                self.law_held_pointer_argument_is_passed_on(st, v, pa, base, m);
                self.lemma_plain_value(exec(st.rows, base, m), v, 1);
            },
            Val::Reg(r) => match self.cx.pointer(r@) {
                None => {
                    self.law_held_pointer_argument_is_passed_on(st, v, pa, base, m);
                    assert(at(self.slot_of(v)->0, 0) == self.slot_of(v)->0);
                },
                Some(p) => self.law_pointer_argument_is_its_address(st, v, p, pa, base, m),
            },
        }
    }

    proof fn lemma_tidy_known(&self, r0: Seq<Row>, next: u32, st: St, a: u32, pa: u32)
        requires
            tidy(r0, next, st),
            self.sound_bytes(pa, 2),
            a <= 0x3F,
        ensures
            tidy(r0, next, self.put_known(st, a, pa)),
    {
        self.lemma_tidy_put(r0, next, st, Imm::Byte((a & 0x3F) as u8), pa);
    }

    proof fn lemma_tidy_offset(&self, r0: Seq<Row>, next: u32, st: St, k: u8, pa: u32)
        requires
            tidy(r0, next, st),
            self.sound_bytes(pa, 2),
        ensures
            tidy(r0, next, self.close_addr(self.add_offset(st, k), pa)),
    {
        assert(tidy(r0, next, self.add_offset(st, k))) by {
            broadcast use lemma_tidy_emit;

        }
        self.lemma_tidy_close(r0, next, self.add_offset(st, k), pa);
    }

    proof fn lemma_tidy_pointer(
        &self,
        r0: Seq<Row>,
        next: u32,
        st: St,
        v: Val,
        pa: u32,
        m: Machine,
    )
        requires
            tidy(r0, next, st),
            self.sound_bytes(pa, 2),
            self.pointer_passes(m, v),
        ensures
            tidy(r0, next, self.ptr_arg(st, v, pa)),
    {
        assert(at(pa, 0) == pa);
        assert(self.sound(at(pa, 0)) && self.sound(at(pa, 1)));
        match v {
            Val::Global(g) => if self.cx.is_func(g@) {
                self.lemma_tidy_put(r0, next, st, Imm::Low(Sym::Func(self.cx.func_no(g@))), pa);
            } else {
                self.lemma_tidy_known(r0, next, st, self.cx.global(g@)->0, pa);
            },
            Val::Const(_) => {
                self.lemma_tidy_access(r0, next, st, Op::Movf, pa);
                self.lemma_tidy_access(r0, next, self.clear(st, pa), Op::Movf, at(pa, 1));
            },
            Val::Reg(r) => match self.cx.pointer(r@) {
                None => {
                    let sa = self.slot_of(v)->0;
                    assert(at(sa, 0) == sa);
                    assert(self.sound(at(sa, 0)));
                    self.lemma_tidy_access(r0, next, st, Op::Movf, sa);
                    self.lemma_tidy_close(r0, next, self.w_load(st, sa), pa);
                },
                Some(p) => {
                    let one = p.terms@.len() == 1;
                    let ra = self.cx.slot(self.cx.fname(), p.terms@[0].reg@)->0;
                    if one {
                        assert(self.sound(ra));
                    }
                    match p.base {
                        Base::Global(name) => {
                            let g = self.cx.global(name@)->0;
                            if one {
                                lemma_six_bits(g);
                                let s1 = st.emit(movlw((g & 0x3F) as u8));
                                lemma_tidy_emit(r0, next, st, movlw((g & 0x3F) as u8));
                                self.lemma_tidy_access(r0, next, s1, Op::Addwf, ra);
                                let s2 = self.acc_w(s1, Op::Addwf, ra);
                                self.lemma_tidy_offset(r0, next, s2, p.k, pa);
                            } else {
                                self.lemma_tidy_known(r0, next, st, at(g, p.k), pa);
                            }
                        },
                        Base::Slot(s, indirect) => {
                            let sa = self.cx.slot(self.cx.fname(), s@)->0;
                            if indirect || self.cx.holds_addr(s@) {
                                self.lemma_tidy_access(r0, next, st, Op::Movf, sa);
                                let s1 = self.w_load(st, sa);
                                if one {
                                    self.lemma_tidy_access(r0, next, s1, Op::Addwf, ra);
                                    let s2 = self.acc_w(s1, Op::Addwf, ra);
                                    self.lemma_tidy_offset(r0, next, s2, p.k, pa);
                                } else {
                                    self.lemma_tidy_offset(r0, next, s1, p.k, pa);
                                }
                            } else {
                                self.lemma_tidy_known(r0, next, st, sa, pa);
                            }
                        },
                    }
                },
            },
        }
    }

    proof fn lemma_tidy_byval(
        &self,
        r0: Seq<Row>,
        next: u32,
        st: St,
        v: Val,
        q: Pointer,
        n: u8,
        pa: u32,
        k: u8,
        m: Machine,
    )
        requires
            tidy(r0, next, st),
            self.behind(v, q),
            self.sound_bytes(pa, n),
            forall|j: u8| j < n ==> #[trigger] self.leads(m, q, j),
        ensures
            tidy(r0, next, self.byval_from(st, v, n, pa, k)),
        decreases n - k,
    {
        if k < n {
            assert(self.leads(m, q, k));
            self.lemma_tidy_read(r0, next, st, v, q, k, m);
            let s1 = self.ptr_load_byte(st, v, k);
            assert(self.sound(at(pa, k)));
            self.lemma_tidy_access(r0, next, s1, Op::Movf, at(pa, k));
            self.lemma_tidy_byval(
                r0,
                next,
                self.w_store(s1, at(pa, k)),
                v,
                q,
                n,
                pa,
                (k + 1) as u8,
                m,
            );
        }
    }

    /// The lines of an argument that can be passed take no label and meet no error.
    proof fn lemma_tidy_arg(
        &self,
        r0: Seq<Row>,
        next: u32,
        st: St,
        func: Seq<char>,
        ps: Seq<Param>,
        args: Seq<CallArg>,
        i: int,
        m: Machine,
    )
        requires
            tidy(r0, next, st),
            0 <= i < args.len(),
            self.arg_stands(m, func, ps, args, i),
        ensures
            tidy(r0, next, self.arg_step(st, func, ps[i], args[i])),
    {
        let arg = args[i];
        let pa = self.arg_at(func, ps, args, i);
        let n = self.arg_len(ps, args, i);
        if arg.byval is Some {
            self.lemma_tidy_byval(r0, next, st, arg.val, self.object(arg.val), n, pa, 0, m);
        } else if arg.sret {
            self.lemma_result_target(st, arg.val);
            self.lemma_tidy_known(r0, next, st, self.result_home(arg.val)->0, pa);
        } else if arg.ty is None {
            self.lemma_tidy_pointer(r0, next, st, arg.val, pa, m);
        } else {
            self.lemma_tidy_move(r0, next, st, arg.val, n, pa, 0, m);
        }
    }

    /// One argument arrives.
    proof fn lemma_arg_passed(
        &self,
        st: St,
        func: Seq<char>,
        ps: Seq<Param>,
        args: Seq<CallArg>,
        i: int,
        base: int,
        m: Machine,
    )
        requires
            self.at_row(st, base, m),
            st.err is None,
            0 <= i < args.len(),
            self.arg_stands(exec(st.rows, base, m), func, ps, args, i),
        ensures
            ({
                let b = exec(st.rows, base, m);
                let s = self.arg_step(st, func, ps[i], args[i]);
                let a = exec(s.rows, base, m);
                let pa = self.arg_at(func, ps, args, i);
                let n = self.arg_len(ps, args, i);
                &&& self.at_row(s, base, m)
                &&& passes(b, a)
                &&& forall|j: u8|
                    j < n ==> #[trigger] a.ram[at(pa, j)] == self.arg_byte(b, func, ps, args, i, j)
                &&& forall|x: u32|
                    !self.is_fixed(x) && (x < pa || x >= pa + n) ==> #[trigger] a.ram[x] == b.ram[x]
            }),
    {
        let b = exec(st.rows, base, m);
        let s = self.arg_step(st, func, ps[i], args[i]);
        let a = exec(s.rows, base, m);
        let arg = args[i];
        let pa = self.arg_at(func, ps, args, i);
        let n = self.arg_len(ps, args, i);
        if arg.byval is Some {
            let q = self.object(arg.val);
            self.law_struct_argument_is_copied(st, arg.val, q, n, pa, base, m);
        } else if arg.sret {
            self.lemma_result_target(st, arg.val);
            let t = self.result_home(arg.val)->0;
            self.lemma_put_known(st, t, pa, base, m);
            self.lemma_number_in_place(a, pa, 2, t as int);
        } else if arg.ty is None {
            self.lemma_pointer_passed(st, arg.val, pa, base, m);
            self.lemma_number_in_place(a, pa, 2, self.passed(b, arg.val));
        } else {
            self.lemma_value_moved(st, arg.val, n, pa, base, m);
            self.lemma_number_in_place(a, pa, n, self.value(b, arg.val, n));
        }
    }

    proof fn lemma_number_in_place(&self, a: Machine, pa: u32, n: u8, x: int)
        requires
            n <= 4,
            word(a, pa, n) == x,
        ensures
            forall|j: u8| j < n ==> #[trigger] a.ram[at(pa, j)] == byte_at(x, j),
    {
        assert forall|j: u8| j < n implies #[trigger] a.ram[at(pa, j)] == byte_at(x, j) by {
            lemma_word_bytes(a, pa, n, j);
        }
    }

    /// A struct of `n` bytes that is passed by value arrives whole: for every `j` below
    /// `n`, byte `j` of the object behind the argument stands in byte `j` of the
    /// parameter's slot. Nothing else changes but the fixed bytes.
    pub proof fn law_struct_arrives_whole(
        &self,
        st: St,
        func: Seq<char>,
        p: Param,
        arg: CallArg,
        q: Pointer,
        n: u8,
        base: int,
        m: Machine,
    )
        requires
            self.at_row(st, base, m),
            st.err is None,
            arg.byval == Some(n),
            p.byval == Some(n),
            self.cx.slot(func, p.name@) is Some,
            self.behind(arg.val, q),
            self.passes_struct(exec(st.rows, base, m), q, self.cx.slot(func, p.name@)->0, n),
        ensures
            ({
                let pa = self.cx.slot(func, p.name@)->0;
                let b = exec(st.rows, base, m);
                let s = self.arg_step(st, func, p, arg);
                let a = exec(s.rows, base, m);
                &&& self.at_row(s, base, m)
                &&& s.err is None
                &&& forall|j: u8|
                    j < n ==> #[trigger] a.ram[at(pa, j)] == b.ram[self.target(b, q, j)]
                &&& self.settled(b, a, pa, n as int)
            }),
    {
        let pa = self.cx.slot(func, p.name@)->0;
        let b = exec(st.rows, base, m);
        self.law_struct_argument_is_copied(st, arg.val, q, n, pa, base, m);
        self.lemma_tidy_byval(st.rows, st.next, st, arg.val, q, n, pa, 0, b);
    }

    /// Whether a byte is none of those that the first `i` arguments of a call are
    /// passed in, nor one that is used on the way.
    pub open spec fn untouched(
        &self,
        func: Seq<char>,
        ps: Seq<Param>,
        args: Seq<CallArg>,
        i: int,
        x: u32,
    ) -> bool {
        &&& !self.is_fixed(x)
        &&& forall|k: int|
            #![trigger args[k]]
            0 <= k < i ==> x < self.arg_at(func, ps, args, k) || x >= self.arg_at(func, ps, args, k)
                + self.arg_len(ps, args, k)
    }

    /// Whether two machines differ at most in what passing the first `i` arguments
    /// changes.
    pub open spec fn agrees(
        &self,
        b: Machine,
        c: Machine,
        func: Seq<char>,
        ps: Seq<Param>,
        args: Seq<CallArg>,
        i: int,
    ) -> bool {
        &&& c.core == b.core
        &&& c.links == b.links
        &&& forall|x: u32| self.untouched(func, ps, args, i, x) ==> #[trigger] c.ram[x] == b.ram[x]
    }

    /// Whether argument `i` can be passed after the arguments before it, whatever they
    /// are, and is still what it was.
    pub open spec fn arg_steady(
        &self,
        b: Machine,
        func: Seq<char>,
        ps: Seq<Param>,
        args: Seq<CallArg>,
        i: int,
    ) -> bool {
        forall|c: Machine| #[trigger]
            self.agrees(b, c, func, ps, args, i) ==> self.arg_stands(c, func, ps, args, i) && (
            forall|j: u8|
                j < self.arg_len(ps, args, i) ==> #[trigger] self.arg_byte(c, func, ps, args, i, j)
                    == self.arg_byte(b, func, ps, args, i, j))
    }

    /// Whether the arguments of a call can be passed one after the other, each in bytes
    /// of its own.
    #[verifier::opaque]
    pub open spec fn passable(&self, b: Machine, func: Seq<char>, ps: Seq<Param>, args: Seq<CallArg>) -> bool {
        &&& args.len() <= ps.len()
        &&& forall|i: int| 0 <= i < args.len() ==> #[trigger] self.arg_steady(b, func, ps, args, i)
        &&& forall|i: int|
            #![trigger args[i]]
            0 <= i < args.len() ==> {
                let (pa, n) = (self.arg_at(func, ps, args, i), self.arg_len(ps, args, i) as int);
                self.spares(pa, n)
            }
        &&& forall|i: int, k: int|
            #![trigger args[i], args[k]]
            0 <= i < args.len() && 0 <= k < args.len() && i != k ==> apart(
                self.arg_at(func, ps, args, i),
                self.arg_len(ps, args, i) as int,
                self.arg_at(func, ps, args, k),
                self.arg_len(ps, args, k) as int,
            )
    }

    /// Whether argument `i`, as `b` has it, stands in its place in `a`.
    pub open spec fn in_place(
        &self,
        b: Machine,
        a: Machine,
        func: Seq<char>,
        ps: Seq<Param>,
        args: Seq<CallArg>,
        i: int,
    ) -> bool {
        forall|j: u8|
            j < self.arg_len(ps, args, i) ==> #[trigger] a.ram[at(
                self.arg_at(func, ps, args, i),
                j,
            )] == self.arg_byte(b, func, ps, args, i, j)
    }

    /// Whether every argument stands in its place and nothing else changed but bytes
    /// used on the way.
    #[verifier::opaque]
    pub open spec fn all_in_place(
        &self,
        b: Machine,
        a: Machine,
        func: Seq<char>,
        ps: Seq<Param>,
        args: Seq<CallArg>,
    ) -> bool {
        &&& self.agrees(b, a, func, ps, args, args.len() as int)
        &&& forall|i: int| 0 <= i < args.len() ==> #[trigger] self.in_place(b, a, func, ps, args, i)
    }

    /// The lines of the arguments from `i` on take no label and meet no error.
    pub(crate) proof fn lemma_tidy_args(
        &self,
        r0: Seq<Row>,
        next: u32,
        st: St,
        func: Seq<char>,
        ps: Seq<Param>,
        args: Seq<CallArg>,
        i: int,
        b: Machine,
    )
        requires
            tidy(r0, next, st),
            self.passable(b, func, ps, args),
            0 <= i <= args.len(),
        ensures
            tidy(r0, next, self.args_from(st, func, ps, args, i)),
        decreases args.len() - i,
    {
        reveal(Gen::passable);
        if i < args.len() {
            assert(self.arg_steady(b, func, ps, args, i));
            assert(self.agrees(b, b, func, ps, args, i));
            self.lemma_tidy_arg(r0, next, st, func, ps, args, i, b);
            let s1 = self.arg_step(st, func, ps[i], args[i]);
            self.lemma_tidy_args(r0, next, s1, func, ps, args, i + 1, b);
        }
    }

    proof fn lemma_args_passed(
        &self,
        st: St,
        func: Seq<char>,
        ps: Seq<Param>,
        args: Seq<CallArg>,
        i: int,
        b: Machine,
        base: int,
        m: Machine,
    )
        requires
            self.at_row(st, base, m),
            st.err is None,
            self.passable(b, func, ps, args),
            0 <= i <= args.len(),
            self.agrees(b, exec(st.rows, base, m), func, ps, args, i),
            forall|k: int|
                0 <= k < i ==> #[trigger] self.in_place(
                    b,
                    exec(st.rows, base, m),
                    func,
                    ps,
                    args,
                    k,
                ),
        ensures
            ({
                let s = self.args_from(st, func, ps, args, i);
                &&& self.at_row(s, base, m)
                &&& self.all_in_place(b, exec(s.rows, base, m), func, ps, args)
            }),
        decreases args.len() - i,
    {
        reveal(Gen::passable);
        reveal(Gen::all_in_place);
        if i < args.len() {
            let c = exec(st.rows, base, m);
            assert(self.arg_steady(b, func, ps, args, i));
            self.lemma_arg_passed(st, func, ps, args, i, base, m);
            self.lemma_tidy_arg(st.rows, st.next, st, func, ps, args, i, c);
            let s1 = self.arg_step(st, func, ps[i], args[i]);
            let d = exec(s1.rows, base, m);
            let pa = self.arg_at(func, ps, args, i);
            let n = self.arg_len(ps, args, i);
            assert(self.agrees(b, d, func, ps, args, i + 1)) by {
                assert forall|x: u32| self.untouched(func, ps, args, i + 1, x) implies #[trigger] d.ram[x]
                    == b.ram[x] by {
                    assert(x < self.arg_at(func, ps, args, i) || x >= self.arg_at(func, ps, args, i)
                        + self.arg_len(ps, args, i)) by {
                        let z = args[i];
                    }
                    assert(self.untouched(func, ps, args, i, x));
                    assert(c.ram[x] == b.ram[x]);
                }
            }
            assert forall|k: int| 0 <= k < i + 1 implies #[trigger] self.in_place(
                b,
                d,
                func,
                ps,
                args,
                k,
            ) by {
                if k < i {
                    assert(self.in_place(b, c, func, ps, args, k));
                    let ka = self.arg_at(func, ps, args, k);
                    let kn = self.arg_len(ps, args, k);
                    assert(apart(ka, kn as int, pa, n as int) && self.spares(ka, kn as int)) by {
                        let (z, y) = (args[i], args[k]);
                    }
                    assert(ka <= 0xFFFF) by {
                        assert(self.arg_steady(b, func, ps, args, k));
                        assert(self.agrees(b, b, func, ps, args, k));
                    }
                    assert forall|j: u8| j < kn implies #[trigger] d.ram[at(ka, j)]
                        == self.arg_byte(b, func, ps, args, k, j) by {
                        assert(c.ram[at(ka, j)] == self.arg_byte(b, func, ps, args, k, j));
                    }
                }
            }
            self.lemma_args_passed(s1, func, ps, args, i + 1, b, base, m);
        }
    }

    /// Every argument of a call reaches the place its callee reads it from: a number,
    /// a pointer, a struct passed by value or a result pointer.
    /// Nothing else changes but the fixed bytes.
    pub proof fn law_every_argument_is_passed(
        &self,
        st: St,
        func: Seq<char>,
        f: usize,
        args: Seq<CallArg>,
        base: int,
        m: Machine,
    )
        requires
            self.at_row(st, base, m),
            st.err is None,
            func_index(self.cx.m, func) == Some(f),
            self.passable(
                exec(st.rows, base, m),
                func,
                self.cx.m.funcs@[f as int].params@,
                args,
            ),
        ensures
            ({
                let ps = self.cx.m.funcs@[f as int].params@;
                let b = exec(st.rows, base, m);
                let s = self.call_args(st, func, args);
                &&& self.at_row(s, base, m)
                &&& s.err is None
                &&& self.all_in_place(b, exec(s.rows, base, m), func, ps, args)
            }),
    {
        let ps = self.cx.m.funcs@[f as int].params@;
        let b = exec(st.rows, base, m);
        self.lemma_args_passed(st, func, ps, args, 0, b, base, m);
        self.lemma_tidy_args(st.rows, st.next, st, func, ps, args, 0, b);
    }

    /// The arguments are in place where the call goes.
    pub(crate) proof fn lemma_call_ready(
        &self,
        st: St,
        func: Seq<char>,
        f: usize,
        args: Seq<CallArg>,
        b: Machine,
        base: int,
        m: Machine,
    )
        requires
            self.at_row(st, base, m),
            st.err is None,
            func_index(self.cx.m, func) == Some(f),
            self.passable(b, func, self.cx.m.funcs@[f as int].params@, args),
            ({
                let c = exec(st.rows, base, m);
                c.core == b.core && c.links == b.links && c.ram == b.ram
            }),
        ensures
            ({
                let s = self.call_args(st, func, args);
                let a = exec(s.rows, base, m);
                &&& self.at_row(s, base, m)
                &&& tidy(st.rows, st.next, s)
                &&& a.core == b.core
                &&& a.links == b.links
                &&& self.all_in_place(b, a, func, self.cx.m.funcs@[f as int].params@, args)
            }),
    {
        let ps = self.cx.m.funcs@[f as int].params@;
        self.lemma_args_passed(st, func, ps, args, 0, b, base, m);
        self.lemma_tidy_call(st, func, f, args, b);
        reveal(Gen::all_in_place);
    }

    /// The lines that lead to a call take no label and meet no error.
    pub(crate) proof fn lemma_tidy_call(
        &self,
        st: St,
        func: Seq<char>,
        f: usize,
        args: Seq<CallArg>,
        b: Machine,
    )
        requires
            st.err is None,
            func_index(self.cx.m, func) == Some(f),
            self.passable(b, func, self.cx.m.funcs@[f as int].params@, args),
        ensures
            tidy(st.rows, st.next, self.call_args(st, func, args)),
    {
        let ps = self.cx.m.funcs@[f as int].params@;
        self.lemma_tidy_args(st.rows, st.next, st, func, ps, args, 0, b);
    }
}

} // verus!
