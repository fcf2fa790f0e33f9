//! A read of a large constant table calls the reader of the right chunk with the
//! right index.
use vstd::prelude::*;
use crate::emit::{
    at, clrf, f_op, goto_tmp, label_tmp, lit, movf, movlw, movwf, on_c, ram_bit, w_op, Row, St,
};
use crate::line::{BitOp, Imm, Line, LitOp, Op, Sym};
use crate::machine::{
    exec, exec_to, group_exec, lemma_exec_prefix, lemma_step_write, step, Flow, Machine,
};
use crate::meaning::{flag, word};
use crate::pic14e::laws::float_int::{tmp, under_way};
use crate::pic14e::{to_pclath, Gen};

verus! {

/// Whether the run meets a call of `s` with `w` in W at row `n`.
pub open spec fn calls_at(rows: Seq<Row>, base: int, m: Machine, s: Sym, w: u8, n: int) -> bool {
    &&& base <= n < rows.len()
    &&& rows[n].line == Line::Call(s)
    &&& exec_to(rows, base, n, m).flow is Next
    &&& exec_to(rows, base, n, m).w == w
}

/// Whether a run that is taken up behind row `n` comes to `f` with the W that it
/// was taken up with.
pub open spec fn brings_back(rows: Seq<Row>, n: int, f: Flow) -> bool {
    forall|r: Machine|
        r.flow is Next && r.core is Enhanced ==> ({
            let a = #[trigger] exec(rows, n + 1, r);
            a.flow == f && a.w == r.w && a.core == r.core
        })
}

/// Whether the run meets a call of `s` with `w` in W, and comes from there to `f`
/// with the W that the call leaves.
pub open spec fn reads_by(rows: Seq<Row>, base: int, m: Machine, s: Sym, w: u8, f: Flow) -> bool {
    exists|n: int| #[trigger] calls_at(rows, base, m, s, w, n) && brings_back(rows, n, f)
}

/// One more row.
proof fn lemma_reads_emit(st: St, l: Line, base: int, m: Machine, s: Sym, w: u8, f: Flow, g: Flow)
    requires
        0 <= base,
        reads_by(st.rows, base, m, s, w, f),
        match f {
            Flow::Seek(q) => if l == Line::Label(q) {
                g is Next
            } else {
                g == f
            },
            Flow::Next => match l {
                Line::Goto(q) => g == Flow::Seek(q),
                Line::Label(_) => g is Next,
                _ => false,
            },
            _ => false,
        },
    ensures
        reads_by(st.emit(l).rows, base, m, s, w, g),
{
    let rows = st.rows;
    let n = choose|n: int| #[trigger] calls_at(rows, base, m, s, w, n) && brings_back(rows, n, f);
    let r = Row { line: l, loc: None };
    let more = st.emit(l).rows;
    lemma_exec_prefix(rows, r, base, n, m);
    assert(more == rows.push(r));
    assert(calls_at(more, base, m, s, w, n));
    assert forall|r: Machine| r.flow is Next && r.core is Enhanced implies ({
        let a = #[trigger] exec(more, n + 1, r);
        a.flow == g && a.w == r.w && a.core == r.core
    }) by {
        let b = exec(rows, n + 1, r);
        assert(b.flow == f && b.w == r.w && b.core == r.core);
        reveal(exec);
        reveal(step);
        lemma_exec_prefix(rows, Row { line: l, loc: None }, n + 1, rows.len() as int, r);
    }
    assert(brings_back(more, n, g));
}

/// Rows that start alike do alike so far.
proof fn lemma_same_start(rows: Seq<Row>, first: Seq<Row>, base: int, n: int, m: Machine)
    requires
        0 <= base,
        n <= first.len() <= rows.len(),
        rows.take(first.len() as int) == first,
    ensures
        exec_to(rows, base, n, m) == exec_to(first, base, n, m),
    decreases n - base,
{
    if n > base {
        lemma_same_start(rows, first, base, n - 1, m);
        assert(rows[n - 1] == rows.take(first.len() as int)[n - 1]);
    }
}

impl<'a> Gen<'a> {
    /// Whether the index bytes and the bytes of the index register are apart.
    pub open spec fn index_slots(&self, a: u32) -> bool {
        &&& a <= 0xFFFF && self.retval <= 0xFFFF && self.scratch <= 0xFFFF
        &&& self.retval != self.scratch
        &&& a != self.retval && a != self.scratch
        &&& a + 1 != self.retval && a + 1 != self.scratch
    }

    /// The index as the dispatch finds it: its chunk, and its place there.
    pub open spec fn index_in(&self, m: Machine) -> int {
        256 * m.ram[self.scratch] + m.ram[self.retval]
    }

    /// The index of a byte table is the register plus the offset.
    pub proof fn law_plain_index_adds_the_offset(
        &self,
        st: St,
        a: u32,
        kk: u8,
        base: int,
        m: Machine,
    )
        requires
            under_way(st, base, m),
            exec(st.rows, base, m).flow is Next,
            self.index_slots(a),
            word(exec(st.rows, base, m), a, 2) + kk < 0x1_0000,
        ensures
            ({
                let b = exec(st.rows, base, m);
                let s = self.plain_index(st, a, kk);
                let z = exec(s.rows, base, m);
                &&& under_way(s, base, m)
                &&& z.flow is Next
                &&& self.index_in(z) == word(b, a, 2) + kk
            }),
    {
        let b = exec(st.rows, base, m);
        let s = self.plain_index(st, a, kk);
        let z = exec(s.rows, base, m);
        let (x, y) = (b.ram[a], b.ram[at(a, 1)]);
        assert(base <= s.rows.len() && z.core == b.core && z.flow is Next && z.ram[self.retval] == (x
            + kk) % 256 && z.ram[self.scratch] == y + flag(x + kk >= 256)) by {
            broadcast use group_exec;

        }
    }

    proof fn lemma_double_index(&self, st: St, scale: u8, base: int, m: Machine)
        requires
            under_way(st, base, m),
            exec(st.rows, base, m).flow is Next,
            self.retval != self.scratch,
            scale == 2 || scale == 4,
            exec(st.rows, base, m).ram[self.scratch] == 0,
        ensures
            ({
                let b = exec(st.rows, base, m);
                let s = self.double_index(st, scale);
                let z = exec(s.rows, base, m);
                &&& under_way(s, base, m)
                &&& z.flow is Next
                &&& self.index_in(z) == scale * b.ram[self.retval]
                &&& forall|y: u32|
                    y != self.retval && y != self.scratch ==> #[trigger] z.ram[y] == b.ram[y]
            }),
    {
        let b = exec(st.rows, base, m);
        let (r, q) = (self.retval, self.scratch);
        let x = b.ram[r];
        let s1 = st.emit(on_c(BitOp::Bcf)).emit(f_op(Op::Rlf, r)).emit(f_op(Op::Rlf, q));
        let c = exec(s1.rows, base, m);
        assert(base <= s1.rows.len() && c.core == b.core && c.flow is Next && !c.c && c.ram[r] == (2 * x)
            % 256 && c.ram[q] == flag(x >= 128) && (forall|y: u32|
            y != r && y != q ==> #[trigger] c.ram[y] == b.ram[y])) by {
            broadcast use group_exec;

        }
        assert(self.index_in(c) == 2 * x);
        if scale == 4 {
            let s2 = s1.emit(f_op(Op::Rlf, r)).emit(f_op(Op::Rlf, q));
            let z = exec(s2.rows, base, m);
            let (u, v) = (c.ram[r], c.ram[q]);
            assert(base <= s2.rows.len() && z.core == b.core && z.flow is Next && z.ram[r] == (2 * u)
                % 256 && z.ram[q] == 2 * v + flag(u >= 128) && (forall|y: u32|
                y != r && y != q ==> #[trigger] z.ram[y] == c.ram[y])) by {
                broadcast use group_exec;

            }
        }
    }

    proof fn lemma_add_high(&self, st: St, a: u32, scale: u8, base: int, m: Machine)
        requires
            under_way(st, base, m),
            exec(st.rows, base, m).flow is Next,
            a != self.scratch,
            scale == 2 || scale == 4,
            ({
                let b = exec(st.rows, base, m);
                b.ram[self.scratch] + scale * b.ram[a] < 256
            }),
        ensures
            ({
                let b = exec(st.rows, base, m);
                let s = self.add_high(st, a, scale);
                let z = exec(s.rows, base, m);
                &&& under_way(s, base, m)
                &&& z.flow is Next
                &&& z.ram[self.scratch] == b.ram[self.scratch] + scale * b.ram[a]
                &&& forall|y: u32| y != self.scratch ==> #[trigger] z.ram[y] == b.ram[y]
            }),
    {
        let b = exec(st.rows, base, m);
        let q = self.scratch;
        let (x, y) = (b.ram[q], b.ram[a]);
        let s = self.add_high(st, a, scale);
        let z = exec(s.rows, base, m);
        if scale == 2 {
            assert(base <= s.rows.len() && z.core == b.core && z.flow is Next && z.ram == b.ram.insert(
                q,
                (x + 2 * y) as u8,
            )) by {
                broadcast use group_exec;

            }
        } else {
            assert(base <= s.rows.len() && z.core == b.core && z.flow is Next && z.ram == b.ram.insert(
                q,
                (x + 4 * y) as u8,
            )) by {
                broadcast use group_exec;

            }
        }
    }

    /// The offset added to the index.
    pub open spec fn index_offset(&self, st: St, kk: u8) -> St {
        st.emit(movf(self.retval)).emit(lit(LitOp::Addlw, kk)).emit(movwf(self.retval)).emit(
            movf(self.scratch),
        ).emit(on_c(BitOp::Btfsc)).emit(lit(LitOp::Addlw, 1)).emit(movwf(self.scratch))
    }

    proof fn lemma_index_offset(&self, st: St, kk: u8, base: int, m: Machine)
        requires
            under_way(st, base, m),
            exec(st.rows, base, m).flow is Next,
            self.retval != self.scratch,
            self.index_in(exec(st.rows, base, m)) + kk < 0x1_0000,
        ensures
            ({
                let b = exec(st.rows, base, m);
                let s = self.index_offset(st, kk);
                let z = exec(s.rows, base, m);
                &&& under_way(s, base, m)
                &&& z.flow is Next
                &&& self.index_in(z) == self.index_in(b) + kk
            }),
    {
        let b = exec(st.rows, base, m);
        let s = self.index_offset(st, kk);
        let z = exec(s.rows, base, m);
        let (u, v) = (b.ram[self.retval], b.ram[self.scratch]);
        assert(base <= s.rows.len() && z.core == b.core && z.flow is Next && z.ram[self.retval] == (u
            + kk) % 256 && z.ram[self.scratch] == v + flag(u + kk >= 256)) by {
            broadcast use group_exec;

        }
    }

    /// The index of a table of two-byte or four-byte elements is the register
    /// times the size of an element plus the offset. With two chunks the index
    /// register has to be below 256.
    pub proof fn law_scaled_index_scales(
        &self,
        st: St,
        a: u32,
        kk: u8,
        scale: u8,
        chunks: u32,
        base: int,
        m: Machine,
    )
        requires
            under_way(st, base, m),
            exec(st.rows, base, m).flow is Next,
            self.index_slots(a),
            scale == 2 || scale == 4,
            scale * word(exec(st.rows, base, m), a, 2) + kk < 0x1_0000,
            chunks < 3 ==> word(exec(st.rows, base, m), a, 2) < 256,
        ensures
            ({
                let b = exec(st.rows, base, m);
                let s = self.scaled_index(st, a, kk, scale, chunks);
                let z = exec(s.rows, base, m);
                &&& under_way(s, base, m)
                &&& z.flow is Next
                &&& self.index_in(z) == scale * word(b, a, 2) + kk
            }),
    {
        let b = exec(st.rows, base, m);
        let (r, q) = (self.retval, self.scratch);
        let (x, y) = (b.ram[a], b.ram[at(a, 1)]);
        assert(word(b, a, 2) == x + 256 * y);
        let s1 = st.emit(movf(a)).emit(movwf(r)).emit(clrf(q));
        let c1 = exec(s1.rows, base, m);
        assert(base <= s1.rows.len() && c1.core == b.core && c1.flow is Next && c1.ram == b.ram.insert(
            r,
            x,
        ).insert(q, 0)) by {
            broadcast use group_exec;

        }
        let s2 = self.double_index(s1, scale);
        self.lemma_double_index(s1, scale, base, m);
        let c2 = exec(s2.rows, base, m);
        let s3 = if chunks >= 3 {
            self.add_high(s2, at(a, 1), scale)
        } else {
            s2
        };
        let c3 = exec(s3.rows, base, m);
        assert(c2.ram[at(a, 1)] == y);
        assert(scale * (x + 256 * y) == scale * x + 256 * (scale * y)) by (nonlinear_arith);
        if chunks >= 3 {
            self.lemma_add_high(s2, at(a, 1), scale, base, m);
        } else {
            assert(y == 0);
            assert(scale * y == 0) by (nonlinear_arith)
                requires
                    y == 0,
            ;
        }
        assert(self.index_in(c3) == scale * word(b, a, 2));
        self.lemma_index_offset(s3, kk, base, m);
    }

    /// The rows behind a call of a reader bring its byte back.
    proof fn lemma_back(&self, st: St, reader: Sym, r: Machine)
        requires
            r.flow is Next,
            r.core is Enhanced,
        ensures
            ({
                let s = self.restore_page(st.emit(movwf(self.scratch)), reader).emit(
                    movf(self.scratch),
                );
                let a = exec(s.rows, st.rows.len() as int, r);
                a.flow is Next && a.w == r.w && a.core == r.core
            }),
    {
        broadcast use group_exec, lemma_step_write;

        let base = st.rows.len() as int;
        assert(exec(st.rows, base, r) == r);
    }

    /// The call of a reader whose index is in W.
    pub(crate) proof fn lemma_reader_call(&self, st: St, reader: Sym, base: int, m: Machine)
        requires
            0 <= base <= st.rows.len(),
            exec(st.rows, base, m).flow is Next,
        ensures
            reads_by(
                self.reader_call(st, reader).rows,
                base,
                m,
                reader,
                exec(st.rows, base, m).w,
                Flow::Next,
            ),
            base <= self.reader_call(st, reader).rows.len(),
    {
        let n = st.rows.len() as int;
        let w = exec(st.rows, base, m).w;
        let s2 = st.emit(Line::Call(reader));
        let rows = self.reader_call(st, reader).rows;
        assert(rows.len() > n && rows.take(n + 1) =~= s2.rows && rows[n].line == Line::Call(reader));
        assert(exec_to(rows, base, n, m) == exec(st.rows, base, m)) by {
            reveal(exec);
            assert(rows.take(n) =~= st.rows);
            lemma_same_start(rows, st.rows, base, n, m);
        }
        assert(calls_at(rows, base, m, reader, w, n));
        assert forall|r: Machine| r.flow is Next && r.core is Enhanced implies ({
            let a = #[trigger] exec(rows, n + 1, r);
            a.flow == Flow::Next && a.w == r.w && a.core == r.core
        }) by {
            self.lemma_back(s2, reader, r);
        }
        assert(brings_back(rows, n, Flow::Next));
    }

    /// A chunk is called with the low index byte.
    proof fn lemma_chunk_call(&self, st: St, gi: usize, c: u32, base: int, m: Machine)
        requires
            under_way(st, base, m),
            exec(st.rows, base, m).flow is Next,
        ensures
            reads_by(
                self.chunk_call(st, gi, c).rows,
                base,
                m,
                Sym::Reader(gi, c),
                exec(st.rows, base, m).ram[self.retval],
                Flow::Next,
            ),
            base <= self.chunk_call(st, gi, c).rows.len(),
    {
        let b = exec(st.rows, base, m);
        let w = b.ram[self.retval];
        let reader = Sym::Reader(gi, c);
        let s1 = self.set_page(st, reader).emit(movf(self.retval));
        let c1 = exec(s1.rows, base, m);
        assert(base <= s1.rows.len() && c1.flow is Next && c1.w == w) by {
            broadcast use group_exec, lemma_step_write;

        }
        self.lemma_reader_call(s1, reader, base, m);
    }

    /// The rows of a chunk are passed over.
    proof fn lemma_chunk_over(&self, st: St, gi: usize, c: u32, base: int, m: Machine)
        requires
            under_way(st, base, m),
            exec(st.rows, base, m).flow is Seek,
        ensures
            under_way(self.chunk_call(st, gi, c), base, m),
            exec(self.chunk_call(st, gi, c).rows, base, m) == exec(st.rows, base, m),
            self.chunk_call(st, gi, c).next == st.next,
    {
        let reader = Sym::Reader(gi, c);
        if self.same_page(reader) {
            broadcast use group_exec;

        } else {
            broadcast use group_exec;

        }
    }

    /// One test of the chunk number.
    pub open spec fn chunk_test(&self, st: St, c: u32) -> St {
        st.bump().emit(movlw((0x100 - c) as u8)).emit(w_op(Op::Addwf, self.scratch)).emit(
            on_c(BitOp::Btfsc),
        ).emit(goto_tmp(st.next))
    }

    proof fn lemma_chunk_test(&self, st: St, c: u32, base: int, m: Machine)
        requires
            under_way(st, base, m),
            1 <= c <= 255,
            st.next < u32::MAX,
        ensures
            ({
                let b = exec(st.rows, base, m);
                let s = self.chunk_test(st, c);
                let z = exec(s.rows, base, m);
                &&& under_way(s, base, m)
                &&& s.next == st.next + 1
                &&& z.ram == b.ram
                &&& b.flow is Next ==> z.flow == (if b.ram[self.scratch] >= c {
                    tmp(st.next, 0)
                } else {
                    Flow::Next
                })
                &&& b.flow is Seek ==> z == b
            }),
    {
        let b = exec(st.rows, base, m);
        let s0 = st.bump();
        assert(exec(s0.rows, base, m) == b);
        let s = self.chunk_test(st, c);
        let z = exec(s.rows, base, m);
        assert(base <= s.rows.len());
        if b.flow is Next {
            assert(z.core == b.core && z.ram == b.ram && z.flow == (if b.ram[self.scratch] >= c {
                tmp(st.next, 0)
            } else {
                Flow::Next
            })) by {
                broadcast use group_exec;

            }
        } else {
            assert(z == b) by {
                broadcast use group_exec;

            }
        }
    }

    /// The tests find the chunk.
    proof fn lemma_chunk_tests(&self, st: St, c: u32, base: int, m: Machine)
        requires
            under_way(st, base, m),
            c <= 255,
            st.next + c <= u32::MAX - 10,
            exec(st.rows, base, m).flow is Next ==> exec(st.rows, base, m).ram[self.scratch] <= c,
        ensures
            ({
                let b = exec(st.rows, base, m);
                let s = self.chunk_tests(st, c);
                let z = exec(s.rows, base, m);
                let k = b.ram[self.scratch];
                &&& under_way(s, base, m)
                &&& s.next == st.next + c
                &&& z.ram == b.ram
                &&& b.flow is Next ==> z.flow == (if k == 0 {
                    Flow::Next
                } else {
                    tmp(st.next, (c - k) as u32)
                })
                &&& b.flow is Seek ==> z == b
            }),
        decreases c,
    {
        if c > 0 {
            let s = self.chunk_test(st, c);
            self.lemma_chunk_test(st, c, base, m);
            assert(self.chunk_tests(st, c) == self.chunk_tests(s, (c - 1) as u32));
            self.lemma_chunk_tests(s, (c - 1) as u32, base, m);
        }
    }

    /// The calls under their labels.
    proof fn lemma_chunk_calls(
        &self,
        st: St,
        gi: usize,
        c: u32,
        l: u32,
        done: u32,
        k: u32,
        base: int,
        m: Machine,
    )
        requires
            under_way(st, base, m),
            1 <= k <= c <= 255,
            l + c <= u32::MAX - 10,
            done < l,
            exec(st.rows, base, m).flow == tmp(l, (c - k) as u32),
        ensures
            reads_by(
                self.chunk_calls(st, gi, c, l, done).rows,
                base,
                m,
                Sym::Reader(gi, k),
                exec(st.rows, base, m).ram[self.retval],
                tmp(done, 0),
            ),
            base <= self.chunk_calls(st, gi, c, l, done).rows.len(),
        decreases c,
    {
        let b = exec(st.rows, base, m);
        let w = b.ram[self.retval];
        let s1 = st.emit(label_tmp(l));
        let c1 = exec(s1.rows, base, m);
        assert(base <= s1.rows.len() && c1.core == b.core && c1.ram == b.ram && (c == k ==> c1.flow is Next)
            && (c != k ==> c1 == b)) by {
            broadcast use group_exec;

        }
        let s2 = self.chunk_call(s1, gi, c);
        let s3 = s2.emit(goto_tmp(done));
        if c == k {
            self.lemma_chunk_call(s1, gi, c, base, m);
            let r = Sym::Reader(gi, k);
            lemma_reads_emit(s2, goto_tmp(done), base, m, r, w, Flow::Next, tmp(done, 0));
            self.lemma_calls_later(
                s3,
                gi,
                (c - 1) as u32,
                l.wrapping_add(1),
                done,
                base,
                m,
                Sym::Reader(gi, k),
                w,
            );
        } else {
            self.lemma_chunk_over(s1, gi, c, base, m);
            assert(base <= s3.rows.len() && exec(s3.rows, base, m) == b) by {
                broadcast use group_exec;

            }
            assert(l.wrapping_add(1) == l + 1);
            self.lemma_chunk_calls(s3, gi, (c - 1) as u32, (l + 1) as u32, done, k, base, m);
        }
    }

    /// Later chunks take no call away.
    proof fn lemma_calls_later(
        &self,
        st: St,
        gi: usize,
        c: u32,
        l: u32,
        done: u32,
        base: int,
        m: Machine,
        s: Sym,
        w: u8,
    )
        requires
            0 <= base <= st.rows.len(),
            l + c <= u32::MAX,
            done < l,
            reads_by(st.rows, base, m, s, w, tmp(done, 0)),
        ensures
            reads_by(self.chunk_calls(st, gi, c, l, done).rows, base, m, s, w, tmp(done, 0)),
            base <= self.chunk_calls(st, gi, c, l, done).rows.len(),
        decreases c,
    {
        if c > 0 {
            let f = tmp(done, 0);
            lemma_reads_emit(st, label_tmp(l), base, m, s, w, f, f);
            let s1 = st.emit(label_tmp(l));
            self.lemma_calls_chunk(s1, gi, c, done, base, m, s, w);
            let s2 = self.chunk_call(s1, gi, c);
            lemma_reads_emit(s2, goto_tmp(done), base, m, s, w, f, f);
            self.lemma_calls_later(
                s2.emit(goto_tmp(done)),
                gi,
                (c - 1) as u32,
                l.wrapping_add(1),
                done,
                base,
                m,
                s,
                w,
            );
        }
    }

    proof fn lemma_calls_chunk(
        &self,
        st: St,
        gi: usize,
        c: u32,
        done: u32,
        base: int,
        m: Machine,
        s: Sym,
        w: u8,
    )
        requires
            0 <= base <= st.rows.len(),
            reads_by(st.rows, base, m, s, w, tmp(done, 0)),
        ensures
            reads_by(self.chunk_call(st, gi, c).rows, base, m, s, w, tmp(done, 0)),
            base <= self.chunk_call(st, gi, c).rows.len(),
    {
        let f = tmp(done, 0);
        let reader = Sym::Reader(gi, c);
        let page = Line::Lit(LitOp::Movlw, Imm::Page(reader));
        let s1 = st.emit(page);
        lemma_reads_emit(st, page, base, m, s, w, f, f);
        let s2 = s1.emit(to_pclath());
        lemma_reads_emit(s1, to_pclath(), base, m, s, w, f, f);
        let s3 = s2.emit(movf(self.retval));
        lemma_reads_emit(s2, movf(self.retval), base, m, s, w, f, f);
        let s4 = s3.emit(Line::Call(reader));
        lemma_reads_emit(s3, Line::Call(reader), base, m, s, w, f, f);
        let s5 = s4.emit(movwf(self.scratch));
        lemma_reads_emit(s4, movwf(self.scratch), base, m, s, w, f, f);
        let s6 = self.restore_page(s5, reader);
        if !self.same_page(reader) {
            let own = Line::Lit(LitOp::Movlw, Imm::Page(Sym::Func(self.cx.func)));
            lemma_reads_emit(s5, own, base, m, s, w, f, f);
            lemma_reads_emit(s5.emit(own), to_pclath(), base, m, s, w, f, f);
        }
        lemma_reads_emit(s6, movf(self.scratch), base, m, s, w, f, f);
    }

    /// The dispatch of a large table calls the reader of the chunk that the index
    /// is in, with the place of the index in that chunk in W, and goes on behind
    /// itself with the byte that the reader leaves in W.
    pub proof fn law_dispatch_calls_the_chunk(
        &self,
        st: St,
        gi: usize,
        n: u32,
        done: u32,
        base: int,
        m: Machine,
    )
        requires
            under_way(st, base, m),
            exec(st.rows, base, m).flow is Next,
            st.next <= u32::MAX - 300,
            done < st.next,
            1 <= n <= 256,
            self.index_in(exec(st.rows, base, m)) < 256 * n,
        ensures
            ({
                let i = self.index_in(exec(st.rows, base, m));
                reads_by(
                    self.dispatch(st, gi, n, done).rows,
                    base,
                    m,
                    Sym::Reader(gi, (i / 256) as u32),
                    (i % 256) as u8,
                    Flow::Next,
                )
            }),
    {
        let b = exec(st.rows, base, m);
        let k = b.ram[self.scratch] as u32;
        let w = b.ram[self.retval];
        let i = self.index_in(b);
        assert(i / 256 == k && i % 256 == w);
        let s = Sym::Reader(gi, k);
        if n <= 2 {
            let l_hi = st.next;
            let s0 = st.bump();
            assert(exec(s0.rows, base, m) == b);
            let s1 = s0.emit(movf(self.retval)).emit(ram_bit(BitOp::Btfsc, self.scratch, 0)).emit(
                goto_tmp(l_hi),
            );
            let c1 = exec(s1.rows, base, m);
            assert(base <= s1.rows.len() && c1.core == b.core && c1.ram == b.ram && c1.flow == (if k == 0 {
                Flow::Next
            } else {
                tmp(l_hi, 0)
            })) by {
                broadcast use group_exec;

            }
            let s2 = self.chunk_call(s1, gi, 0);
            let s3 = s2.emit(goto_tmp(done)).emit(label_tmp(l_hi));
            if k == 0 {
                let f = tmp(done, 0);
                self.lemma_chunk_call(s1, gi, 0, base, m);
                lemma_reads_emit(s2, goto_tmp(done), base, m, s, w, Flow::Next, f);
                lemma_reads_emit(s2.emit(goto_tmp(done)), label_tmp(l_hi), base, m, s, w, f, f);
                self.lemma_calls_chunk(s3, gi, 1, done, base, m, s, w);
                let t = self.two_chunks(st, gi, done);
                lemma_reads_emit(t, label_tmp(done), base, m, s, w, f, Flow::Next);
            } else {
                self.lemma_chunk_over(s1, gi, 0, base, m);
                let c3 = exec(s3.rows, base, m);
                assert(base <= s3.rows.len() && c3.core == b.core && c3.ram == b.ram && c3.flow is Next) by {
                    broadcast use group_exec;

                }
                self.lemma_chunk_call(s3, gi, 1, base, m);
                let t = self.two_chunks(st, gi, done);
                lemma_reads_emit(t, label_tmp(done), base, m, s, w, Flow::Next, Flow::Next);
            }
        } else {
            let first = st.next;
            let s1 = self.chunk_tests(st, (n - 1) as u32);
            self.lemma_chunk_tests(st, (n - 1) as u32, base, m);
            let s2 = self.chunk_call(s1, gi, 0);
            let s3 = s2.emit(goto_tmp(done));
            if k == 0 {
                self.lemma_chunk_call(s1, gi, 0, base, m);
                lemma_reads_emit(s2, goto_tmp(done), base, m, s, w, Flow::Next, tmp(done, 0));
                self.lemma_calls_later(s3, gi, (n - 1) as u32, first, done, base, m, s, w);
            } else {
                self.lemma_chunk_over(s1, gi, 0, base, m);
                assert(base <= s3.rows.len() && exec(s3.rows, base, m) == exec(s1.rows, base, m)) by {
                    broadcast use group_exec;

                }
                self.lemma_chunk_calls(s3, gi, (n - 1) as u32, first, done, k, base, m);
            }
            let t = self.chunk_chain(st, gi, n, done);
            lemma_reads_emit(t, label_tmp(done), base, m, s, w, tmp(done, 0), Flow::Next);
        }
    }
}

} // verus!
