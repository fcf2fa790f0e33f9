//! A read of a constant table gives the byte of the table.
//!
//! Program memory is a map from addresses to lines. A call of a reader runs the
//! reader up to its computed jump, and goes on at the word that PCLATH and W name:
//! that word returns with its byte in W.
use vstd::prelude::*;
use crate::consts::byte_imm;
use crate::emit::{lit, lo8, movf, movlw, movwf, Row, St};
use crate::ir::Term;
use crate::line::{Imm, Line, LitOp, Sym};
use crate::machine::{
    exec, exec_to, group_exec, is_code, lemma_step_write, literal, step, Flow, Machine,
};
use crate::meaning::word;
use crate::pic14e::laws::float_int::under_way;
use crate::pic14e::laws::memory::lemma_halves;
use crate::pic14e::laws::places::law_chunk_takes_no_carry;
use crate::pic14e::laws::reading::{brings_back, calls_at, reads_by};
use crate::pic14e::laws::tables::{
    address, end_address, law_table_stands_where_planned, lemma_data, lemma_emit, lemma_reader,
    stands,
};
use crate::pic14e::laws::{lemma_movf, lemma_movlw, lemma_movwf, ready};
use crate::pic14e::layout::{table_base, table_chunks, READER};
use crate::pic14e::pointer::{chunks_of, offset_of};
use crate::pic14e::select::{
    chunk_end, chunks_from, data_lines, reader_lines, readers_from, table_lines, Inputs,
};
use crate::pic14e::Gen;

verus! {

/// Whether program memory holds the lines of `st`, row `from` standing at `a`.
pub open spec fn assembled(flash: Map<int, Line>, st: St, from: int, a: nat) -> bool {
    forall|n: int|
        from <= n < st.rows.len() && is_code((#[trigger] st.rows[n]).line) ==> flash[address(
            st.rows,
            from,
            n,
            a,
        ) as int] == st.rows[n].line
}

/// Whether the byte literals of labels are those of the addresses where the
/// labels stand.
pub open spec fn linked(links: Map<Imm, u8>, st: St, from: int, a: nat) -> bool {
    forall|s: Sym, p: nat| #[trigger]
        stands(st, from, a, s, p) ==> links[Imm::Low(s)] == p % 256 && links[Imm::High(s)] == p / 256
            % 256
}

/// Whether a table stands in program memory from `base` on, and its labels are
/// linked.
pub open spec fn holds_table(
    x: Inputs,
    flash: Map<int, Line>,
    links: Map<Imm, u8>,
    gi: usize,
    base: nat,
) -> bool {
    let size = x.m.globals@[gi as int].bytes@.len();
    &&& forall|j: int|
        0 <= j < size ==> flash[base + j] == Line::Lit(
            LitOp::Retlw,
            #[trigger] byte_imm(x.m, x.addrs, gi, j),
        )
    &&& forall|c: u32|
        c < table_chunks(size) ==> #[trigger] links[Imm::Low(Sym::Chunk(gi, c))] == (base + 256 * c)
            % 256 && links[Imm::High(Sym::Chunk(gi, c))] == (base + 256 * c) / 256 % 256
}

/// Whether the word `l` stands at `p`.
spec fn word_at(st: St, from: int, a: nat, l: Line, p: int) -> bool {
    exists|n: int|
        from <= n < st.rows.len() && (#[trigger] st.rows[n]).line == l && address(st.rows, from, n, a)
            == p
}

/// Whether `to` starts with the rows of `st`.
spec fn extends(st: St, to: St) -> bool {
    st.rows.len() <= to.rows.len() && to.rows.take(st.rows.len() as int) == st.rows
}

proof fn lemma_extends_emit(st: St, to: St, l: Line)
    requires
        extends(st, to),
    ensures
        extends(st, to.emit(l)),
{
    assert(to.emit(l).rows.take(st.rows.len() as int) =~= to.rows.take(st.rows.len() as int));
}

proof fn lemma_address(rows: Seq<Row>, first: Seq<Row>, from: int, n: int, a: nat)
    requires
        0 <= from,
        n <= first.len() <= rows.len(),
        rows.take(first.len() as int) == first,
    ensures
        address(rows, from, n, a) == address(first, from, n, a),
    decreases n - from,
{
    if n > from {
        lemma_address(rows, first, from, n - 1, a);
        assert(rows[n - 1] == rows.take(first.len() as int)[n - 1]);
    }
}

proof fn lemma_word_stays(st: St, to: St, from: int, a: nat, l: Line, p: int)
    requires
        0 <= from,
        extends(st, to),
        word_at(st, from, a, l, p),
    ensures
        word_at(to, from, a, l, p),
{
    let n = choose|n: int|
        from <= n < st.rows.len() && (#[trigger] st.rows[n]).line == l && address(st.rows, from, n, a)
            == p;
    lemma_address(to.rows, st.rows, from, n, a);
    assert(to.rows[n] == to.rows.take(st.rows.len() as int)[n]);
    assert(to.rows[n].line == l);
}

proof fn lemma_data_words(x: Inputs, st: St, gi: usize, i: int, end: int, from: int, a: nat, j: int)
    requires
        0 <= from <= st.rows.len(),
    ensures
        extends(st, data_lines(x, st, gi, i, end)),
        i <= j < end ==> word_at(
            data_lines(x, st, gi, i, end),
            from,
            a,
            Line::Lit(LitOp::Retlw, byte_imm(x.m, x.addrs, gi, j)),
            end_address(st, from, a) + j - i,
        ),
    decreases end - i,
{
    let to = data_lines(x, st, gi, i, end);
    assert(st.rows.take(st.rows.len() as int) =~= st.rows);
    if i < end {
        let l = Line::Lit(LitOp::Retlw, byte_imm(x.m, x.addrs, gi, i));
        let s = st.emit(l);
        lemma_emit(st, l, from, a);
        lemma_data_words(x, s, gi, i + 1, end, from, a, j);
        assert(to.rows.take(st.rows.len() as int) =~= s.rows.take(st.rows.len() as int));
        assert(s.rows.take(st.rows.len() as int) =~= st.rows);
        if i == j {
            let n = st.rows.len() as int;
            lemma_address(s.rows, st.rows, from, n, a);
            assert(s.rows[n].line == l);
            assert(word_at(s, from, a, l, end_address(st, from, a) as int));
            lemma_word_stays(s, to, from, a, l, end_address(st, from, a) as int);
        }
    }
}

proof fn lemma_chunk_words(
    x: Inputs,
    st: St,
    gi: usize,
    size: nat,
    c: nat,
    base: nat,
    from: int,
    a: nat,
    j: int,
)
    requires
        0 <= from <= st.rows.len(),
        c <= table_chunks(size),
        size <= 65535,
        end_address(st, from, a) == (if c < table_chunks(size) {
            base + 256 * c
        } else {
            base + size
        }),
    ensures
        extends(st, chunks_from(x, st, gi, size, c)),
        256 * c <= j < size ==> word_at(
            chunks_from(x, st, gi, size, c),
            from,
            a,
            Line::Lit(LitOp::Retlw, byte_imm(x.m, x.addrs, gi, j)),
            base + j,
        ),
    decreases table_chunks(size) - c,
{
    let to = chunks_from(x, st, gi, size, c);
    assert(st.rows.take(st.rows.len() as int) =~= st.rows);
    if c < table_chunks(size) {
        let l = Line::Label(Sym::Chunk(gi, c as u32));
        let s1 = st.emit(l);
        lemma_emit(st, l, from, a);
        let (i, end) = (256 * c as int, chunk_end(size, c) as int);
        let s2 = data_lines(x, s1, gi, i, end);
        lemma_data(x, s1, gi, i, end, from, a);
        lemma_data_words(x, s1, gi, i, end, from, a, j);
        lemma_chunk_words(x, s2, gi, size, c + 1, base, from, a, j);
        let n = st.rows.len() as int;
        assert(to.rows.take(n) =~= s2.rows.take(n));
        assert(s2.rows.take(n) =~= s1.rows.take(n));
        assert(s1.rows.take(n) =~= st.rows);
        if i <= j < end {
            let w = Line::Lit(LitOp::Retlw, byte_imm(x.m, x.addrs, gi, j));
            lemma_word_stays(s2, to, from, a, w, base + j);
        }
    }
}

proof fn lemma_reader_extends(st: St, scratch: u32, gi: usize, c: u32)
    ensures
        extends(st, reader_lines(st, scratch, gi, c)),
{
    assert(reader_lines(st, scratch, gi, c).rows.take(st.rows.len() as int) =~= st.rows);
}

proof fn lemma_readers_extend(st: St, scratch: u32, gi: usize, n: nat, c: nat)
    ensures
        extends(st, readers_from(st, scratch, gi, n, c)),
    decreases n - c,
{
    assert(st.rows.take(st.rows.len() as int) =~= st.rows);
    if c < n {
        let s = reader_lines(st, scratch, gi, c as u32);
        lemma_reader_extends(st, scratch, gi, c as u32);
        lemma_readers_extend(s, scratch, gi, n, c + 1);
        let to = readers_from(st, scratch, gi, n, c);
        let k = st.rows.len() as int;
        assert(to.rows.take(k) =~= s.rows.take(k));
    }
}

proof fn lemma_table_word(x: Inputs, st: St, scratch: u32, gi: usize, from: int, a: nat, j: int)
    requires
        0 <= from <= st.rows.len(),
        gi < x.m.globals@.len(),
        0 <= j < x.m.globals@[gi as int].bytes@.len() <= 65535,
    ensures
        ({
            let addr = end_address(st, from, a);
            let size = x.m.globals@[gi as int].bytes@.len();
            word_at(
                table_lines(x, st, scratch, gi, addr),
                from,
                a,
                Line::Lit(LitOp::Retlw, byte_imm(x.m, x.addrs, gi, j)),
                table_base(addr, size) + j,
            )
        }),
{
    let addr = end_address(st, from, a);
    let size = x.m.globals@[gi as int].bytes@.len();
    let base = table_base(addr, size);
    let s1 = reader_lines(st, scratch, gi, 0);
    lemma_reader(st, scratch, gi, 0, from, a);
    let moved = size >= 256 || base != addr + READER;
    let s2 = if moved {
        s1.emit(Line::Align)
    } else {
        s1
    };
    if moved {
        lemma_emit(s1, Line::Align, from, a);
    }
    assert(end_address(s2, from, a) == base);
    let l = Line::Table(gi, size as u32);
    lemma_emit(s2, l, from, a);
    let s3 = s2.emit(l);
    let s4 = chunks_from(x, s3, gi, size, 0);
    lemma_chunk_words(x, s3, gi, size, 0, base, from, a, j);
    let s5 = readers_from(s4, scratch, gi, table_chunks(size), 1);
    lemma_readers_extend(s4, scratch, gi, table_chunks(size), 1);
    lemma_extends_emit(s4, s5, Line::Blank);
    let w = Line::Lit(LitOp::Retlw, byte_imm(x.m, x.addrs, gi, j));
    lemma_word_stays(s4, table_lines(x, st, scratch, gi, addr), from, a, w, base + j);
}

/// A table that is assembled and linked stands in program memory from its base on.
pub proof fn law_assembled_table_stands(
    x: Inputs,
    flash: Map<int, Line>,
    links: Map<Imm, u8>,
    st: St,
    scratch: u32,
    gi: usize,
    from: int,
    a: nat,
)
    requires
        0 <= from <= st.rows.len(),
        gi < x.m.globals@.len(),
        x.m.globals@[gi as int].bytes@.len() <= 65535,
        assembled(
            flash,
            table_lines(x, st, scratch, gi, end_address(st, from, a)),
            from,
            a,
        ),
        linked(links, table_lines(x, st, scratch, gi, end_address(st, from, a)), from, a),
    ensures
        holds_table(
            x,
            flash,
            links,
            gi,
            table_base(end_address(st, from, a), x.m.globals@[gi as int].bytes@.len()),
        ),
{
    let addr = end_address(st, from, a);
    let size = x.m.globals@[gi as int].bytes@.len();
    let base = table_base(addr, size);
    let to = table_lines(x, st, scratch, gi, addr);
    assert forall|j: int| 0 <= j < size implies flash[base + j] == Line::Lit(
        LitOp::Retlw,
        #[trigger] byte_imm(x.m, x.addrs, gi, j),
    ) by {
        lemma_table_word(x, st, scratch, gi, from, a, j);
        let l = Line::Lit(LitOp::Retlw, byte_imm(x.m, x.addrs, gi, j));
        let n = choose|n: int|
            from <= n < to.rows.len() && (#[trigger] to.rows[n]).line == l && address(
                to.rows,
                from,
                n,
                a,
            ) == base + j;
        assert(is_code(to.rows[n].line));
    }
    law_table_stands_where_planned(x, st, scratch, gi, from, a);
    assert forall|c: u32| c < table_chunks(size) implies #[trigger] links[Imm::Low(
        Sym::Chunk(gi, c),
    )] == (base + 256 * c) % 256 && links[Imm::High(Sym::Chunk(gi, c))] == (base + 256 * c) / 256
        % 256 by {
        assert(stands(to, from, a, Sym::Chunk(gi, c), base + 256 * c as nat));
    }
}

/// What a call of the reader of chunk `c` comes to: the reader runs to its jump,
/// and the word that PCLATH and W name returns with its byte in W.
pub open spec fn reader_returns(
    flash: Map<int, Line>,
    scratch: u32,
    gi: usize,
    c: u32,
    m: Machine,
) -> Machine {
    let j = exec(reader_lines(St::start(0), scratch, gi, c).rows, 0, m);
    match flash[256 * j.pclath + j.w] {
        Line::Lit(LitOp::Retlw, i) => Machine { w: literal(j, i), flow: Flow::Next, ..j },
        _ => j,
    }
}

/// A reader returns the byte of its chunk that W names.
pub proof fn law_reader_returns_the_byte(
    x: Inputs,
    flash: Map<int, Line>,
    scratch: u32,
    gi: usize,
    c: u32,
    addr: nat,
    m: Machine,
)
    requires
        ({
            let size = x.m.globals@[gi as int].bytes@.len();
            let base = table_base(addr, size);
            &&& holds_table(x, flash, m.links, gi, base)
            &&& base + size <= 0x1_0000
            &&& c < table_chunks(size)
            &&& 256 * c + m.w < chunk_end(size, c as nat)
        }),
        m.flow is Next,
        m.core is Enhanced,
    ensures
        ({
            let a = reader_returns(flash, scratch, gi, c, m);
            a.flow is Next && a.core is Enhanced && a.w == literal(
                m,
                byte_imm(x.m, x.addrs, gi, 256 * c + m.w),
            )
        }),
{
    let size = x.m.globals@[gi as int].bytes@.len();
    let base = table_base(addr, size);
    let p = base + 256 * c;
    let i = m.w as int;
    law_chunk_takes_no_carry(addr, size, c as nat, m.w as nat);
    let j = exec(reader_lines(St::start(0), scratch, gi, c).rows, 0, m);
    let lo = m.links[Imm::Low(Sym::Chunk(gi, c))];
    let hi = m.links[Imm::High(Sym::Chunk(gi, c))];
    assert(lo == p % 256 && hi == p / 256 % 256);
    assert(p / 256 < 256);
    assert(j.pclath == hi && j.w == (lo + i) % 256 && j.links == m.links && j.core == m.core) by {
        broadcast use group_exec, lemma_step_write;

    }
    assert((p + i) / 256 == p / 256);
    assert(p % 256 + i < 256);
    assert(256 * j.pclath + j.w == p + i);
    assert(flash[base + (256 * c + i)] == Line::Lit(
        LitOp::Retlw,
        byte_imm(x.m, x.addrs, gi, 256 * c + i),
    ));
}

/// Whether a run goes through the call of a reader to `after`.
pub open spec fn reads_through(
    flash: Map<int, Line>,
    scratch: u32,
    rows: Seq<Row>,
    base: int,
    m: Machine,
    after: Machine,
) -> bool {
    exists|n: int, gi: usize, c: u32|
        base <= n < rows.len() && rows[n].line == Line::Call(Sym::Reader(gi, c)) && exec_to(
            rows,
            base,
            n,
            m,
        ).flow is Next && after == #[trigger] exec(
            rows,
            n + 1,
            reader_returns(flash, scratch, gi, c, exec_to(rows, base, n, m)),
        )
}

proof fn lemma_same_links(rows: Seq<Row>, base: int, n: int, m: Machine)
    ensures
        exec_to(rows, base, n, m).links == m.links,
        exec_to(rows, base, n, m).core == m.core,
    decreases n - base,
{
    if n > base {
        lemma_same_links(rows, base, n - 1, m);
        reveal(step);
    }
}

/// A read that calls the right reader with the right index brings the byte.
proof fn lemma_through(
    x: Inputs,
    flash: Map<int, Line>,
    scratch: u32,
    gi: usize,
    addr: nat,
    rows: Seq<Row>,
    base: int,
    m: Machine,
    i: int,
)
    requires
        ({
            let size = x.m.globals@[gi as int].bytes@.len();
            let at = table_base(addr, size);
            &&& holds_table(x, flash, m.links, gi, at)
            &&& at + size <= 0x1_0000
            &&& 0 <= i < size
        }),
        m.core is Enhanced,
        reads_by(rows, base, m, Sym::Reader(gi, (i / 256) as u32), (i % 256) as u8, Flow::Next),
    ensures
        exists|after: Machine| #[trigger]
            reads_through(flash, scratch, rows, base, m, after) && after.flow is Next && after.w
                == literal(m, byte_imm(x.m, x.addrs, gi, i)),
{
    let s = Sym::Reader(gi, (i / 256) as u32);
    let w = (i % 256) as u8;
    let n = choose|n: int| #[trigger]
        calls_at(rows, base, m, s, w, n) && brings_back(rows, n, Flow::Next);
    let b = exec_to(rows, base, n, m);
    lemma_same_links(rows, base, n, m);
    law_reader_returns_the_byte(x, flash, scratch, gi, (i / 256) as u32, addr, b);
    let r = reader_returns(flash, scratch, gi, (i / 256) as u32, b);
    let after = exec(rows, n + 1, r);
    assert(after.flow is Next && after.w == r.w);
    assert(reads_through(flash, scratch, rows, base, m, after));
}

impl<'a> Gen<'a> {
    /// The inputs that this selector works on.
    pub open spec fn inputs(&self) -> Inputs<'a> {
        Inputs {
            device: self.cx.device,
            m: self.cx.m,
            addrs: self.cx.addrs,
            ptrs: self.cx.ptrs,
        }
    }

    /// Whether the table called `name` stands in program memory, its reader at
    /// `addr`.
    pub open spec fn table_in(
        &self,
        flash: Map<int, Line>,
        m: Machine,
        name: Seq<char>,
        addr: nat,
    ) -> bool {
        let gi = self.table_no(name);
        let size = self.cx.m.globals@[gi as int].bytes@.len();
        &&& self.cx.size_of(name) == Some(size as u16)
        &&& size <= 65535
        &&& holds_table(self.inputs(), flash, m.links, gi, table_base(addr, size))
        &&& table_base(addr, size) + size <= 0x1_0000
    }

    /// Byte `i` of the table called `name`.
    pub open spec fn table_byte(&self, m: Machine, name: Seq<char>, i: int) -> u8 {
        literal(m, byte_imm(self.cx.m, self.cx.addrs, self.table_no(name), i))
    }

    proof fn lemma_index_w(&self, st: St, k: u8, terms: Seq<Term>, off: u8, base: int, m: Machine)
        requires
            ready(st, base, m),
            self.good_terms(terms),
            offset_of(k, off) <= 0xFF,
        ensures
            ready(self.index_w(st, k, terms, off), base, m),
            ({
                let b = exec(st.rows, base, m);
                let a = exec(self.index_w(st, k, terms, off).rows, base, m);
                a.w == (offset_of(k, off) + self.terms_sum(b, terms, 0)) % 256
            }),
    {
        let kk = offset_of(k, off);
        let b = exec(st.rows, base, m);
        assert(lo8(kk) == kk) by {
            lemma_halves(kk);
        }
        if terms.len() <= 1 && (terms.len() == 1 ==> terms[0].scale == 1) {
            self.lemma_offset_w(st, lo8(kk), terms, base, m);
        } else {
            let s1 = st.emit(movlw(0));
            lemma_movlw(st, 0, base, m);
            let s2 = s1.emit(movwf(self.scratch));
            lemma_movwf(s1, self.scratch, base, m);
            let s3 = self.accum_from(s2, terms, 0);
            self.lemma_accum_from(s2, terms, 0, base, m);
            self.lemma_sum_same(b, exec(s2.rows, base, m), terms, 0);
            let s4 = s3.emit(movf(self.scratch));
            lemma_movf(s3, self.scratch, base, m);
            let s5 = s4.emit(lit(LitOp::Addlw, lo8(kk)));
            assert(ready(s5, base, m) && exec(s5.rows, base, m).w == (exec(s4.rows, base, m).w + kk)
                % 256) by {
                broadcast use group_exec;

            }
        }
    }

    /// A read of a table of at most 255 bytes leaves in W the byte that the
    /// offset and the terms name.
    pub proof fn law_small_read_gives_the_byte(
        &self,
        flash: Map<int, Line>,
        addr: nat,
        st: St,
        name: Seq<char>,
        k: u8,
        terms: Seq<Term>,
        off: u8,
        base: int,
        m: Machine,
    )
        requires
            ready(st, base, m),
            self.good_terms(terms),
            k + off <= 0xFF,
            self.table_in(flash, m, name, addr),
            self.cx.m.globals@[self.table_no(name) as int].bytes@.len() <= 255,
            k + off + self.terms_sum(exec(st.rows, base, m), terms, 0)
                < self.cx.m.globals@[self.table_no(name) as int].bytes@.len(),
            m.core is Enhanced,
        ensures
            exists|after: Machine| #[trigger]
                reads_through(
                    flash,
                    self.scratch,
                    self.read_small(st, name, k, terms, off).rows,
                    base,
                    m,
                    after,
                ) && after.flow is Next && after.w == self.table_byte(
                    m,
                    name,
                    k + off + self.terms_sum(exec(st.rows, base, m), terms, 0),
                ),
    {
        let b = exec(st.rows, base, m);
        let gi = self.table_no(name);
        let reader = Sym::Reader(gi, 0);
        let s1 = self.set_page(st, reader);
        let c1 = exec(s1.rows, base, m);
        assert(ready(s1, base, m) && c1.ram == b.ram) by {
            broadcast use group_exec, lemma_step_write;

        }
        self.lemma_sum_same(b, c1, terms, 0);
        self.lemma_sum_natural(b, terms, 0);
        let i = k + off + self.terms_sum(b, terms, 0);
        self.lemma_index_w(s1, k, terms, off, base, m);
        let s2 = self.index_w(s1, k, terms, off);
        assert(exec(s2.rows, base, m).w == i);
        self.lemma_reader_call(s2, reader, base, m);
        let rows = self.read_small(st, name, k, terms, off).rows;
        lemma_through(self.inputs(), flash, self.scratch, gi, addr, rows, base, m, i);
    }

    proof fn lemma_sum_natural(&self, m: Machine, terms: Seq<Term>, i: int)
        ensures
            self.terms_sum(m, terms, i) >= 0,
        decreases terms.len() - i,
    {
        if 0 <= i < terms.len() {
            self.lemma_sum_natural(m, terms, i + 1);
            assert(terms[i].scale * m.ram[self.term_slot(terms[i])->0] >= 0) by (nonlinear_arith);
        }
    }

    /// A read of a table of 256 bytes or more leaves in W the byte that the
    /// offset and the scaled register name.
    pub proof fn law_large_read_gives_the_byte(
        &self,
        flash: Map<int, Line>,
        addr: nat,
        st: St,
        name: Seq<char>,
        k: u8,
        t: Term,
        terms: Seq<Term>,
        off: u8,
        base: int,
        m: Machine,
    )
        requires
            under_way(st, base, m),
            exec(st.rows, base, m).flow is Next,
            st.next <= u32::MAX - 301,
            terms == seq![t],
            t.scale == 1 || t.scale == 2 || t.scale == 4,
            self.width_of(t.reg@) == Some(2u8),
            self.term_slot(t) matches Some(a) && self.index_slots(a),
            k + off <= 0xFF,
            self.table_in(flash, m, name, addr),
            self.cx.m.globals@[self.table_no(name) as int].bytes@.len() >= 256,
            k + off + t.scale * word(exec(st.rows, base, m), self.term_slot(t)->0, 2)
                < self.cx.m.globals@[self.table_no(name) as int].bytes@.len(),
            m.core is Enhanced,
        ensures
            exists|after: Machine| #[trigger]
                reads_through(
                    flash,
                    self.scratch,
                    self.read_large(st, name, k, terms, off).rows,
                    base,
                    m,
                    after,
                ) && after.flow is Next && after.w == self.table_byte(
                    m,
                    name,
                    k + off + t.scale * word(exec(st.rows, base, m), self.term_slot(t)->0, 2),
                ),
    {
        let b = exec(st.rows, base, m);
        let gi = self.table_no(name);
        let size = self.cx.m.globals@[gi as int].bytes@.len();
        let a = self.term_slot(t)->0;
        let kk = offset_of(k, off);
        assert(lo8(kk) == kk) by {
            lemma_halves(kk);
        }
        let i = k + off + t.scale * word(b, a, 2);
        assert(terms[0] == t);
        let done = st.next;
        let s1 = st.bump();
        assert(exec(s1.rows, base, m) == b);
        assert(under_way(s1, base, m));
        let chunks = chunks_of(size as u16);
        assert(size <= 256 * chunks);
        assert(s1.next == done + 1);
        let s2 = if t.scale == 1 {
            self.plain_index(s1, a, lo8(kk))
        } else {
            self.scaled_index(s1, a, lo8(kk), t.scale, chunks)
        };
        if t.scale == 1 {
            assert(t.scale * word(b, a, 2) == word(b, a, 2)) by (nonlinear_arith)
                requires
                    t.scale == 1,
            ;
            self.law_plain_index_adds_the_offset(s1, a, lo8(kk), base, m);
        } else {
            self.law_scaled_index_scales(s1, a, lo8(kk), t.scale, chunks, base, m);
        }
        assert(s2.next == s1.next);
        self.law_dispatch_calls_the_chunk(s2, gi, chunks, done, base, m);
        let rows = self.read_large(st, name, k, terms, off).rows;
        assert(rows == self.dispatch(s2, gi, chunks, done).rows);
        lemma_through(self.inputs(), flash, self.scratch, gi, addr, rows, base, m, i);
    }
}

} // verus!
