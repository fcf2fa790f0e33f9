//! The emitter: the lines written so far, what W is known to hold, and the
//! first error met. Lines are written without a source location; what lowers an
//! instruction of the source marks the lines of its own.
//!
//! An emitter that met an error keeps accepting lines; the selector drops
//! them and reports the error.
use vstd::prelude::*;
use crate::error::IselError;
use crate::ir::SrcLoc;
use crate::line::{texts_view, BitOp, Dest, Imm, Line, LitOp, Note, Op, Reg, Sym};

verus! {

/// A line and the source location it came from; `None` marks a line that
/// the compiler added.
#[derive(Clone, Copy, PartialEq, Eq, Structural, Debug)]
pub struct Row {
    pub line: Line,
    pub loc: Option<SrcLoc>,
}

/// Lines with a source location.
pub open spec fn marked(rows: Seq<Row>, loc: Option<SrcLoc>) -> Seq<Row> {
    rows.map_values(|r: Row| Row { line: r.line, loc })
}

/// The state of an [`Emitter`].
pub ghost struct St {
    pub rows: Seq<Row>,
    pub texts: Seq<Seq<char>>,
    /// The slot whose value W holds.
    pub w: Option<u32>,
    /// The number of the next fresh label.
    pub next: u32,
    pub err: Option<IselError>,
}

impl St {
    /// No line yet, labels numbered from `next`.
    pub open spec fn start(next: u32) -> St {
        St {
            rows: Seq::empty(),
            texts: Seq::empty(),
            w: None,
            next,
            err: None,
        }
    }

    /// One more line; W may hold anything after it.
    pub open spec fn emit(self, l: Line) -> St {
        St { rows: self.rows.push(Row { line: l, loc: None }), w: None, ..self }
    }

    /// One more line that leaves W alone.
    pub open spec fn keep(self, l: Line) -> St {
        St { rows: self.rows.push(Row { line: l, loc: None }), ..self }
    }

    /// One more line of raw text.
    pub open spec fn emit_text(self, t: Seq<char>) -> St {
        St {
            rows: self.rows.push(
                Row { line: Line::Text(self.texts.len() as usize), loc: None },
            ),
            texts: self.texts.push(t),
            w: None,
            ..self
        }
    }

    /// Raw text lines, from line `i` on.
    pub open spec fn emit_texts(self, ts: Seq<Seq<char>>, i: int) -> St
        decreases ts.len() - i,
    {
        if i < 0 || i >= ts.len() {
            self
        } else {
            self.emit_text(ts[i]).emit_texts(ts, i + 1)
        }
    }

    /// W now holds the value of slot `a`.
    pub open spec fn holding(self, a: u32) -> St {
        St { w: Some(a), ..self }
    }

    /// One more line of the instruction at `loc`.
    pub open spec fn emit_at(self, l: Line, loc: Option<SrcLoc>) -> St {
        St { rows: self.rows.push(Row { line: l, loc }), w: None, ..self }
    }

    /// The same state before its first line.
    pub open spec fn fresh(self) -> St {
        St { rows: Seq::empty(), ..self }
    }

    /// Goes on as `s`, whose lines all belong to the instruction at `loc`.
    pub open spec fn join(self, s: St, loc: Option<SrcLoc>) -> St {
        St { rows: self.rows + marked(s.rows, loc), ..s }
    }

    /// Records `e`, unless an error is recorded already.
    pub open spec fn fail(self, e: IselError) -> St {
        St {
            err: match self.err {
                Some(first) => Some(first),
                None => Some(e),
            },
            ..self
        }
    }

    /// Records `e` unless `ok`.
    pub open spec fn check(self, ok: bool, e: IselError) -> St {
        if ok {
            self
        } else {
            self.fail(e)
        }
    }

    /// Uses up label number `self.next`.
    pub open spec fn bump(self) -> St {
        if self.next == u32::MAX {
            self.fail(IselError::LabelsExhausted)
        } else {
            St { next: (self.next + 1) as u32, ..self }
        }
    }

    /// Uses up `n` label numbers from `self.next` on.
    pub open spec fn reserve(self, n: u32) -> St {
        if self.next > u32::MAX - n {
            self.fail(IselError::LabelsExhausted)
        } else {
            St { next: (self.next + n) as u32, ..self }
        }
    }
}

/// The lines a selector writes, in order.
#[derive(Debug)]
pub struct Emitter {
    pub rows: Vec<Row>,
    pub texts: Vec<String>,
    pub w: Option<u32>,
    pub next: u32,
    pub err: Option<IselError>,
}

impl View for Emitter {
    type V = St;

    open spec fn view(&self) -> St {
        St {
            rows: self.rows@,
            texts: texts_view(self.texts@),
            w: self.w,
            next: self.next,
            err: self.err,
        }
    }
}

impl Emitter {
    pub fn new(next: u32) -> (r: Self)
        ensures
            r@ == St::start(next),
    {
        let r = Emitter {
            rows: Vec::new(),
            texts: Vec::new(),
            w: None,
            next,
            err: None,
        };
        assert(r@.texts =~= Seq::<Seq<char>>::empty());
        r
    }

    pub fn emit(&mut self, l: Line)
        ensures
            final(self)@ == old(self)@.emit(l),
    {
        self.w = None;
        self.rows.push(Row { line: l, loc: None });
    }

    pub fn keep(&mut self, l: Line)
        ensures
            final(self)@ == old(self)@.keep(l),
    {
        self.rows.push(Row { line: l, loc: None });
    }

    pub fn emit_text(&mut self, t: String)
        ensures
            final(self)@ == old(self)@.emit_text(t@),
    {
        self.w = None;
        self.rows.push(Row { line: Line::Text(self.texts.len()), loc: None });
        self.texts.push(t);
        assert(texts_view(self.texts@) =~= texts_view(old(self).texts@).push(t@));
    }

    /// Raw text lines, in order.
    pub fn emit_texts(&mut self, ts: &Vec<String>)
        ensures
            final(self)@ == old(self)@.emit_texts(texts_view(ts@), 0),
    {
        let mut i: usize = 0;
        while i < ts.len()
            invariant
                i <= ts@.len(),
                old(self)@.emit_texts(texts_view(ts@), 0) == self@.emit_texts(
                    texts_view(ts@),
                    i as int,
                ),
            decreases ts@.len() - i,
        {
            self.emit_text(ts[i].clone());
            i += 1;
        }
    }

    pub fn holding(&mut self, a: u32)
        ensures
            final(self)@ == old(self)@.holding(a),
    {
        self.w = Some(a);
    }

    pub fn emit_at(&mut self, l: Line, loc: Option<SrcLoc>)
        ensures
            final(self)@ == old(self)@.emit_at(l, loc),
    {
        self.w = None;
        self.rows.push(Row { line: l, loc });
    }

    /// Sets the lines so far aside.
    pub fn set_aside(&mut self) -> (rows: Vec<Row>)
        ensures
            final(self)@ == old(self)@.fresh(),
            rows@ == old(self)@.rows,
    {
        let mut rows: Vec<Row> = Vec::new();
        std::mem::swap(&mut self.rows, &mut rows);
        assert(self@.rows =~= Seq::<Row>::empty());
        rows
    }

    /// Puts the lines so far behind `rows`, all of them marked with `loc`.
    pub fn rejoin(&mut self, rows: Vec<Row>, loc: Option<SrcLoc>)
        ensures
            final(self)@ == (St { rows: rows@, ..old(self)@ }).join(old(self)@, loc),
    {
        let mut all: Vec<Row> = rows;
        let mut i: usize = 0;
        while i < self.rows.len()
            invariant
                self@ == old(self)@,
                i <= self.rows@.len(),
                all@ == rows@ + marked(self.rows@, loc).take(i as int),
            decreases self.rows@.len() - i,
        {
            all.push(Row { line: self.rows[i].line, loc });
            i += 1;
            assert(all@ =~= rows@ + marked(self.rows@, loc).take(i as int));
        }
        assert(marked(self.rows@, loc).take(i as int) =~= marked(self.rows@, loc));
        self.rows = all;
    }

    pub fn fail(&mut self, e: IselError)
        ensures
            final(self)@ == old(self)@.fail(e),
    {
        if self.err.is_none() {
            self.err = Some(e);
        }
    }

    pub fn check(&mut self, ok: bool, e: IselError)
        ensures
            final(self)@ == old(self)@.check(ok, e),
    {
        if !ok {
            self.fail(e);
        }
    }

    /// A fresh label number. The counter runs through the whole module, so
    /// no two fresh labels of a module are the same.
    pub fn fresh_label(&mut self) -> (r: u32)
        ensures
            r == old(self)@.next,
            final(self)@ == old(self)@.bump(),
    {
        let n: u32 = self.next;
        if n == u32::MAX {
            self.fail(IselError::LabelsExhausted);
        } else {
            self.next = n + 1;
        }
        n
    }

    /// The first of `n` consecutive fresh label numbers.
    pub fn reserve(&mut self, n: u32) -> (r: u32)
        ensures
            r == old(self)@.next,
            final(self)@ == old(self)@.reserve(n),
    {
        let first: u32 = self.next;
        if first > u32::MAX - n {
            self.fail(IselError::LabelsExhausted);
        } else {
            self.next = first + n;
        }
        first
    }
}

/// The address `i` bytes past `a`.
#[verifier::allow_in_spec]
pub fn at(a: u32, i: u8) -> u32
    returns
        a.wrapping_add(i as u32),
{
    a.wrapping_add(i as u32)
}

/// Byte `i` of the two's-complement value `k`.
#[verifier::allow_in_spec]
pub fn const_byte(k: i64, i: u8) -> u8
    returns
        (match i {
            0u8 => (k & 0xFF) as u8,
            1u8 => ((k >> 8) & 0xFF) as u8,
            2u8 => ((k >> 16) & 0xFF) as u8,
            3u8 => ((k >> 24) & 0xFF) as u8,
            _ => 0u8,
        }),
{
    match i {
        0 => (k & 0xFF) as u8,
        1 => ((k >> 8) & 0xFF) as u8,
        2 => ((k >> 16) & 0xFF) as u8,
        3 => ((k >> 24) & 0xFF) as u8,
        _ => 0,
    }
}

/// The low byte of an address.
#[verifier::allow_in_spec]
pub fn lo8(a: u32) -> u8
    returns
        (a & 0xFF) as u8,
{
    (a & 0xFF) as u8
}

/// The second byte of an address.
#[verifier::allow_in_spec]
pub fn hi8(a: u32) -> u8
    returns
        ((a >> 8) & 0xFF) as u8,
{
    ((a >> 8) & 0xFF) as u8
}

/// `op a, W`.
#[verifier::allow_in_spec]
pub fn w_op(op: Op, a: u32) -> Line
    returns
        Line::Byte(op, Reg::Ram(a), Dest::W),
{
    Line::Byte(op, Reg::Ram(a), Dest::W)
}

/// `op a, F`.
#[verifier::allow_in_spec]
pub fn f_op(op: Op, a: u32) -> Line
    returns
        Line::Byte(op, Reg::Ram(a), Dest::F),
{
    Line::Byte(op, Reg::Ram(a), Dest::F)
}

/// `MOVF a, W`.
#[verifier::allow_in_spec]
pub fn movf(a: u32) -> Line
    returns
        Line::Byte(Op::Movf, Reg::Ram(a), Dest::W),
{
    Line::Byte(Op::Movf, Reg::Ram(a), Dest::W)
}

/// `MOVWF a`.
#[verifier::allow_in_spec]
pub fn movwf(a: u32) -> Line
    returns
        Line::Movwf(Reg::Ram(a)),
{
    Line::Movwf(Reg::Ram(a))
}

/// `CLRF a`.
#[verifier::allow_in_spec]
pub fn clrf(a: u32) -> Line
    returns
        Line::Clrf(Reg::Ram(a)),
{
    Line::Clrf(Reg::Ram(a))
}

/// `op b` with a literal byte.
#[verifier::allow_in_spec]
pub fn lit(op: LitOp, b: u8) -> Line
    returns
        Line::Lit(op, Imm::Byte(b)),
{
    Line::Lit(op, Imm::Byte(b))
}

/// `MOVLW b`.
#[verifier::allow_in_spec]
pub fn movlw(b: u8) -> Line
    returns
        Line::Lit(LitOp::Movlw, Imm::Byte(b)),
{
    Line::Lit(LitOp::Movlw, Imm::Byte(b))
}

/// A bit instruction on a byte of RAM.
#[verifier::allow_in_spec]
pub fn ram_bit(op: BitOp, a: u32, b: u8) -> Line
    returns
        Line::Bit(op, Reg::Ram(a), b, Note::Bare),
{
    Line::Bit(op, Reg::Ram(a), b, Note::Bare)
}

/// A bit instruction on the carry flag.
#[verifier::allow_in_spec]
pub fn on_c(op: BitOp) -> Line
    returns
        Line::Bit(op, Reg::Status, 0, Note::Bare),
{
    Line::Bit(op, Reg::Status, 0, Note::Bare)
}

/// A bit instruction on the zero flag.
#[verifier::allow_in_spec]
pub fn on_z(op: BitOp) -> Line
    returns
        Line::Bit(op, Reg::Status, 2, Note::Bare),
{
    Line::Bit(op, Reg::Status, 2, Note::Bare)
}

/// A bit instruction on the carry flag, with its comment.
#[verifier::allow_in_spec]
pub fn note_c(op: BitOp) -> Line
    returns
        Line::Bit(op, Reg::Status, 0, Note::C),
{
    Line::Bit(op, Reg::Status, 0, Note::C)
}

/// A bit instruction on the zero flag, with its comment.
#[verifier::allow_in_spec]
pub fn note_z(op: BitOp) -> Line
    returns
        Line::Bit(op, Reg::Status, 2, Note::Z),
{
    Line::Bit(op, Reg::Status, 2, Note::Z)
}

/// The label number `k` after `l`.
#[verifier::allow_in_spec]
pub fn label_at(l: u32, k: u8) -> u32
    returns
        l.wrapping_add(k as u32),
{
    l.wrapping_add(k as u32)
}

/// `GOTO` to fresh label `n`.
#[verifier::allow_in_spec]
pub fn goto_tmp(n: u32) -> Line
    returns
        Line::Goto(Sym::Tmp(n)),
{
    Line::Goto(Sym::Tmp(n))
}

/// Fresh label `n`.
#[verifier::allow_in_spec]
pub fn label_tmp(n: u32) -> Line
    returns
        Line::Label(Sym::Tmp(n)),
{
    Line::Label(Sym::Tmp(n))
}

} // verus!
