//! The built-in delay: code that takes an exact number of instruction cycles.
//!
//! Counts below [`LOOP_MIN`] are written out. Above it a four-byte counter
//! runs down: every turn of the loop takes eleven cycles, because a skip over
//! a one-cycle instruction takes as long as the instruction itself, and the
//! last turn takes ten.
use vstd::prelude::*;
use crate::emit::{at, f_op, goto_tmp, label_tmp, movlw, movwf, on_c, Emitter, St};
use crate::line::{BitOp, Line, Op, Sym};
use crate::machine::{
    exec, group_exec, reached, runs_to, settle, Flow, Machine,
};

verus! {

/// The cycles of a loop whose counter starts at zero.
pub const LOOP_MIN: u32 = 18;

/// The cycles of one further turn.
pub const LOOP_TURN: u32 = 11;

/// The low 32 bits of a count.
#[verifier::allow_in_spec]
pub fn count32(k: i64) -> u32
    returns
        (k & 0xFFFF_FFFF) as u32,
{
    (k & 0xFFFF_FFFF) as u32
}

/// A count of at most 32 bits is taken as it stands.
pub proof fn law_short_count_is_kept(k: i64)
    requires
        0 <= k <= u32::MAX,
    ensures
        count32(k) == k,
{
    assert(0 <= k <= 0xFFFF_FFFF ==> k & 0xFFFF_FFFF == k) by (bit_vector);
}

/// Byte `i` of a counter.
#[verifier::allow_in_spec]
pub fn byte_of(n: u32, i: u8) -> u8
    returns
        (match i {
            0u8 => (n & 0xFF) as u8,
            1u8 => ((n >> 8) & 0xFF) as u8,
            2u8 => ((n >> 16) & 0xFF) as u8,
            _ => ((n >> 24) & 0xFF) as u8,
        }),
{
    match i {
        0 => (n & 0xFF) as u8,
        1 => ((n >> 8) & 0xFF) as u8,
        2 => ((n >> 16) & 0xFF) as u8,
        _ => ((n >> 24) & 0xFF) as u8,
    }
}

/// `n` instructions that do nothing.
pub open spec fn nops(st: St, n: u32) -> St
    decreases n,
{
    if n == 0 {
        st
    } else {
        nops(st.emit(Line::Nop), (n - 1) as u32)
    }
}

/// The counter at `c` becomes `k`.
pub open spec fn load_counter(st: St, k: u32, c: u32) -> St {
    st.emit(movlw(byte_of(k, 0))).emit(movwf(c)).emit(movlw(byte_of(k, 1))).emit(
        movwf(at(c, 1)),
    ).emit(movlw(byte_of(k, 2))).emit(movwf(at(c, 2))).emit(movlw(byte_of(k, 3))).emit(
        movwf(at(c, 3)),
    )
}

/// The loop over the counter at `c`, under label `l`.
pub open spec fn count_down(st: St, c: u32, l: u32) -> St {
    st.emit(label_tmp(l)).emit(movlw(1)).emit(f_op(Op::Subwf, c)).emit(on_c(BitOp::Btfss)).emit(
        f_op(Op::Subwf, at(c, 1)),
    ).emit(on_c(BitOp::Btfss)).emit(f_op(Op::Subwf, at(c, 2))).emit(on_c(BitOp::Btfss)).emit(
        f_op(Op::Subwf, at(c, 3)),
    ).emit(on_c(BitOp::Btfsc)).emit(goto_tmp(l))
}

/// A delay of `n` cycles with its counter at `c`.
pub open spec fn delay(st: St, n: u32, c: u32) -> St {
    if n < LOOP_MIN {
        nops(st, n)
    } else {
        let st = nops(st, ((n - LOOP_MIN) % LOOP_TURN as int) as u32);
        let l = st.next;
        count_down(
            load_counter(st.bump(), ((n - LOOP_MIN) / LOOP_TURN as int) as u32, c),
            c,
            l,
        )
    }
}

fn emit_nops(g: &mut Emitter, n: u32)
    ensures
        final(g)@ == nops(old(g)@, n),
{
    let mut i: u32 = n;
    while i > 0
        invariant
            nops(old(g)@, n) == nops(g@, i),
        decreases i,
    {
        g.emit(Line::Nop);
        i -= 1;
    }
}

/// Emits code that takes `n` instruction cycles. The four bytes at `c` are
/// the counter; they sit in RAM common to all banks, so that no bank select
/// falls between a skip and its target.
pub fn emit_delay(g: &mut Emitter, n: u32, c: u32)
    ensures
        final(g)@ == delay(old(g)@, n, c),
{
    if n < LOOP_MIN {
        emit_nops(g, n);
        return;
    }
    let turns: u32 = (n - LOOP_MIN) / LOOP_TURN;
    emit_nops(g, (n - LOOP_MIN) % LOOP_TURN);
    let l: u32 = g.fresh_label();
    g.emit(movlw(byte_of(turns, 0)));
    g.emit(movwf(c));
    g.emit(movlw(byte_of(turns, 1)));
    g.emit(movwf(at(c, 1)));
    g.emit(movlw(byte_of(turns, 2)));
    g.emit(movwf(at(c, 2)));
    g.emit(movlw(byte_of(turns, 3)));
    g.emit(movwf(at(c, 3)));
    g.emit(label_tmp(l));
    g.emit(movlw(1));
    g.emit(f_op(Op::Subwf, c));
    g.emit(on_c(BitOp::Btfss));
    g.emit(f_op(Op::Subwf, at(c, 1)));
    g.emit(on_c(BitOp::Btfss));
    g.emit(f_op(Op::Subwf, at(c, 2)));
    g.emit(on_c(BitOp::Btfss));
    g.emit(f_op(Op::Subwf, at(c, 3)));
    g.emit(on_c(BitOp::Btfsc));
    g.emit(goto_tmp(l));
}

/// The counter at `c`.
pub open spec fn counter(m: Machine, c: u32) -> int {
    m.ram[c] + 256 * m.ram[at(c, 1)] + 65536 * m.ram[at(c, 2)] + 16777216 * m.ram[at(c, 3)]
}

/// Whether the counter at `c` is reached whatever the bank is.
pub open spec fn steady(m: Machine, c: u32) -> bool {
    c <= u32::MAX - 3 && reached(m, c) == c && reached(m, at(c, 1)) == at(c, 1) && reached(
        m,
        at(c, 2),
    ) == at(c, 2) && reached(m, at(c, 3)) == at(c, 3)
}

/// Whether `a` differs from `b` in W, the flags, the counter at `c`, its
/// place in the code and its cycles only.
pub open spec fn only_counts(b: Machine, a: Machine, c: u32) -> bool {
    &&& a.core == b.core
    &&& a.fsr == b.fsr
    &&& a.fsr0 == b.fsr0
    &&& a.pclath == b.pclath
    &&& a.links == b.links
    &&& forall|x: u32| x < c || x > c + 3 ==> #[trigger] a.ram[x] == b.ram[x]
}

proof fn lemma_nops(st: St, n: u32, base: int, m: Machine)
    requires
        0 <= base <= st.rows.len(),
    ensures
        nops(st, n).rows.len() == st.rows.len() + n,
        nops(st, n).next == st.next,
        ({
            let b = exec(st.rows, base, m);
            let a = exec(nops(st, n).rows, base, m);
            match b.flow {
                Flow::Next => a == (Machine { cycles: b.cycles + n as nat, ..b }),
                Flow::Seek(_) => a == b,
                _ => true,
            }
        }),
    decreases n,
{
    broadcast use group_exec;

    if n > 0 {
        lemma_nops(st.emit(Line::Nop), (n - 1) as u32, base, m);
    }
}

proof fn lemma_bytes(k: u32)
    ensures
        k == byte_of(k, 0) + 256 * byte_of(k, 1) + 65536 * byte_of(k, 2) + 16777216 * byte_of(k, 3),
{
    assert(k == (k & 0xFF) as u8 + 256 * (((k >> 8) & 0xFF) as u8) + 65536 * (((k >> 16)
        & 0xFF) as u8) + 16777216 * (((k >> 24) & 0xFF) as u8)) by (bit_vector);
}

proof fn lemma_load_counter(st: St, k: u32, c: u32, base: int, m: Machine)
    requires
        0 <= base <= st.rows.len(),
        steady(exec(st.rows, base, m), c),
    ensures
        load_counter(st, k, c).rows.len() == st.rows.len() + 8,
        ({
            let b = exec(st.rows, base, m);
            let a = exec(load_counter(st, k, c).rows, base, m);
            match b.flow {
                Flow::Next => a.flow is Next && a.cycles == b.cycles + 8 && steady(a, c) && counter(
                    a,
                    c,
                ) == k && only_counts(b, a, c),
                Flow::Seek(_) => a == b,
                _ => true,
            }
        }),
{
    broadcast use group_exec;

    lemma_bytes(k);
}

/// One turn of the loop, from its label on.
proof fn lemma_turn(st: St, c: u32, l: u32, base: int, m: Machine)
    requires
        0 <= base <= st.rows.len(),
        steady(exec(st.rows, base, m), c),
        exec(st.rows, base, m).flow == Flow::Next || exec(st.rows, base, m).flow == Flow::Seek(
            Sym::Tmp(l),
        ),
    ensures
        ({
            let b = exec(st.rows, base, m);
            let a = exec(count_down(st, c, l).rows, base, m);
            steady(a, c) && only_counts(b, a, c) && if counter(b, c) > 0 {
                a.flow == Flow::Seek(Sym::Tmp(l)) && a.cycles == b.cycles + LOOP_TURN && counter(
                    a,
                    c,
                ) == counter(b, c) - 1
            } else {
                a.flow == Flow::Next && a.cycles == b.cycles + 10
            }
        }),
{
    broadcast use group_exec;

}

/// The turns that are left, once the loop jumped back.
proof fn lemma_turns(st: St, n: u32, c: u32, m: Machine, left: nat)
    requires
        n >= LOOP_MIN,
        steady(m, c),
        m.flow == Flow::Seek(Sym::Tmp(st.next)),
        counter(m, c) == left,
    ensures
        ({
            let a = settle(delay(st, n, c).rows, st.rows.len() as int, m, left + 1);
            a.flow is Next && a.cycles == m.cycles + LOOP_TURN * left + 10 && only_counts(m, a, c)
        }),
    decreases left,
{
    broadcast use group_exec;

    let base = st.rows.len() as int;
    let extra = ((n - LOOP_MIN) % LOOP_TURN as int) as u32;
    let turns = ((n - LOOP_MIN) / LOOP_TURN as int) as u32;
    lemma_nops(st, extra, base, m);
    let s1 = nops(st, extra).bump();
    lemma_load_counter(s1, turns, c, base, m);
    lemma_turn(load_counter(s1, turns, c), c, st.next, base, m);
    let after = exec(delay(st, n, c).rows, base, m);
    if left > 0 {
        lemma_turns(st, n, c, after, (left - 1) as nat);
    }
}

/// A delay of `n` cycles takes exactly `n` cycles, whatever `n` is, and
/// touches nothing but W, the flags and its counter.
pub proof fn law_delay_is_exact(st: St, n: u32, c: u32, m: Machine)
    requires
        m.flow is Next,
        steady(m, c),
    ensures
        exists|after: Machine| #[trigger]
            runs_to(delay(st, n, c).rows, st.rows.len() as int, m, after) && after.flow is Next
                && after.cycles == m.cycles + n && only_counts(m, after, c),
{
    broadcast use group_exec;

    let base = st.rows.len() as int;
    let rows = delay(st, n, c).rows;
    let first = exec(rows, base, m);
    if n < LOOP_MIN {
        lemma_nops(st, n, base, m);
        assert(settle(rows, base, m, 1) == first);
        assert(runs_to(rows, base, m, first));
    } else {
        let extra = ((n - LOOP_MIN) % LOOP_TURN as int) as u32;
        let turns = ((n - LOOP_MIN) / LOOP_TURN as int) as u32;
        lemma_nops(st, extra, base, m);
        let s1 = nops(st, extra).bump();
        lemma_load_counter(s1, turns, c, base, m);
        lemma_turn(load_counter(s1, turns, c), c, st.next, base, m);
        if turns == 0 {
            assert(settle(rows, base, m, 1) == first);
            assert(runs_to(rows, base, m, first));
        } else {
            lemma_turns(st, n, c, first, (turns - 1) as nat);
            let after = settle(rows, base, first, turns as nat);
            assert(settle(rows, base, m, (turns + 1) as nat) == after);
            assert(runs_to(rows, base, m, after));
        }
    }
}

} // verus!
