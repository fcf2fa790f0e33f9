# isel_pic

Instruction selection for two 8-bit PIC cores, written and proved in Verus. A
module in a small SSA form and a map of addresses go in; assembly text with one
source location per line comes out.

- `src/baseline/` lowers to the 12-bit baseline core, `src/pic14e/` to the
  enhanced mid-range core, with its runtime routines (integer multiplication,
  division and shifts, single-precision floats), tables in program memory and
  page packing.
- `src/body.rs`, `src/cfg.rs`, `src/ctx.rs`, `src/delay.rs`, `src/output.rs` hold
  what the cores share.
- `src/machine.rs` and `src/meaning.rs` give the emitted lines a meaning.
- `src/located.rs` proves which source location a line carries.
- `src/baseline/laws/` and `src/pic14e/laws/` prove what the code emitted for an
  instruction or a routine computes, as far as their laws say: integer
  arithmetic, comparisons, conversions, loads, stores and copies, branches and
  returns, arguments and results of calls, the integer and the float routines,
  reads of tables in program memory, the reset code, and where pages and tables
  stand.
- `src/reading.rs` proves how text is read and measured, `src/timing.rs` how long
  a whole program that only waits waits.
- `tests/` runs the emitted text on a small simulator.
- `app/` is the entry for callers that want a panic in place of an error, with
  hooks for the peephole pass and the banking pass.
