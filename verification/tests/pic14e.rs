//! The enhanced mid-range core: the text of whole modules, run on a small machine.
use isel_pic::device::Device;
use isel_pic::error::IselError;
use isel_pic::names::{AddrMap, NameMap, PtrMap};
use isel_pic::pic14e::layout::verify_page_fit;
use isel_pic::pic14e::select::{select, select_with_locs, Inputs};
use isel_pic::ir::{
    Alloca, Asm, AsmOperand, Base, Bin, BinOp, Block, Br, BrCond, Call, CallArg, Conv, FloatOp, Freeze, Func, Global, Icmp, Incoming, Inst, Load, MemLen, Memcpy, Module, Param, Phi, Pointer, Pred, Ref, Ret, Select, SrcLoc, Store, Term, Ty, VaArg, VaStart, Val,
};

fn device() -> Device {
    Device {
        name: "PIC16F1937".to_string(),
        ram_banks: vec![(0x20, 0x6F), (0xA0, 0xEF), (0x120, 0x16F), (0x1A0, 0x1EF), (0x220, 0x26F)],
        common_ram: Some((0x70, 0x7F)),
        fsr_bank_bits: 0,
        interrupt_vectors: vec![4],
        flash_words: 8192,
    }
}

fn same_text(text: &str) -> String {
    text.to_string()
}

fn lower(m: &Module, a: &AddrMap, p: &PtrMap) -> Result<String, IselError> {
    let d = device();
    select(Inputs { device: &d, m, addrs: a, ptrs: p }, same_text, same_text)
}

fn text_of(m: &Module, a: &AddrMap, p: &PtrMap) -> String {
    let text = lower(m, a, p).unwrap();
    assert_eq!(verify_page_fit(m, &text), Ok(()));
    text
}

fn booted(text: &str, inputs: &[(u16, &[u8])]) -> Machine {
    let mut cpu = Machine::new(text, true);
    for (at, bytes) in inputs {
        cpu.put(*at, bytes);
    }
    cpu.run(50_000_000);
    cpu
}

/// The machine after the program ran, its memory set up by `inputs`.
fn run(m: &Module, a: &AddrMap, p: &PtrMap, inputs: &[(u16, &[u8])]) -> Machine {
    booted(&text_of(m, a, p), inputs)
}

#[test]
fn lowers_i1_load_and_store_as_one_byte() {
    let m = module(
        vec![global("flag", 1)],
        main_of(vec![load("1", Ty::I1, "@flag"), store(Ty::I1, reg("1"), "@flag"), ret()]),
    );
    let text = text_of(&m, &addrs(&[("flag", 0x20), ("main::1", 0x25)]), &ptrs(vec![]));
    assert!(text.contains("MOVF 0x20, W"), "the load reads the byte:\n{text}");
    assert!(text.contains("MOVWF 0x25"), "the loaded i1 lands in its one-byte slot:\n{text}");
    assert!(text.contains("MOVWF 0x20"), "the store writes the one-byte slot back:\n{text}");
}

#[test]
fn lowers_an_i1_const_store_as_one_byte() {
    let m = module(
        vec![global("flag", 1)],
        main_of(vec![store(Ty::I1, Val::Const(1), "@flag"), ret()]),
    );
    let text = text_of(&m, &addrs(&[("flag", 0x20)]), &ptrs(vec![]));
    assert!(text.contains("MOVLW 0x01"), "{text}");
    assert!(text.contains("MOVWF 0x20"), "{text}");
}

/// A constant copied to RAM whose field names a RAM global holds its address.
#[test]
fn const_to_ram_init_ram_ref_materializes_the_alloc_address() {
    let m = module(
        vec![constant("cfg", &[0x00, 0x00], &[(0, "arr"), (1, "arr")])],
        main_of(vec![ret()]),
    );
    let text = text_of(&m, &addrs(&[("cfg", 0x040), ("arr", 0x210)]), &ptrs(vec![]));
    assert!(
        text.contains("MOVLW 0x10\n    MOVWF 0x40\n    MOVLW 0x02\n    MOVWF 0x41"),
        "init must write the alloc-address bytes into the RAM copy:\n{text}"
    );
    assert!(!text.contains("LOW(arr)"), "a RAM global has no label to resolve:\n{text}");
    assert_eq!(booted(&text, &[]).get(0x40, 2), 0x210);
}

#[test]
fn const_table_ram_ref_materializes_the_alloc_address() {
    let m = module(
        vec![constant("map", &[0x00, 0x00], &[(0, "holding_regs"), (1, "holding_regs")])],
        main_of(vec![ret()]),
    );
    let text = text_of(&m, &addrs(&[("holding_regs", 0x210)]), &ptrs(vec![]));
    assert!(
        text.contains("RETLW 0x10\n    RETLW 0x02"),
        "each ref byte must materialize its address half:\n{text}"
    );
    assert!(!text.contains("LOW(holding_regs)"), "a RAM global has no label to resolve:\n{text}");
    booted(&text, &[]);
}

#[test]
fn const_table_function_ref_keeps_the_label_literal() {
    let m = module(
        vec![constant("vt", &[0x00, 0x00], &[(0, "f0"), (1, "f0")])],
        vec![
            func("f0", vec![], vec![block("entry", vec![ret()])]),
            func("main", vec![], vec![block("entry", vec![ret()])]),
        ],
    );
    let text = text_of(&m, &addrs(&[]), &ptrs(vec![]));
    assert!(
        text.contains("RETLW LOW(f0)\n    RETLW HIGH(f0)"),
        "a function address stays a link-time label:\n{text}"
    );
    booted(&text, &[]);
}

fn cycles_for(n: i64) -> u64 {
    let m = module(
        vec![],
        main_of(vec![call(None, None, "_delay", vec![(Val::Const(n), Some(Ty::I32))]), ret()]),
    );
    run(&m, &addrs(&[]), &ptrs(vec![]), &[]).cycles
}

#[test]
fn delay_takes_exactly_its_count_in_cycles() {
    let base = cycles_for(0);
    for n in [
        1u64, 2, 3, 4, 5, 7, 8, 10, 100, 255, 256, 500, 768, 769, 770, 771, 772, 773, 774, 1544, 2000,
    ] {
        assert_eq!(cycles_for(n as i64) - base, n, "_delay({n}) must take exactly {n} cycles");
    }
}

#[test]
fn delay_large_counts_stay_exact() {
    let base = cycles_for(0);
    for n in [50_000u64, 198_403, 198_404, 198_405, 198_406, 400_000, 1_000_000] {
        assert_eq!(cycles_for(n as i64) - base, n, "_delay({n}) must take exactly {n} cycles");
    }
}

#[test]
fn delay_rejects_a_runtime_count() {
    let m = module(
        vec![],
        main_of(vec![call(None, None, "_delay", vec![(reg("r"), Some(Ty::I32))]), ret()]),
    );
    assert_eq!(lower(&m, &addrs(&[]), &ptrs(vec![])), Err(IselError::DelayCount));
}

fn at_index(name: &str, k: u8) -> Pointer {
    pointer(Base::Global(name.to_string()), k, &[(1, "i")])
}

/// An array that crosses a bank is reached through the linear region, one that
/// fits a bank through its own address.
#[test]
fn span_c_uses_linear_for_straddling_and_banked_otherwise() {
    let m = module(
        vec![global("big", 90), global("small", 8), global("in", 1), global("out", 1)],
        main_of(vec![
            load("i", Ty::I8, "@in"),
            store(Ty::I8, Val::Const(0x11), "%near"),
            store(Ty::I8, Val::Const(0x22), "%far"),
            store(Ty::I8, Val::Const(0x33), "%one"),
            load("x", Ty::I8, "%near"),
            load("y", Ty::I8, "%far"),
            load("z", Ty::I8, "%one"),
            bin("s", BinOp::Add, Ty::I8, reg("x"), reg("y")),
            bin("t", BinOp::Add, Ty::I8, reg("s"), reg("z")),
            store(Ty::I8, reg("t"), "@out"),
            ret(),
        ]),
    );
    let (big, small) = (0x22u16, 0xACu16);
    let a = addrs(&[
        ("big", big), ("small", small), ("in", 0x20), ("out", 0x21), ("main::i", 0xC0), ("main::x", 0xC1),
        ("main::y", 0xC2), ("main::z", 0xC3), ("main::s", 0xC4), ("main::t", 0xC5),
    ]);
    let p = ptrs(vec![
        ("main::near", at_index("big", 0)),
        ("main::far", at_index("big", 80)),
        ("main::one", at_index("small", 0)),
    ]);
    let text = text_of(&m, &a, &p);
    let lines: Vec<&str> = text.lines().map(|l| l.trim()).collect();
    let mut linear_hi = false;
    let mut banked_hi = false;
    let mut linear_lo = false;
    for (i, l) in lines.iter().enumerate() {
        if i == 0 {
            continue;
        }
        if *l == "MOVWF FSR0H" {
            linear_hi |= lines[i - 1] == "MOVLW 0x20";
            banked_hi |= lines[i - 1] == "MOVLW 0x00";
        }
        if *l == "MOVWF FSR0L" {
            linear_lo |= lines[i - 1] == "MOVLW 0x02";
        }
    }
    assert!(
        linear_hi && linear_lo,
        "span.c must address the straddling array through the linear region (FSR0 = 0x2002):\n{text}"
    );
    assert!(
        banked_hi,
        "span.c must address the single-bank array through the physical (banked) FSR base:\n{text}"
    );
    let cpu = booted(&text, &[(0x20, &[3])]);
    assert_eq!(cpu.get(0x21, 1), 0x66, "out == 0x11 + 0x22 + 0x33 for in == 3");
    assert_eq!(cpu.get(0x25, 1), 0x11);
    assert_eq!(cpu.get(0xA0 + 2 + 3, 1), 0x22);
    assert_eq!(cpu.get(0xAF, 1), 0x33);
    assert!(cpu.halted);
}

fn bytes_of(v: u32, n: u8) -> Vec<u8> {
    v.to_le_bytes()[..n as usize].to_vec()
}

fn masked(v: u32, n: u8) -> u32 {
    if n >= 4 {
        v
    } else {
        v & ((1u32 << (8 * n)) - 1)
    }
}

fn signed(v: u32, n: u8) -> i32 {
    let s = 32 - 8 * n as u32;
    ((v << s) as i32) >> s
}

fn expected(op: BinOp, n: u8, a: u32, b: u32) -> u32 {
    let r = match op {
        BinOp::Add => a.wrapping_add(b),
        BinOp::Sub => a.wrapping_sub(b),
        BinOp::And => a & b,
        BinOp::Or => a | b,
        BinOp::Xor => a ^ b,
        BinOp::Mul => a.wrapping_mul(b),
        BinOp::UDiv => a / b,
        BinOp::URem => a % b,
        BinOp::SDiv => signed(a, n).wrapping_div(signed(b, n)) as u32,
        BinOp::SRem => signed(a, n).wrapping_rem(signed(b, n)) as u32,
        BinOp::Shl => a << b,
        BinOp::LShr => a >> b,
        BinOp::AShr => (signed(a, n) >> b) as u32,
    };
    masked(r, n)
}

const SAMPLES: [u32; 9] =
    [0, 1, 0x7F, 0x80, 0xFF, 0x1234, 0x8000, 0x7FFF_FFFF, 0xFFFF_FF03];

#[test]
fn operations_compute() {
    for op in [BinOp::Add, BinOp::Sub, BinOp::And, BinOp::Or, BinOp::Xor] {
        for ty in [Ty::I8, Ty::I16, Ty::I32] {
            let n = ty.bytes();
            for shape in 0..3 {
                let at = addrs(&[("main::a", 0x20), ("main::b", 0xA4), ("main::r", 0x12C)]);
                for a in SAMPLES {
                    for b in SAMPLES {
                        let (a, b) = (masked(a, n), masked(b, n));
                        let (x, y) = match shape {
                            0 => (reg("a"), reg("b")),
                            1 => (Val::Const(a as i64), reg("b")),
                            _ => (reg("a"), Val::Const(b as i64)),
                        };
                        let m = module(vec![], main_of(vec![bin("r", op, ty, x, y), ret()]));
                        let cpu = run(
                            &m,
                            &at,
                            &ptrs(vec![]),
                            &[(0x20, &bytes_of(a, n)), (0xA4, &bytes_of(b, n))],
                        );
                        assert_eq!(
                            cpu.get(0x12C, n as usize),
                            expected(op, n, a, b),
                            "{op:?} {ty:?} {a:#x} {b:#x} {shape}"
                        );
                    }
                }
            }
        }
    }
}

#[test]
fn shifts_by_a_constant_compute() {
    for op in [BinOp::Shl, BinOp::LShr, BinOp::AShr] {
        for ty in [Ty::I8, Ty::I16, Ty::I32] {
            let n = ty.bytes();
            for k in 0..8 * n as u32 {
                for a in [0x81u32, 0x7FFE, 0x8001_00FF] {
                    let a = masked(a, n);
                    let m = module(
                        vec![],
                        main_of(vec![bin("r", op, ty, reg("a"), Val::Const(k as i64)), ret()]),
                    );
                    let at = addrs(&[("main::a", 0x20), ("main::r", 0xA8)]);
                    let cpu = run(&m, &at, &ptrs(vec![]), &[(0x20, &bytes_of(a, n))]);
                    assert_eq!(
                        cpu.get(0xA8, n as usize),
                        expected(op, n, a, k),
                        "{op:?} {ty:?} {a:#x} {k}"
                    );
                }
            }
        }
    }
}

fn holds(pred: Pred, n: u8, a: u32, b: u32) -> bool {
    let (sa, sb) = (signed(a, n), signed(b, n));
    match pred {
        Pred::Eq => a == b,
        Pred::Ne => a != b,
        Pred::Ult => a < b,
        Pred::Ule => a <= b,
        Pred::Ugt => a > b,
        Pred::Uge => a >= b,
        Pred::Slt => sa < sb,
        Pred::Sle => sa <= sb,
        Pred::Sgt => sa > sb,
        Pred::Sge => sa >= sb,
    }
}

const PREDS: [Pred; 10] = [
    Pred::Eq, Pred::Ne, Pred::Ult, Pred::Ule, Pred::Ugt, Pred::Uge, Pred::Slt, Pred::Sle, Pred::Sgt,
    Pred::Sge,
];

#[test]
fn comparisons_of_every_width_decide() {
    for pred in PREDS {
        for ty in [Ty::I8, Ty::I16, Ty::I32] {
            let n = ty.bytes();
            for a in SAMPLES {
                for b in SAMPLES {
                    let (a, b) = (masked(a, n), masked(b, n));
                    for shape in 0..3 {
                        let (x, y) = match shape {
                            0 => (reg("a"), reg("b")),
                            1 => (Val::Const(a as i64), reg("b")),
                            _ => (reg("a"), Val::Const(b as i64)),
                        };
                        let m = module(
                            vec![],
                            main_of(vec![
                                Inst::Icmp(Icmp { dst: "r".to_string(), pred, ty, a: x, b: y, loc: None }),
                                ret(),
                            ]),
                        );
                        let at = addrs(&[("main::a", 0x22), ("main::b", 0xA4), ("main::r", 0xA8)]);
                        let cpu = run(
                            &m,
                            &at,
                            &ptrs(vec![]),
                            &[(0x22, &bytes_of(a, n)), (0xA4, &bytes_of(b, n))],
                        );
                        assert_eq!(
                            cpu.get(0xA8, 1),
                            holds(pred, n, a, b) as u32,
                            "{pred:?} {ty:?} {a:#x} {b:#x} {shape}"
                        );
                    }
                }
            }
        }
    }
}

/// The text of a program whose main function calls the runtime routine `name`.
fn routine_text(name: &str, params: &[&str], width: u8, ty: Ty, arg: Ty) -> String {
    let args: Vec<(Val, Option<Ty>)> = params.iter().map(|p| (reg(p), Some(arg))).collect();
    let mut m = module(vec![], main_of(vec![call(Some("r"), Some(ty), name, args), ret()]));
    m.funcs.push(func(name, params.iter().map(|p| param(p, width)).collect(), vec![]));
    let mut a = addrs(&[("main::r", 0x120)]);
    a.insert(format!("{name}::__scr"), 0xB0);
    for (i, p) in params.iter().enumerate() {
        a.insert(format!("main::{p}"), 0x30 + 4 * i as u16);
        a.insert(format!("{name}::{p}"), 0xA0 + 4 * i as u16);
    }
    text_of(&m, &a, &ptrs(vec![]))
}

fn routine_result(text: &str, args: &[u32], n: usize) -> u32 {
    let mut cpu = Machine::new(text, true);
    for (i, v) in args.iter().enumerate() {
        cpu.put(0x30 + 4 * i as u16, &v.to_le_bytes());
    }
    cpu.run(50_000_000);
    cpu.get(0x120, n)
}

fn int_ty(n: u8) -> Ty {
    match n {
        1 => Ty::I8,
        2 => Ty::I16,
        _ => Ty::I32,
    }
}

#[test]
fn multiplication_routines_multiply() {
    for (name, n) in [("__mul_u8", 1u8), ("__mul_u16", 2), ("__mul_u32", 4)] {
        let text = routine_text(name, &["a", "b"], n, int_ty(n), int_ty(n));
        for a in SAMPLES {
            for b in SAMPLES {
                let (a, b) = (masked(a, n), masked(b, n));
                assert_eq!(
                    routine_result(&text, &[a, b], n as usize),
                    expected(BinOp::Mul, n, a, b),
                    "{name} {a:#x} {b:#x}"
                );
            }
        }
    }
}

#[test]
fn division_routines_divide() {
    for (n, u, s) in [(1u8, "u8", "i8"), (2, "u16", "i16"), (4, "u32", "i32")] {
        for (stem, kind, op) in [
            ("__udiv_", u, BinOp::UDiv), ("__urem_", u, BinOp::URem), ("__sdiv_", s, BinOp::SDiv),
            ("__srem_", s, BinOp::SRem),
        ] {
            let name = format!("{stem}{kind}");
            let text = routine_text(&name, &["num", "den"], n, int_ty(n), int_ty(n));
            for a in SAMPLES {
                for b in SAMPLES {
                    let (a, b) = (masked(a, n), masked(b, n));
                    if b != 0 {
                        assert_eq!(
                            routine_result(&text, &[a, b], n as usize),
                            expected(op, n, a, b),
                            "{name} {a:#x} {b:#x}"
                        );
                    }
                }
            }
        }
    }
}

#[test]
fn shift_routines_shift() {
    for (n, u, s) in [(1u8, "u8", "i8"), (2, "u16", "i16"), (4, "u32", "i32")] {
        for (stem, kind, op) in
            [("__shl_", u, BinOp::Shl), ("__lshr_", u, BinOp::LShr), ("__ashr_", s, BinOp::AShr)]
        {
            let name = format!("{stem}{kind}");
            let text = routine_text(&name, &["val", "cnt"], n, int_ty(n), int_ty(n));
            for a in SAMPLES {
                for k in 0..8 * n as u32 {
                    let a = masked(a, n);
                    assert_eq!(
                        routine_result(&text, &[a, k], n as usize),
                        expected(op, n, a, k),
                        "{name} {a:#x} {k}"
                    );
                }
                let a = masked(a, n);
                let k = 8 * n as u32 + 3;
                assert_eq!(
                    routine_result(&text, &[a, k], n as usize),
                    expected(op, n, a, 3),
                    "the count is taken modulo the width"
                );
            }
        }
    }
}

const FLOATS: [f32; 16] = [
    0.0, -0.0, 1.0, -1.0, 1.5, -2.75, 3.14159, 1.0e10, -1.0e-10, 16777215.0, 16777216.0, 0.1, 7.0, 255.0,
    -65535.5, 2147483648.0,
];

fn same_float(got: u32, want: f32) -> bool {
    if want.is_nan() {
        f32::from_bits(got).is_nan()
    } else {
        got == want.to_bits()
    }
}

fn float_routine(name: &str, f: fn(f32, f32) -> f32) {
    let text = routine_text(name, &["a", "b"], 4, Ty::F32, Ty::F32);
    for a in FLOATS {
        for b in FLOATS {
            let got = routine_result(&text, &[a.to_bits(), b.to_bits()], 4);
            assert!(
                same_float(got, f(a, b)),
                "{name} {a} {b}: {} for {}",
                f32::from_bits(got),
                f(a, b)
            );
        }
    }
    // Pseudo-random numbers of moderate size.
    let mut seed = 0x1234_5678u32;
    let mut next = || {
        seed = seed.wrapping_mul(1664525).wrapping_add(1013904223);
        let bits = seed;
        seed = seed.wrapping_mul(1664525).wrapping_add(1013904223);
        bits & 0x8000_0000 | (100 + (bits >> 8) % 40) << 23 | seed >> 9
    };
    for _ in 0..1500 {
        let (a, b) = (next(), next());
        let want = f(f32::from_bits(a), f32::from_bits(b));
        let got = routine_result(&text, &[a, b], 4);
        assert!(same_float(got, want), "{name} {a:#x} {b:#x}: {got:#x} for {:#x}", want.to_bits());
    }
}

#[test]
fn float_addition_rounds_to_nearest() {
    float_routine("__add_f32", |a, b| a + b);
}

/// Bits far below the round bit break a tie.
#[test]
fn float_addition_sees_every_lost_bit() {
    let text = routine_text("__add_f32", &["a", "b"], 4, Ty::F32, Ty::F32);
    assert_eq!(routine_result(&text, &[0x4780_0000, 0x3F80_8080], 4), 0x4780_0081);
}

#[test]
fn float_sums_with_zero_keep_the_other() {
    let add = routine_text("__add_f32", &["a", "b"], 4, Ty::F32, Ty::F32);
    let sub = routine_text("__sub_f32", &["a", "b"], 4, Ty::F32, Ty::F32);
    let small = [f32::from_bits(1), f32::from_bits(0x807F_FFFF), f32::from_bits(0x0040_0000)];
    for x in [0.0f32, -0.0, 1.5, -2.25, f32::MAX, f32::MIN_POSITIVE].into_iter().chain(small) {
        for zero in [0.0f32, -0.0] {
            for (a, b) in [(x, zero), (zero, x)] {
                let bits = [a.to_bits(), b.to_bits()];
                assert_eq!(routine_result(&add, &bits, 4), (a + b).to_bits(), "{a} + {b}");
                assert_eq!(routine_result(&sub, &bits, 4), (a - b).to_bits(), "{a} - {b}");
            }
        }
    }
}

/// Sums below the normal numbers, and numbers that cancel.
#[test]
fn float_sums_of_small_numbers_are_exact() {
    let add = routine_text("__add_f32", &["a", "b"], 4, Ty::F32, Ty::F32);
    let sub = routine_text("__sub_f32", &["a", "b"], 4, Ty::F32, Ty::F32);
    assert_eq!(routine_result(&add, &[1, 1], 4), 2);
    assert_eq!(routine_result(&add, &[0x007F_FFFF, 1], 4), 0x0080_0000);
    assert_eq!(routine_result(&sub, &[0x0080_0000, 1], 4), 0x007F_FFFF);
    assert_eq!(routine_result(&sub, &[1, 3], 4), 0x8000_0002);
    assert_eq!(routine_result(&sub, &[0x4049_0FDB, 0x4049_0FDB], 4), 0);
    assert_eq!(routine_result(&add, &[0xC049_0FDB, 0x4049_0FDB], 4), 0);
}

/// A sum past the greatest number has the greatest exponent.
#[test]
fn float_sums_past_the_greatest_number_are_not_clamped() {
    let add = routine_text("__add_f32", &["a", "b"], 4, Ty::F32, Ty::F32);
    assert_eq!(routine_result(&add, &[0x7F00_0000, 0x7F00_0000], 4), 0x7F80_0000);
    assert_eq!(routine_result(&add, &[0x7F40_0000, 0x7F40_0000], 4), 0x7FC0_0000);
    assert_eq!(routine_result(&add, &[0xFF7F_FFFF, 0xFF7F_FFFF], 4), 0xFFFF_FFFF);
}

/// Sums with infinities and patterns that are no number, with signs.
#[test]
fn float_sums_of_specials_are_infinite_or_no_number() {
    let add = routine_text("__add_f32", &["a", "b"], 4, Ty::F32, Ty::F32);
    let sub = routine_text("__sub_f32", &["a", "b"], 4, Ty::F32, Ty::F32);
    for (a, b, sum, difference) in [
        (0x7F80_0000u32, 0x7F80_0000u32, 0x7F80_0000u32, 0x7FC0_0000u32),
        (0xFF80_0000, 0x7F80_0000, 0xFFC0_0000, 0xFF80_0000),
        (0xFF80_0000, 0xFF80_0000, 0xFF80_0000, 0xFFC0_0000),
        (0x7F80_0000, 0xC049_0FDB, 0x7F80_0000, 0x7F80_0000),
        (0x4049_0FDB, 0x7F80_0000, 0x7F80_0000, 0xFF80_0000),
        (0x0000_0000, 0xFF80_0000, 0xFF80_0000, 0x7F80_0000),
        (0x0000_0001, 0xFF80_0000, 0xFF80_0000, 0x7F80_0000),
        (0x7F80_0001, 0x3F80_0000, 0x7FC0_0000, 0x7FC0_0000),
        (0xBF80_0000, 0x7FFF_FFFF, 0xFFC0_0000, 0xFFC0_0000),
        (0x7F80_0000, 0x7FC0_0000, 0x7FC0_0000, 0x7FC0_0000),
    ] {
        assert_eq!(routine_result(&add, &[a, b], 4), sum, "{a:#x} + {b:#x}");
        assert_eq!(routine_result(&sub, &[a, b], 4), difference, "{a:#x} - {b:#x}");
    }
}

#[test]
fn float_subtraction_rounds_to_nearest() {
    float_routine("__sub_f32", |a, b| a - b);
}

#[test]
fn float_multiplication_rounds_to_nearest() {
    float_routine("__mul_f32", |a, b| a * b);
}

#[test]
fn float_division_rounds_to_nearest() {
    float_routine("__div_f32", |a, b| a / b);
}

/// Products with zeros, infinities and patterns that are no number, with signs.
#[test]
fn float_products_of_specials_have_the_joint_sign() {
    let mul = routine_text("__mul_f32", &["a", "b"], 4, Ty::F32, Ty::F32);
    for (a, b, want) in [
        (0x0000_0000u32, 0x4049_0FDBu32, 0x0000_0000u32),
        (0x8000_0000, 0x4049_0FDB, 0x8000_0000),
        (0x4049_0FDB, 0x8000_0000, 0x8000_0000),
        (0x8000_0000, 0x8000_0001, 0x0000_0000),
        (0x7F80_0000, 0x0000_0001, 0x7F80_0000),
        (0x0080_0000, 0xFF80_0000, 0xFF80_0000),
        (0xFF80_0000, 0x7F80_0000, 0xFF80_0000),
        (0x7F80_0000, 0x8000_0000, 0xFFC0_0000),
        (0x0000_0000, 0x7F80_0000, 0x7FC0_0000),
        (0x7F80_0001, 0xBF80_0000, 0xFFC0_0000),
        (0x0000_0000, 0x7FFF_FFFF, 0x7FC0_0000),
    ] {
        assert_eq!(routine_result(&mul, &[a, b], 4), want, "{a:#x} * {b:#x}");
    }
}

/// Quotients with zeros, infinities and patterns that are no number, with signs.
#[test]
fn float_quotients_of_specials_have_the_joint_sign() {
    let div = routine_text("__div_f32", &["a", "b"], 4, Ty::F32, Ty::F32);
    for (a, b, want) in [
        (0x0000_0000u32, 0xC049_0FDBu32, 0x8000_0000u32),
        (0x4049_0FDB, 0x8000_0000, 0xFF80_0000),
        (0x0000_0001, 0x0000_0000, 0x7F80_0000),
        (0x8000_0000, 0x0000_0000, 0xFFC0_0000),
        (0x7F80_0000, 0x0000_0001, 0x7F80_0000),
        (0x7F80_0000, 0x0000_0000, 0x7F80_0000),
        (0xFF80_0000, 0x7F80_0000, 0xFFC0_0000),
        (0x7F80_0000, 0x7F80_0000, 0x7FC0_0000),
        (0x0080_0000, 0xFF80_0000, 0x8000_0000),
        (0x0000_0000, 0x7F80_0000, 0x0000_0000),
        (0x7F80_0001, 0xBF80_0000, 0xFFC0_0000),
        (0x7F80_0000, 0x7FFF_FFFF, 0x7FC0_0000),
    ] {
        assert_eq!(routine_result(&div, &[a, b], 4), want, "{a:#x} / {b:#x}");
    }
}

/// The least number by minus one is the least number again, and nothing is left.
#[test]
fn the_least_number_by_minus_one_wraps() {
    for (n, least) in [(1u8, 0x80u32), (2, 0x8000), (4, 0x8000_0000)] {
        let minus_one = masked(u32::MAX, n);
        let t = int_ty(n);
        let div = routine_text(&format!("__sdiv_i{}", 8 * n), &["num", "den"], n, t, t);
        let rem = routine_text(&format!("__srem_i{}", 8 * n), &["num", "den"], n, t, t);
        assert_eq!(routine_result(&div, &[least, minus_one], n as usize), least);
        assert_eq!(routine_result(&rem, &[least, minus_one], n as usize), 0);
    }
}

/// Products of and below the smallest normal numbers are rounded to nearest even.
#[test]
fn float_products_below_the_normal_numbers_are_nearest() {
    let mul = routine_text("__mul_f32", &["a", "b"], 4, Ty::F32, Ty::F32);
    for (a, b) in [
        (0x0000_0001u32, 0x4B00_0000u32),
        (0x0000_0001, 0x3F80_0000),
        (0x0000_0003, 0xBF00_0000),
        (0x0000_0005, 0x3F00_0000),
        (0x0040_0001, 0x4080_0000),
        (0x007F_FFFF, 0x3F80_0001),
        (0x0080_0001, 0x3F00_0000),
        (0x0080_0003, 0x3F00_0000),
        (0x0080_0000, 0x3F7F_FFFF),
        (0x8012_3456, 0x7F7F_FFFF),
        (0x1FC0_0001, 0x1F80_0003),
        (0x1000_0000, 0x1000_0000),
        (0x0000_0001, 0x0000_0001),
    ] {
        let expected = (f32::from_bits(a) * f32::from_bits(b)).to_bits();
        assert_eq!(routine_result(&mul, &[a, b], 4), expected, "{a:#x} * {b:#x}");
        assert_eq!(routine_result(&mul, &[b, a], 4), expected, "{b:#x} * {a:#x}");
    }
}

/// A product past the greatest number keeps the low byte of its exponent.
#[test]
fn float_products_past_the_greatest_number_are_not_clamped() {
    let mul = routine_text("__mul_f32", &["a", "b"], 4, Ty::F32, Ty::F32);
    assert_eq!(routine_result(&mul, &[0x7F00_0000, 0x4000_0000], 4), 0x7F80_0000);
    assert_eq!(routine_result(&mul, &[0x7F40_0000, 0xC000_0000], 4), 0xFFC0_0000);
    assert_eq!(routine_result(&mul, &[0x7F00_0000, 0x4100_0000], 4), 0x0080_0000);
}

/// Quotients of and below the smallest normal numbers are rounded to nearest even.
#[test]
fn float_quotients_below_the_normal_numbers_are_nearest() {
    let div = routine_text("__div_f32", &["a", "b"], 4, Ty::F32, Ty::F32);
    for (a, b) in [
        (0x0080_0001u32, 0x4000_0000u32),
        (0x0080_0003, 0x4000_0000),
        (0x00C0_0000, 0xC080_0000),
        (0x0380_0000, 0x44C0_0000),
        (0x0080_0000, 0x4B00_0000),
        (0x0080_0000, 0x5000_0000),
        (0x80FF_FFFF, 0x40A0_0001),
        (0x0000_0001, 0x3F80_0000),
        (0x0000_0003, 0x4000_0000),
        (0x0000_0001, 0x0000_0003),
        (0x0012_3456, 0x8000_0001),
        (0x007F_FFFF, 0x3F00_0000),
        (0x3F80_0000, 0x0040_0000),
        (0x0000_0007, 0x7F7F_FFFF),
    ] {
        let expected = (f32::from_bits(a) / f32::from_bits(b)).to_bits();
        assert_eq!(routine_result(&div, &[a, b], 4), expected, "{a:#x} / {b:#x}");
    }
}

/// A quotient past the greatest number keeps the low byte of its exponent.
#[test]
fn float_quotients_past_the_greatest_number_are_not_clamped() {
    let div = routine_text("__div_f32", &["a", "b"], 4, Ty::F32, Ty::F32);
    assert_eq!(routine_result(&div, &[0x7F00_0000, 0x3F00_0000], 4), 0x7F80_0000);
    assert_eq!(routine_result(&div, &[0x7F00_0000, 0xBE00_0000], 4), 0x8080_0000);
}

/// The least normal number, and others of its exponent, are no zeros.
#[test]
fn float_products_and_quotients_take_the_least_exponent() {
    let mul = routine_text("__mul_f32", &["a", "b"], 4, Ty::F32, Ty::F32);
    assert_eq!(routine_result(&mul, &[0x0080_0000, 0x4000_0000], 4), 0x0100_0000);
    assert_eq!(routine_result(&mul, &[0x4000_0000, 0x0080_0000], 4), 0x0100_0000);
    assert_eq!(routine_result(&mul, &[0x8080_0000, 0x4110_0000], 4), 0x8210_0000);
    assert_eq!(routine_result(&mul, &[0x00C0_0000, 0x4000_0000], 4), 0x0140_0000);
    assert_eq!(routine_result(&mul, &[0x0080_0000, 0x7F80_0000], 4), 0x7F80_0000);
    let div = routine_text("__div_f32", &["a", "b"], 4, Ty::F32, Ty::F32);
    assert_eq!(routine_result(&div, &[0x0080_0000, 0x0080_0000], 4), 0x3F80_0000);
    assert_eq!(routine_result(&div, &[0x00C0_0000, 0x0080_0000], 4), 0x3FC0_0000);
    assert_eq!(routine_result(&div, &[0x0100_0000, 0x0080_0000], 4), 0x4000_0000);
    assert_eq!(routine_result(&div, &[0x0080_0000, 0x3F00_0000], 4), 0x0100_0000);
    assert_eq!(routine_result(&div, &[0x80C0_0000, 0x3F80_0000], 4), 0x80C0_0000);
}

#[test]
fn float_specials_propagate() {
    let add = routine_text("__add_f32", &["a", "b"], 4, Ty::F32, Ty::F32);
    let inf = f32::INFINITY;
    for (a, b) in [(inf, 1.0f32), (-inf, 1.0), (inf, -inf), (f32::NAN, 1.0), (1.0, f32::NAN), (f32::MAX, 1.0)] {
        let got = routine_result(&add, &[a.to_bits(), b.to_bits()], 4);
        assert!(same_float(got, a + b), "{a} + {b}");
    }
    let mul = routine_text("__mul_f32", &["a", "b"], 4, Ty::F32, Ty::F32);
    for (a, b) in [(inf, 2.0f32), (-inf, 2.0), (inf, 0.0), (f32::NAN, 1.0), (-2.0, 0.0), (1.0e-30, 1.0e-30)] {
        let got = routine_result(&mul, &[a.to_bits(), b.to_bits()], 4);
        assert!(same_float(got, a * b), "{a} * {b}");
    }
}

#[test]
fn float_comparison_orders() {
    let text = routine_text("__cmp_f32", &["a", "b"], 4, Ty::I8, Ty::F32);
    for a in FLOATS {
        for b in FLOATS {
            let want = if a == b { 0 } else if a < b { 1 } else { 2 };
            assert_eq!(routine_result(&text, &[a.to_bits(), b.to_bits()], 1), want, "{a} {b}");
        }
        assert_eq!(routine_result(&text, &[a.to_bits(), f32::NAN.to_bits()], 1), 3);
        assert_eq!(routine_result(&text, &[f32::NAN.to_bits(), a.to_bits()], 1), 3);
        assert_eq!(routine_result(&text, &[a.to_bits(), f32::INFINITY.to_bits()], 1), 1);
    }
}

#[test]
fn integers_become_floats() {
    let unsigned = routine_text("__uitofp_f32", &["val"], 4, Ty::F32, Ty::I32);
    let narrow = routine_text("__uitofp_f32", &["val"], 4, Ty::F32, Ty::I16);
    let with_sign = routine_text("__sitofp_f32", &["val"], 4, Ty::F32, Ty::I32);
    let narrow_sign = routine_text("__sitofp_f32", &["val"], 4, Ty::F32, Ty::I16);
    for v in [0u32, 1, 2, 255, 256, 65535, 0x8000, 0xFF_FFFF, 0x100_0001, 0x100_0003, 0x7FFF_FFFF, 0x8000_0000, 0xFFFF_FFFF] {
        assert_eq!(routine_result(&unsigned, &[v], 4), (v as f32).to_bits(), "{v}");
        assert_eq!(routine_result(&with_sign, &[v], 4), (v as i32 as f32).to_bits(), "{v}");
        assert_eq!(routine_result(&narrow, &[v], 4), (v as u16 as f32).to_bits(), "{v}");
        assert_eq!(routine_result(&narrow_sign, &[v], 4), (v as i16 as f32).to_bits(), "{v}");
    }
}

#[test]
fn floats_become_integers() {
    let unsigned = routine_text("__fptoui_f32", &["val"], 4, Ty::I32, Ty::F32);
    let with_sign = routine_text("__fptosi_f32", &["val"], 4, Ty::I32, Ty::F32);
    for v in [0.0f32, 0.5, 0.99, 1.0, 1.99, 255.9, 65536.0, 16777217.0, 2147483647.0, 1.0e9] {
        assert_eq!(routine_result(&unsigned, &[v.to_bits()], 4), v as u32, "{v}");
        assert_eq!(routine_result(&with_sign, &[v.to_bits()], 4), v as i32 as u32, "{v}");
        assert_eq!(routine_result(&with_sign, &[(-v).to_bits()], 4), -v as i32 as u32, "-{v}");
    }
    assert_eq!(routine_result(&unsigned, &[3.0e9f32.to_bits()], 4), 3_000_000_000);
}

#[test]
fn a_copy_of_a_routine_for_handlers_shares_its_recipe() {
    let plain = routine_text("__mul_u16", &["a", "b"], 2, Ty::I16, Ty::I16);
    let copy = routine_text("__mul_u16_isr", &["a", "b"], 2, Ty::I16, Ty::I16);
    assert_eq!(plain, copy.replace("__mul_u16_isr", "__mul_u16"));
    assert_eq!(routine_result(&copy, &[93, 35], 2), 3255);
}

#[test]
fn a_routine_frame_lies_in_one_bank() {
    let mut m = module(vec![], main_of(vec![ret()]));
    m.funcs.push(func("__mul_u16", vec![param("a", 2), param("b", 2)], vec![]));
    let at = |a: u16, b: u16, scr: u16| {
        addrs(&[("__mul_u16::a", a), ("__mul_u16::b", b), ("__mul_u16::__scr", scr)])
    };
    assert!(lower(&m, &at(0xA0, 0xA2, 0xA4), &ptrs(vec![])).is_ok());
    assert_eq!(lower(&m, &at(0xA0, 0x22, 0xA4), &ptrs(vec![])), Err(IselError::RoutineStraddles));
    assert_eq!(lower(&m, &at(0xA0, 0xA2, 0xE8), &ptrs(vec![])), Err(IselError::RoutineSlot));
    assert_eq!(lower(&m, &at(0x70, 0xA2, 0xA4), &ptrs(vec![])), Err(IselError::RoutineSlot));
}

fn conv(from: Ty, to: Ty, val: Val) -> Conv {
    Conv { dst: "r".to_string(), from, to, val, loc: None }
}

#[test]
fn conversions_keep_the_number() {
    let at = addrs(&[("main::a", 0x22), ("main::r", 0xA4)]);
    let one = |inst: Inst, src: u32, n: usize| {
        let m = module(vec![], main_of(vec![inst, ret()]));
        run(&m, &at, &ptrs(vec![]), &[(0x22, &src.to_le_bytes())]).get(0xA4, n)
    };
    for a in SAMPLES {
        for (from, to) in [(Ty::I8, Ty::I16), (Ty::I8, Ty::I32), (Ty::I16, Ty::I32)] {
            let (n, w) = (from.bytes(), to.bytes());
            assert_eq!(one(Inst::Zext(conv(from, to, reg("a"))), a, w as usize), masked(a, n));
            assert_eq!(
                one(Inst::Sext(conv(from, to, reg("a"))), a, w as usize),
                masked(signed(a, n) as u32, w)
            );
            assert_eq!(one(Inst::Trunc(conv(to, from, reg("a"))), a, n as usize), masked(a, n));
        }
        let f = Inst::Freeze(Freeze { dst: "r".to_string(), ty: Ty::I32, val: reg("a"), loc: None });
        assert_eq!(one(f, a, 4), a);
    }
}

#[test]
fn a_select_picks_an_arm() {
    for cond in [0u8, 1] {
        let m = module(
            vec![],
            main_of(vec![
                Inst::Select(Select {
                    dst: "r".to_string(),
                    cond: reg("c"),
                    ty: Ty::I32,
                    a: reg("a"),
                    b: Val::Const(0x1234_5678),
                    ptr: false,
                    loc: None,
                }),
                ret(),
            ]),
        );
        let at = addrs(&[("main::a", 0x22), ("main::c", 0xA0), ("main::r", 0xA4)]);
        let cpu = run(&m, &at, &ptrs(vec![]), &[(0x22, &[4, 3, 2, 1]), (0xA0, &[cond])]);
        assert_eq!(cpu.get(0xA4, 4), if cond == 1 { 0x0102_0304 } else { 0x1234_5678 });
    }
}

/// Scaled and held pointers: a read gives back what a write through another
/// name of the place wrote.
#[test]
fn pointers_reach_their_targets() {
    let mut m = module(
        vec![global("arr", 16), global("out", 4)],
        vec![
            func(
                "main",
                vec![],
                vec![block(
                    "entry",
                    vec![
                        store(Ty::I32, reg("v"), "%elem"),
                        call(None, None, "f", vec![(reg("elem1"), None)]),
                        ret(),
                    ],
                )],
            ),
        ],
    );
    let mut f = func(
        "f",
        vec![param("q", 2)],
        vec![block("entry", vec![load("x", Ty::I32, "%back"), store(Ty::I32, reg("x"), "@out"), ret()])],
    );
    f.params[0].ptr = true;
    m.funcs.push(f);
    for i in 0..3u8 {
        let a = addrs(&[
            ("arr", 0x68), ("out", 0xC0), ("main::v", 0x22), ("main::i", 0x26), ("main::j", 0x28), ("f::q", 0xB8),
            ("f::x", 0xBC),
        ]);
        let p = ptrs(vec![
            ("main::elem", pointer(Base::Global("arr".to_string()), 1, &[(4, "i")])),
            ("main::elem1", pointer(Base::Global("arr".to_string()), 0, &[(1, "j")])),
            ("f::back", pointer(Base::Slot("q".to_string(), true), 1, &[])),
        ]);
        let cpu = run(
            &m,
            &a,
            &p,
            &[(0x22, &[1, 2, 3, 4]), (0x26, &[i]), (0x28, &[4 * i, 0])],
        );
        assert_eq!(cpu.get(0xC0, 4), 0x0403_0201, "index {i}");
    }
}

#[test]
fn tables_in_flash_are_read_by_index() {
    for size in [3usize, 200, 255, 256, 300, 700, 1100] {
        let bytes: Vec<u8> = (0..size).map(|i| (i * 7 + i / 256) as u8).collect();
        let m = module(
            vec![constant("tab", &bytes, &[]), constant("other", &[0xEE], &[])],
            main_of(vec![
                load("r", Ty::I8, "%p"),
                ret(),
            ]),
        );
        let mut m = m;
        let wide = size > 255;
        let ty = if wide { Ty::I16 } else { Ty::I8 };
        m.funcs[0].blocks[0].insts.insert(0, load("i", ty, "@in"));
        m.globals.push(global("in", 2));
        let a = addrs(&[("in", 0x20), ("main::i", 0x22), ("main::r", 0xA4)]);
        let p = ptrs(vec![("main::p", pointer(Base::Global("tab".to_string()), 0, &[(1, "i")]))]);
        let text = text_of(&m, &a, &p);
        for i in [0, 1, size / 2, size - 2, size - 1] {
            let cpu = booted(&text, &[(0x20, &[i as u8, (i >> 8) as u8])]);
            assert_eq!(cpu.get(0xA4, 1), bytes[i] as u32, "byte {i} of {size}");
        }
    }
}

#[test]
fn tables_of_wide_elements_are_read_by_index() {
    for (size, scale) in [(300usize, 2u8), (300, 4), (1100, 2), (1100, 4)] {
        let bytes: Vec<u8> = (0..size).map(|i| (i * 5 + i / 256) as u8).collect();
        let mut m = module(
            vec![constant("tab", &bytes, &[]), global("in", 2)],
            main_of(vec![load("i", Ty::I16, "@in"), load("r", Ty::I8, "%p"), ret()]),
        );
        m.globals.push(constant("other", &[0xEE], &[]));
        let a = addrs(&[("in", 0x20), ("main::i", 0x22), ("main::r", 0xA4)]);
        let p = ptrs(vec![("main::p", pointer(Base::Global("tab".to_string()), 1, &[(scale, "i")]))]);
        let text = text_of(&m, &a, &p);
        for i in [0, 1, size / (2 * scale as usize), (size - 2) / scale as usize] {
            let at = i * scale as usize + 1;
            let cpu = booted(&text, &[(0x20, &[i as u8, (i >> 8) as u8])]);
            assert_eq!(cpu.get(0xA4, 1), bytes[at] as u32, "byte {at} of {size}");
        }
    }
}

#[test]
fn memory_is_copied() {
    for dynamic in [false, true] {
        let len = if dynamic { MemLen::Reg(reg("n")) } else { MemLen::Const(5) };
        let m = module(
            vec![global("src", 6), global("dst", 6)],
            main_of(vec![
                Inst::Memcpy(Memcpy {
                    dst: Val::Global("dst".to_string()),
                    src: Val::Global("src".to_string()),
                    len,
                    loc: None,
                }),
                ret(),
            ]),
        );
        let a = addrs(&[("src", 0x22), ("dst", 0xA2), ("main::n", 0x30)]);
        let cpu = run(
            &m,
            &a,
            &ptrs(vec![]),
            &[(0x22, &[9, 8, 7, 6, 5, 4]), (0xA2, &[0; 6]), (0x30, &[5, 0])],
        );
        assert_eq!(cpu.get(0xA2, 4), 0x0607_0809);
        assert_eq!(cpu.get(0xA6, 2), 0x0005, "the sixth byte stays");
    }
}

/// A run-time copy of more bytes than one byte can count, across banks.
#[test]
fn long_copies_keep_their_index() {
    let m = module(
        vec![global("src", 300), global("dst", 300)],
        main_of(vec![
            Inst::Memcpy(Memcpy {
                dst: Val::Global("dst".to_string()),
                src: Val::Global("src".to_string()),
                len: MemLen::Reg(reg("n")),
                loc: None,
            }),
            ret(),
        ]),
    );
    let d = Device {
        ram_banks: (0..12u16).map(|b| (0x80 * b + 0x20, 0x80 * b + 0x6F)).collect(),
        ..device()
    };
    let a = addrs(&[("src", 0x20), ("dst", 0x2A0), ("main::n", 0x5A0)]);
    let p = ptrs(vec![]);
    let x = Inputs { device: &d, m: &m, addrs: &a, ptrs: &p };
    let text = select(x, same_text, same_text).unwrap();
    for n in [255usize, 256, 257, 300] {
        let mut cpu = Machine::new(&text, true);
        let at = |start: usize, i: usize| (start + i / 80 * 0x80 + i % 80) as u16;
        for i in 0..300 {
            cpu.put(at(0x20, i), &[(i % 251) as u8 + 1]);
            cpu.put(at(0x2A0, i), &[0]);
        }
        cpu.put(0x5A0, &[n as u8, (n >> 8) as u8]);
        cpu.run(50_000_000);
        for i in 0..300 {
            let want = if i < n { (i % 251) as u32 + 1 } else { 0 };
            assert_eq!(cpu.get(at(0x2A0, i), 1), want, "byte {i} of {n}");
        }
    }
}

/// The carries of two terms both reach the high byte of a pointer value.
#[test]
fn pointer_values_carry_into_their_high_byte() {
    let m = module(
        vec![global("arr", 4), global("out", 8)],
        main_of(vec![store(Ty::I16, reg("p"), "@out"), ret()]),
    );
    let a = addrs(&[("arr", 0xE8), ("out", 0x120), ("main::i", 0x22), ("main::j", 0x24)]);
    let p = ptrs(vec![("main::p", pointer(Base::Global("arr".to_string()), 1, &[(1, "i"), (1, "j")]))]);
    for (i, j) in [(0x0020u16, 0x00FFu16), (0x0017, 0x00FF), (0x00FF, 0x00FF), (0x1234, 0x0DCB), (0, 0)] {
        let cpu = run(&m, &a, &p, &[(0x22, &i.to_le_bytes()), (0x24, &j.to_le_bytes())]);
        assert_eq!(cpu.get(0x120, 2), 0xE9 + i as u32 + j as u32, "{i:#x} {j:#x}");
    }
}

/// A pointer argument is the address with its offset and its term, whether the
/// object is a global or behind a held address. A local is passed as its address.
#[test]
fn pointer_arguments_are_addresses() {
    for start in [0xE8u32, 0xC8, 0x01F8] {
        let base = || match start {
            0xE8 => Base::Global("arr".to_string()),
            0xC8 => Base::Slot("loc".to_string(), false),
            _ => Base::Slot("held".to_string(), true),
        };
        for (k, terms, i) in [(0u8, vec![], 0u8), (9, vec![], 0), (0, vec![(1, "i")], 0xFC), (9, vec![(1, "i")], 4)] {
            let sum = if start == 0xC8 { 0 } else { k as u32 + i as u32 };
            let mut m = module(
                vec![global("arr", 4), global("out", 2)],
                main_of(vec![
                    Inst::Alloca(Alloca { dst: "loc".to_string(), size: 4, loc: None }),
                    call(None, None, "f", vec![(reg("p"), None)]),
                    ret(),
                ]),
            );
            let mut f = func("f", vec![param("q", 2)], vec![block("entry", vec![ret()])]);
            f.params[0].ptr = true;
            m.funcs.push(f);
            let a = addrs(&[
                ("arr", 0xE8), ("out", 0x120), ("main::loc", 0xC8), ("main::held", 0x26), ("main::i", 0x22), ("f::q", 0x122),
            ]);
            let p = ptrs(vec![("main::p", pointer(base(), k, &terms))]);
            let cpu = run(&m, &a, &p, &[(0x22, &[i, 0]), (0x26, &[0xF8, 0x01])]);
            assert_eq!(cpu.get(0x122, 2), start + sum, "{k} {i:#x}");
        }
    }
}

/// The reset code is the same with a handler and without, and both programs hold it
/// line behind line.
#[test]
fn the_reset_code_stands_in_the_program() {
    let build = |isr: bool| {
        let mut m = module(
            vec![constant("tab", &[0, 0, 7], &[(0, "f"), (1, "f")]), global("out", 1)],
            main_of(vec![ret()]),
        );
        m.funcs.push(func("f", vec![], vec![block("entry", vec![ret()])]));
        let mut h = func("tick", vec![], vec![block("entry", vec![ret()])]);
        h.isr = isr;
        m.funcs.push(h);
        text_of(&m, &addrs(&[("tab", 0x30), ("out", 0x40)]), &ptrs(vec![]))
    };
    let start = |text: &str| {
        let from = text.find("__start:").unwrap();
        let to = from + text[from..].find("SLEEP").unwrap();
        text[from..to].to_string()
    };
    let (with, without) = (start(&build(true)), start(&build(false)));
    assert_eq!(with, without);
    assert!(with.contains("LOW(f)\n    MOVWF 0x30\n"), "{with}");
    assert!(with.contains("HIGH(f)\n    MOVWF 0x31\n"), "{with}");
    assert!(with.contains("MOVLW 0x07\n    MOVWF 0x32\n"), "{with}");
}

/// Equal inputs give equal texts and locations.
#[test]
fn equal_inputs_give_equal_programs() {
    let m = module(
        vec![constant("tab", &[1, 2, 3], &[]), global("out", 1)],
        main_of(vec![
            load("i", Ty::I8, "@out"),
            load("v", Ty::I8, "%p"),
            store(Ty::I8, reg("v"), "@out"),
            ret(),
        ]),
    );
    let a = addrs(&[("out", 0x120), ("main::v", 0x22), ("main::i", 0x24)]);
    let p = ptrs(vec![("main::p", pointer(Base::Global("tab".to_string()), 0, &[(1, "i")]))]);
    let d = device();
    let x = Inputs { device: &d, m: &m, addrs: &a, ptrs: &p };
    let (text, locs) = select_with_locs(x, same_text, same_text).unwrap();
    assert_eq!(select_with_locs(x, same_text, same_text).unwrap(), (text.clone(), locs));
    assert_eq!(select(x, same_text, same_text).unwrap(), text);
}

/// A variadic function takes its extra arguments one after the other.
#[test]
fn variadic_arguments_arrive_in_order() {
    let f = func(
        "f",
        vec![param("n", 1)],
        vec![block(
            "entry",
            vec![
                Inst::Alloca(Alloca { dst: "list".to_string(), size: 2, loc: None }),
                Inst::VaStart(VaStart { list: "list".to_string(), loc: None }),
                Inst::VaArg(VaArg { dst: "x".to_string(), ptr: "list".to_string(), ty: Ty::I16, loc: None }),
                Inst::VaArg(VaArg { dst: "y".to_string(), ptr: "list".to_string(), ty: Ty::I32, loc: None }),
                Inst::VaArg(VaArg { dst: "z".to_string(), ptr: "list".to_string(), ty: Ty::I8, loc: None }),
                store(Ty::I16, reg("x"), "@x"),
                store(Ty::I32, reg("y"), "@y"),
                store(Ty::I8, reg("z"), "@z"),
                ret(),
            ],
        )],
    );
    let mut m = module(
        vec![global("x", 2), global("y", 4), global("z", 1)],
        main_of(vec![
            call(
                None,
                None,
                "f",
                vec![
                    (Val::Const(3), Some(Ty::I8)), (Val::Const(0x1122), Some(Ty::I16)),
                    (reg("v"), Some(Ty::I32)), (Val::Const(0x77), Some(Ty::I8)),
                ],
            ),
            ret(),
        ]),
    );
    m.funcs.push(f);
    let a = addrs(&[
        ("x", 0x20), ("y", 0x22), ("z", 0x26), ("main::v", 0x28), ("f::n", 0xA0), ("f::list", 0xA2),
        ("f::x", 0xA4), ("f::y", 0xA6), ("f::z", 0xAA), ("f::__va", 0x120),
    ]);
    let cpu = run(&m, &a, &ptrs(vec![]), &[(0x28, &[1, 2, 3, 4])]);
    assert_eq!(cpu.get(0x20, 2), 0x1122);
    assert_eq!(cpu.get(0x22, 4), 0x0403_0201);
    assert_eq!(cpu.get(0x26, 1), 0x77);
}

/// A call through a function pointer reaches the function it names.
#[test]
fn indirect_calls_reach_their_callee() {
    let give = |name: &str, v: i64| {
        func(
            name,
            vec![],
            vec![block("entry", vec![Inst::Ret(Ret { val: Some((Ty::I8, Val::Const(v))), loc: None })])],
        )
    };
    for (target, want) in [("one", 11), ("two", 22)] {
        let mut m = module(
            vec![global("fp", 2)],
            main_of(vec![
                store(Ty::I16, Val::Global(target.to_string()), "@fp"),
                load("p", Ty::I16, "@fp"),
                Inst::Call(Call {
                    dst: Some("r".to_string()),
                    ty: Some(Ty::I8),
                    func: "p".to_string(),
                    args: vec![],
                    callees: vec!["one".to_string(), "two".to_string()],
                    loc: None,
                }),
                ret(),
            ]),
        );
        m.funcs.push(give("one", 11));
        m.funcs.push(give("two", 22));
        let a = addrs(&[("fp", 0x20), ("main::p", 0x22), ("main::r", 0xA0)]);
        assert_eq!(run(&m, &a, &ptrs(vec![]), &[]).get(0xA0, 1), want);
    }
}

/// A handler leaves the bytes it shares with the code it interrupts as they were.
#[test]
fn a_handler_restores_what_it_interrupts() {
    let mut m = module(
        vec![global("ticks", 1)],
        main_of(vec![ret()]),
    );
    let mut isr = func(
        "tick",
        vec![],
        vec![block(
            "entry",
            vec![
                load("t", Ty::I8, "@ticks"),
                bin("u", BinOp::Add, Ty::I8, reg("t"), Val::Const(1)),
                store(Ty::I8, reg("u"), "@ticks"),
                ret(),
            ],
        )],
    );
    isr.isr = true;
    m.funcs.push(isr);
    let a = addrs(&[("ticks", 0x20), ("tick::t", 0xA0), ("tick::u", 0xA1)]);
    let text = text_of(&m, &a, &ptrs(vec![]));
    let mut cpu = Machine::new(&text, true);
    cpu.put(0x20, &[41]);
    cpu.put(0x70, &[1, 2, 3, 4, 5]);
    cpu.pc = 4;
    cpu.stack.push(0);
    while cpu.pc != 0 {
        cpu.step();
    }
    assert_eq!(cpu.get(0x20, 1), 42);
    assert_eq!(cpu.get(0x71, 4), 0x0504_0302);
    let d = device();
    let mut two = module(vec![], main_of(vec![ret()]));
    for name in ["a", "b"] {
        let mut h = func(name, vec![], vec![block("entry", vec![ret()])]);
        h.isr = true;
        two.funcs.push(h);
    }
    let none = addrs(&[]);
    let no_ptrs = ptrs(vec![]);
    let x = Inputs { device: &d, m: &two, addrs: &none, ptrs: &no_ptrs };
    assert_eq!(select(x, same_text, same_text), Err(IselError::TooManyHandlers));
}

#[test]
fn functions_are_packed_into_pages() {
    let big = |name: &str, n: usize| {
        let mut insts: Vec<Inst> = Vec::new();
        for _ in 0..n {
            insts.push(store(Ty::I8, Val::Const(1), "@g"));
        }
        insts.push(ret());
        func(name, vec![], vec![block("entry", insts)])
    };
    let mut m = module(
        vec![global("g", 1), global("out", 1), constant("tab", &[5, 6, 7], &[])],
        main_of(vec![
            call(None, None, "one", vec![]),
            call(None, None, "two", vec![]),
            call(None, None, "three", vec![]),
            load("r", Ty::I8, "%p"),
            store(Ty::I8, reg("r"), "@out"),
            ret(),
        ]),
    );
    for name in ["one", "two", "three"] {
        m.funcs.push(big(name, 900));
    }
    let a = addrs(&[("g", 0x20), ("out", 0x21), ("main::r", 0x22), ("main::i", 0x23)]);
    let p = ptrs(vec![("main::p", pointer(Base::Global("tab".to_string()), 1, &[(1, "i")]))]);
    let text = text_of(&m, &a, &p);
    let cpu = booted(&text, &[(0x23, &[1])]);
    assert_eq!(cpu.get(0x21, 1), 7);
    m.funcs.push(big("huge", 1100));
    assert_eq!(lower(&m, &a, &p), Err(IselError::FunctionTooLarge));
    m.funcs.pop();
    for name in ["four", "five", "six"] {
        m.funcs.push(big(name, 900));
    }
    assert_eq!(lower(&m, &a, &p), Err(IselError::FlashExhausted));
}

#[test]
fn every_line_of_the_text_has_a_location() {
    let mut m = module(
        vec![global("in", 1), constant("tab", &[1, 2, 3], &[])],
        main_of(vec![
            Inst::Load(Load { dst: "v".to_string(), ty: Ty::I8, ptr: "@in".to_string(), loc: Some(SrcLoc(9)) }),
            ret(),
        ]),
    );
    m.module_asm = vec!["    NOP\n    NOP".to_string()];
    let d = device();
    let a = addrs(&[("in", 0x20), ("main::v", 0x21)]);
    let p = ptrs(vec![]);
    let x = Inputs { device: &d, m: &m, addrs: &a, ptrs: &p };
    let (text, locs) = select_with_locs(x, same_text, same_text).unwrap();
    let lines: Vec<&str> = text.lines().collect();
    assert_eq!(lines.len(), locs.len());
    for (line, loc) in lines.iter().zip(locs.iter()) {
        assert_eq!(*loc == Some(SrcLoc(9)), *line == "    MOVF 0x20, W" || *line == "    MOVWF 0x21");
    }
}

/// The lines of a branch carry its location; labels and phi copies carry none.
#[test]
fn the_lines_of_a_branch_have_its_location() {
    let at = |n: u32| Some(SrcLoc(n));
    let f = func(
        "main",
        vec![],
        vec![
            block(
                "entry",
                vec![
                    Inst::Load(Load { dst: "c".to_string(), ty: Ty::I8, ptr: "@in".to_string(), loc: at(1) }),
                    Inst::BrCond(BrCond { cond: reg("c"), t: "a".to_string(), f: "b".to_string(), loc: at(2) }),
                ],
            ),
            block("a", vec![Inst::Br(Br { target: "m".to_string(), loc: at(3) })]),
            block("b", vec![Inst::Br(Br { target: "m".to_string(), loc: at(4) })]),
            block(
                "m",
                vec![
                    Inst::Phi(Phi {
                        dst: "v".to_string(),
                        ty: Ty::I8,
                        incoming: vec![
                            Incoming { val: Val::Const(5), pred: "a".to_string() },
                            Incoming { val: Val::Const(6), pred: "b".to_string() },
                        ],
                        loc: at(5),
                    }),
                    Inst::Ret(Ret { val: Some((Ty::I8, reg("v"))), loc: at(6) }),
                ],
            ),
        ],
    );
    let m = module(vec![global("in", 1)], vec![f]);
    let d = device();
    let a = addrs(&[("in", 0x20), ("main::c", 0x21), ("main::v", 0x22)]);
    let p = ptrs(vec![]);
    let (text, locs) = select_with_locs(Inputs { device: &d, m: &m, addrs: &a, ptrs: &p }, same_text, same_text).unwrap();
    let lines: Vec<&str> = text.lines().collect();
    let from = lines.iter().position(|l| *l == "main:").unwrap();
    let got: Vec<(&str, Option<SrcLoc>)> = (from..lines.len() - 1).map(|i| (lines[i], locs[i])).collect();
    let want: Vec<(&str, Option<SrcLoc>)> = vec![
        ("main:", None),
        ("    MOVF 0x20, W", at(1)),
        ("    MOVWF 0x21", at(1)),
        ("    MOVF 0x21, W", at(2)),
        ("    BTFSC STATUS, 2 ; Z", at(2)),
        ("    GOTO main_Lb", at(2)),
        ("    GOTO main_La", at(2)),
        ("main_La:", None),
        ("    ; phi copies for pred main_La", None),
        ("    MOVLW 0x05", None),
        ("    MOVWF 0x22", None),
        ("    GOTO main_Lm", at(3)),
        ("main_Lb:", None),
        ("    ; phi copies for pred main_Lb", None),
        ("    MOVLW 0x06", None),
        ("    MOVWF 0x22", None),
        ("    GOTO main_Lm", at(4)),
        ("main_Lm:", None),
        ("    MOVF 0x22, W", at(6)),
        ("    MOVWF 0x71", at(6)),
        ("    RETURN", at(6)),
        ("", None),
    ];
    assert_eq!(got[..want.len()], want[..]);
}

fn error_of(insts: Vec<Inst>) -> IselError {
    let mut insts = insts;
    insts.insert(0, ret());
    let big = vec![0u8; 300];
    let mut m = module(
        vec![
            global("g", 2), constant("table", &[1, 2, 3], &[]), constant("large", &big, &[]), global("span", 90),
        ],
        vec![
            func("main", vec![], vec![block("entry", insts)]),
            func("f", vec![param("p", 1)], vec![block("entry", vec![ret()])]),
            func("h", vec![param("p", 2)], vec![block("entry", vec![ret()])]),
            func("v", vec![param("p", 4)], vec![block("entry", vec![ret()])]),
        ],
    );
    m.funcs.push(func("s", vec![param("out", 2)], vec![block("entry", vec![ret()])]));
    m.funcs[4].params[0].sret = true;
    m.funcs.push(func("b", vec![param("copy", 4)], vec![block("entry", vec![ret()])]));
    m.funcs[5].params[0].byval = Some(4);
    let a = addrs(&[
        ("g", 0x20), ("main::a", 0x22), ("main::b", 0x24), ("main::r", 0x26), ("f::p", 0xA0), ("h::p", 0xA2),
        ("v::p", 0xA4), ("s::out", 0xA8), ("b::copy", 0xAA), ("span", 0x30), ("v::__va", 0x1FE),
    ]);
    let g = "g".to_string();
    let p = ptrs(vec![
        ("main::wide", pointer(Base::Global(g.clone()), 0, &[(1, "a"), (1, "b"), (1, "r")])),
        ("main::tab", pointer(Base::Global("table".to_string()), 0, &[])),
        ("main::odd", pointer(Base::Global("large".to_string()), 0, &[(1, "a"), (1, "b")])),
        ("main::off", pointer(Base::Global(g), 1, &[])),
    ]);
    lower(&m, &a, &p).unwrap_err()
}

#[test]
fn what_cannot_be_lowered_is_refused() {
    let add = BinOp::Add;
    let g = || Val::Global("g".to_string());
    assert_eq!(error_of(vec![load("r", Ty::I8, "0x12345")]), IselError::MalformedLiteralPointer);
    assert_eq!(error_of(vec![load("r", Ty::I8, "g")]), IselError::MalformedPointer);
    assert_eq!(error_of(vec![load("r", Ty::I8, "@nowhere")]), IselError::NoAddress);
    assert_eq!(error_of(vec![load("q", Ty::I8, "@g")]), IselError::NoSlot);
    assert_eq!(error_of(vec![load("r", Ty::I8, "%q")]), IselError::UnresolvedPointer);
    assert_eq!(error_of(vec![store(Ty::I8, Val::Const(0), "%tab")]), IselError::StoreToConst);
    assert_eq!(
        error_of(vec![bin("r", add, Ty::I8, Val::Const(1), Val::Const(2))]),
        IselError::ConstantFolding
    );
    assert_eq!(error_of(vec![bin("r", add, Ty::I16, reg("a"), g())]), IselError::GlobalOperand);
    assert_eq!(
        error_of(vec![bin("r", BinOp::Mul, Ty::I8, reg("a"), reg("b"))]),
        IselError::NotLegalized
    );
    assert_eq!(error_of(vec![bin("r", add, Ty::F32, reg("a"), reg("b"))]), IselError::UnsupportedBinop);
    assert_eq!(
        error_of(vec![bin("r", BinOp::Shl, Ty::I8, reg("a"), reg("b"))]),
        IselError::VariableShift
    );
    assert_eq!(
        error_of(vec![bin("r", BinOp::Shl, Ty::I32, reg("a"), Val::Const(33))]),
        IselError::ShiftRange
    );
    assert_eq!(error_of(vec![Inst::Zext(conv(Ty::I16, Ty::I8, reg("a")))]), IselError::ZextNarrows);
    assert_eq!(
        error_of(vec![Inst::IntToPtr(conv(Ty::I8, Ty::I16, reg("a")))]),
        IselError::IntToPtrWidth
    );
    assert_eq!(error_of(vec![Inst::Sext(conv(Ty::I16, Ty::I8, reg("a")))]), IselError::SextWidth);
    assert_eq!(
        error_of(vec![Inst::Sext(conv(Ty::I8, Ty::I16, Val::Const(1)))]),
        IselError::SextConst
    );
    assert_eq!(error_of(vec![Inst::Trunc(conv(Ty::I8, Ty::I16, reg("a")))]), IselError::TruncWidens);
    assert_eq!(
        error_of(vec![call(Some("r"), None, "f", vec![(reg("a"), Some(Ty::I8))])]),
        IselError::UntypedCall
    );
    assert_eq!(error_of(vec![call(None, None, "f", vec![(g(), None)])]), IselError::PointerParamWidth);
    assert_eq!(
        error_of(vec![call(None, None, "h", vec![(Val::Const(5), None)])]),
        IselError::NonNullConstPointer
    );
    assert_eq!(
        error_of(vec![call(None, None, "h", vec![(Val::Global("table".to_string()), None)])]),
        IselError::ConstTooLarge
    );
    assert_eq!(
        error_of(vec![call(None, None, "v", vec![(reg("a"), Some(Ty::I16))])]),
        IselError::NarrowArgument
    );
    assert_eq!(error_of(vec![call(None, None, "h", vec![(reg("wide"), None)])]), IselError::TooManyTerms);
    let two = |t: Option<Ty>| vec![(reg("a"), Some(Ty::I32)), (reg("b"), t)];
    assert_eq!(error_of(vec![call(None, None, "v", two(None))]), IselError::UntypedVariadic);
    assert_eq!(error_of(vec![call(None, None, "v", two(Some(Ty::I32)))]), IselError::VariadicOverflow);
    assert_eq!(
        error_of(vec![call(None, None, "h", vec![(reg("a"), Some(Ty::I16)), (reg("b"), Some(Ty::I8))])]),
        IselError::Variadic
    );
    assert_eq!(error_of(vec![load("r", Ty::I8, "%odd")]), IselError::LargeTableIndex);
    let special = |func: &str, val: Val, byval: Option<u8>, sret: bool| {
        let mut c = call(None, None, func, vec![(val, None)]);
        if let Inst::Call(x) = &mut c {
            x.args[0].byval = byval;
            x.args[0].sret = sret;
        }
        error_of(vec![c])
    };
    assert_eq!(special("h", g(), Some(4), false), IselError::ByvalMismatch);
    assert_eq!(special("h", g(), None, true), IselError::SretMismatch);
    assert_eq!(special("s", Val::Const(0), None, true), IselError::SretTarget);
    assert_eq!(special("s", reg("off"), None, true), IselError::SretTarget);
    assert_eq!(special("s", Val::Global("span".to_string()), None, true), IselError::SretStraddles);
    let copy = |dst: Val, src: Val| {
        error_of(vec![Inst::Memcpy(Memcpy { dst, src, len: MemLen::Reg(reg("a")), loc: None })])
    };
    assert_eq!(copy(Val::Const(1), g()), IselError::MemcpyPointer);
    assert_eq!(
        error_of(vec![Inst::FloatBin(FloatOp { dst: "r".to_string(), to: Ty::F32, loc: None })]),
        IselError::FloatInstruction
    );
}

#[test]
fn functions_without_a_way_on_are_refused() {
    let m = module(vec![], vec![func("main", vec![], vec![])]);
    assert_eq!(lower(&m, &addrs(&[]), &ptrs(vec![])), Err(IselError::NoBlocks));
    let jump = Inst::Br(Br { target: "nowhere".to_string(), loc: None });
    let m = module(vec![], main_of(vec![jump]));
    assert_eq!(lower(&m, &addrs(&[]), &ptrs(vec![])), Err(IselError::UnknownBlock));
}

#[test]
fn assembly_operands_are_substituted() {
    let asm_inst = |template: &str, operands: &[&str]| {
        Inst::Asm(Asm {
            template: template.to_string(),
            operands: operands.iter().map(|o| AsmOperand { ptr: o.to_string() }).collect(),
            loc: None,
        })
    };
    let make = |inst: Inst| module(vec![global("g", 1)], main_of(vec![inst, ret()]));
    let a = addrs(&[("g", 0x2F), ("main::s", 0x31)]);
    let p = || ptrs(vec![("main::d", pointer(Base::Global("g".to_string()), 1, &[]))]);
    let text = text_of(&make(asm_inst("    INCF $0, F\n    DECF $1, F", &["@g", "%s"])), &a, &p());
    assert!(text.contains("INCF 0x2F, F"), "{text}");
    assert!(text.contains("DECF 0x31, F"), "{text}");
    let refused = |inst: Inst| lower(&make(inst), &a, &p()).unwrap_err();
    assert_eq!(refused(asm_inst("    INCF $1, F", &["@g"])), IselError::AsmPlaceholderRange);
    assert_eq!(refused(asm_inst("    INCF $0, F", &["%d"])), IselError::AsmDerivedOperand);
    assert_eq!(refused(asm_inst("    INCF $0, F", &["g"])), IselError::AsmMalformedOperand);
}

#[test]
fn naked_functions_hold_assembly_only() {
    let mut m = module(vec![], main_of(vec![ret()]));
    let mut f = func(
        "bare",
        vec![],
        vec![block(
            "entry",
            vec![Inst::Asm(Asm { template: "    NOP".to_string(), operands: vec![], loc: None })],
        )],
    );
    f.naked = true;
    m.funcs.push(f);
    let text = text_of(&m, &addrs(&[]), &ptrs(vec![]));
    assert!(text.contains("bare:\n; --- asm start ---\n    NOP"), "{text}");
    m.funcs[1].blocks[0].insts.push(store(Ty::I8, Val::Const(1), "@g"));
    assert_eq!(lower(&m, &addrs(&[("g", 0x20)]), &ptrs(vec![])), Err(IselError::NakedBody));
}

#[test]
fn tables_that_cannot_stand_are_refused() {
    let with = |globals: Vec<Global>| lower(&module(globals, main_of(vec![ret()])), &addrs(&[]), &ptrs(vec![]));
    assert_eq!(with(vec![constant("tab", &[], &[])]), Err(IselError::EmptyTable));
    assert_eq!(
        with(vec![constant("tab", &[0; 600], &[]), constant("tab_1", &[0; 600], &[])]),
        Err(IselError::LabelCollision)
    );
}

fn reg(name: &str) -> Val {
    Val::Reg(name.to_string())
}

fn load(dst: &str, ty: Ty, ptr: &str) -> Inst {
    Inst::Load(Load { dst: dst.to_string(), ty, ptr: ptr.to_string(), loc: None })
}

fn store(ty: Ty, val: Val, ptr: &str) -> Inst {
    Inst::Store(Store { ty, val, ptr: ptr.to_string(), loc: None })
}

fn bin(dst: &str, op: BinOp, ty: Ty, a: Val, b: Val) -> Inst {
    Inst::Bin(Bin { dst: dst.to_string(), op, ty, a, b, loc: None })
}

fn ret() -> Inst {
    Inst::Ret(Ret { val: None, loc: None })
}

fn block(label: &str, insts: Vec<Inst>) -> Block {
    Block { label: label.to_string(), insts }
}

fn func(name: &str, params: Vec<Param>, blocks: Vec<Block>) -> Func {
    Func { name: name.to_string(), params, blocks, naked: false, isr: false }
}

fn param(name: &str, width: u8) -> Param {
    Param { name: name.to_string(), width, ptr: false, byval: None, sret: false }
}

fn global(name: &str, size: u16) -> Global {
    Global { name: name.to_string(), is_const: false, size, bytes: vec![], refs: vec![] }
}

fn constant(name: &str, bytes: &[u8], refs: &[(usize, &str)]) -> Global {
    Global {
        name: name.to_string(),
        is_const: true,
        size: bytes.len() as u16,
        bytes: bytes.to_vec(),
        refs: refs.iter().map(|r| Ref { offset: r.0, name: r.1.to_string() }).collect(),
    }
}

fn module(globals: Vec<Global>, funcs: Vec<Func>) -> Module {
    Module { funcs, globals, module_asm: vec![] }
}

fn main_of(insts: Vec<Inst>) -> Vec<Func> {
    vec![func("main", vec![], vec![block("entry", insts)])]
}

fn call(dst: Option<&str>, ty: Option<Ty>, name: &str, args: Vec<(Val, Option<Ty>)>) -> Inst {
    Inst::Call(Call {
        dst: dst.map(|d| d.to_string()),
        ty,
        func: name.to_string(),
        args: args.into_iter().map(|a| CallArg { val: a.0, ty: a.1, byval: None, sret: false }).collect(),
        callees: vec![],
        loc: None,
    })
}

fn addrs(pairs: &[(&str, u16)]) -> AddrMap {
    let mut m = NameMap::new();
    for (name, at) in pairs {
        m.insert(name.to_string(), *at);
    }
    m
}

fn ptrs(list: Vec<(&str, Pointer)>) -> PtrMap {
    let mut m = NameMap::new();
    for (name, p) in list {
        m.insert(name.to_string(), p);
    }
    m
}

fn pointer(base: Base, k: u8, terms: &[(u8, &str)]) -> Pointer {
    Pointer {
        base,
        k,
        terms: terms.iter().map(|t| Term { scale: t.0, reg: t.1.to_string() }).collect(),
    }
}

/// A file register operand.
#[derive(Clone, Copy, PartialEq, Debug)]
enum File {
    Ram(usize),
    Status,
    Fsr,
    Indf,
    Fsr0L,
    Fsr0H,
    Indf0,
    Pcl,
    Pclath,
}

#[derive(Clone, PartialEq, Debug)]
enum Word {
    /// An operation on a file register; the flag sends the result to it.
    Byte(String, File, bool),
    Bit(String, File, u8),
    Lit(String, u8),
    Call(usize),
    Goto(usize),
    Return,
    Sleep,
    Nop,
}

/// A machine that runs the text of a program. On the banked core an operand is
/// five bits wide and FSR gives the bank; on the enhanced core operands are full
/// addresses and FSR0 also reaches the linear data region.
struct Machine {
    enhanced: bool,
    words: Vec<Option<Word>>,
    labels: Vec<(String, usize)>,
    ram: Vec<u8>,
    w: u8,
    c: bool,
    z: bool,
    fsr: u8,
    fsr0: usize,
    pclath: u8,
    pc: usize,
    stack: Vec<usize>,
    cycles: u64,
    halted: bool,
}

fn number(text: &str) -> usize {
    match usize::from_str_radix(text.trim_start_matches("0x"), 16) {
        Ok(n) => n,
        Err(_) => panic!("no number: {text}"),
    }
}

fn file(text: &str) -> File {
    match text {
        "STATUS" => File::Status,
        "FSR" => File::Fsr,
        "INDF" => File::Indf,
        "FSR0L" => File::Fsr0L,
        "FSR0H" => File::Fsr0H,
        "INDF0" => File::Indf0,
        "PCL" => File::Pcl,
        "PCLATH" => File::Pclath,
        _ => File::Ram(number(text)),
    }
}

fn lookup(labels: &[(String, usize)], name: &str) -> usize {
    for (label, at) in labels {
        if label == name {
            return *at;
        }
    }
    panic!("no label {name}")
}

fn literal(labels: &[(String, usize)], text: &str) -> u8 {
    if text.starts_with("0x") {
        return number(text) as u8;
    }
    let open = text.find('(').unwrap();
    let at = lookup(labels, &text[open + 1..text.len() - 1]);
    match &text[..open] {
        "LOW" => at as u8,
        "HIGH" => (at >> 8) as u8,
        "PAGE" => (at >> 8) as u8 & 0x78,
        other => panic!("unknown operator {other}"),
    }
}

/// The lines of a text without comments and blanks.
fn code_lines(text: &str) -> Vec<String> {
    let mut out = Vec::new();
    for line in text.lines() {
        let code = line.split(';').next().unwrap().trim();
        if !code.is_empty() {
            out.push(code.to_string());
        }
    }
    out
}

fn is_directive(line: &str) -> bool {
    line.starts_with("list") || line.starts_with("radix") || line == "end" || line.contains(" equ ")
        || line.contains(" EQU ") || line.starts_with("processor")
}

impl Machine {
    fn new(text: &str, enhanced: bool) -> Machine {
        let lines = code_lines(text);
        let mut labels: Vec<(String, usize)> = Vec::new();
        let mut placed: Vec<(usize, String)> = Vec::new();
        let mut at = 0usize;
        for line in &lines {
            if let Some(label) = line.strip_suffix(':') {
                for (other, _) in &labels {
                    assert_ne!(other, label, "a label stands twice");
                }
                labels.push((label.to_string(), at));
            } else if let Some(org) = line.strip_prefix("org ") {
                assert!(number(org) >= at, "org goes back");
                at = number(org);
            } else if line == ".align 256" {
                at = (at + 255) / 256 * 256;
            } else if line.starts_with(".table") || is_directive(line) {
            } else {
                placed.push((at, line.clone()));
                at += 1;
            }
        }
        let mut words: Vec<Option<Word>> = vec![None; at];
        for (at, line) in &placed {
            words[*at] = Some(Machine::word(&labels, line));
        }
        Machine {
            enhanced,
            words,
            labels,
            ram: vec![0xA5; 0x1000],
            w: 0x5A,
            c: true,
            z: true,
            fsr: 0,
            fsr0: 0,
            pclath: 0,
            pc: 0,
            stack: Vec::new(),
            cycles: 0,
            halted: false,
        }
    }

    fn word(labels: &[(String, usize)], line: &str) -> Word {
        let mut parts = line.splitn(2, ' ');
        let op = parts.next().unwrap().to_uppercase();
        let rest = parts.next().unwrap_or("").trim();
        let args: Vec<&str> = rest.split(", ").map(|a| a.trim()).collect();
        match op.as_str() {
            "CALL" => Word::Call(lookup(labels, rest)),
            "GOTO" => Word::Goto(lookup(labels, rest)),
            "RETURN" | "RETFIE" => Word::Return,
            "SLEEP" => Word::Sleep,
            "NOP" => Word::Nop,
            "MOVLW" | "ADDLW" | "ANDLW" | "IORLW" | "SUBLW" | "XORLW" | "RETLW" => {
                Word::Lit(op, literal(labels, rest))
            },
            "BCF" | "BSF" | "BTFSC" | "BTFSS" => Word::Bit(op, file(args[0]), args[1].parse().unwrap()),
            "MOVWF" | "CLRF" => Word::Byte(op, file(args[0]), true),
            _ => Word::Byte(op, file(args[0]), args[1] == "F"),
        }
    }

    fn start(&mut self, name: &str) {
        self.pc = lookup(&self.labels, name);
    }

    /// The data address behind a direct operand.
    fn direct(&self, a: usize) -> usize {
        if self.enhanced {
            a
        } else {
            assert!(a < 32, "an operand field has five bits");
            if a < 16 {
                a
            } else {
                a + ((self.fsr >> 5) as usize & 1) * 32
            }
        }
    }

    fn indirect(&self) -> usize {
        if !self.enhanced {
            let a = self.fsr as usize & 0x3F;
            return if a % 32 < 16 { a % 32 } else { a };
        }
        if self.fsr0 >= 0x2000 {
            let off = self.fsr0 - 0x2000;
            return off / 80 * 128 + 0x20 + off % 80;
        }
        if self.fsr0 % 128 >= 0x70 {
            return self.fsr0 % 128;
        }
        self.fsr0
    }

    fn read(&self, f: File) -> u8 {
        match f {
            File::Ram(a) => self.ram[self.direct(a)],
            File::Status => (self.c as u8) | (self.z as u8) << 2,
            File::Fsr => self.fsr,
            File::Indf | File::Indf0 => self.ram[self.indirect()],
            File::Fsr0L => self.fsr0 as u8,
            File::Fsr0H => (self.fsr0 >> 8) as u8,
            File::Pcl => self.pc as u8,
            File::Pclath => self.pclath,
        }
    }

    fn write(&mut self, f: File, v: u8) {
        match f {
            File::Ram(a) => {
                let at = self.direct(a);
                self.ram[at] = v;
            },
            File::Status => {
                self.c = v & 1 != 0;
                self.z = v & 4 != 0;
            },
            File::Fsr => self.fsr = v,
            File::Indf | File::Indf0 => {
                let at = self.indirect();
                self.ram[at] = v;
            },
            File::Fsr0L => self.fsr0 = self.fsr0 & 0xFF00 | v as usize,
            File::Fsr0H => self.fsr0 = self.fsr0 & 0xFF | (v as usize) << 8,
            File::Pcl => {
                self.pc = (self.pclath as usize) << 8 | v as usize;
                self.cycles += 1;
            },
            File::Pclath => self.pclath = v,
        }
    }

    fn skip(&mut self) {
        self.pc += 1;
        self.cycles += 1;
    }

    fn jump(&mut self, to: usize) {
        if self.enhanced {
            assert_eq!(to >> 11, (self.pclath >> 3) as usize, "PCLATH names another page");
        }
        self.pc = to;
        self.cycles += 1;
    }

    fn byte(&mut self, op: &str, f: File, to_file: bool) {
        let v = self.read(f);
        let mut skip = false;
        let r = match op {
            "MOVWF" => {
                self.write(f, self.w);
                return;
            },
            "CLRF" => {
                self.z = true;
                0
            },
            "MOVF" => {
                self.z = v == 0;
                v
            },
            "ADDWF" => {
                let s = self.w as u16 + v as u16;
                self.c = s > 255;
                self.z = s as u8 == 0;
                s as u8
            },
            "SUBWF" => {
                self.c = v >= self.w;
                self.z = v == self.w;
                v.wrapping_sub(self.w)
            },
            "ANDWF" | "IORWF" | "XORWF" => {
                let r = match op {
                    "ANDWF" => v & self.w,
                    "IORWF" => v | self.w,
                    _ => v ^ self.w,
                };
                self.z = r == 0;
                r
            },
            "COMF" => {
                self.z = v == 0xFF;
                !v
            },
            "INCF" => {
                self.z = v == 0xFF;
                v.wrapping_add(1)
            },
            "DECF" => {
                self.z = v == 1;
                v.wrapping_sub(1)
            },
            "INCFSZ" => {
                skip = v == 0xFF;
                v.wrapping_add(1)
            },
            "DECFSZ" => {
                skip = v == 1;
                v.wrapping_sub(1)
            },
            "RLF" => {
                let r = v << 1 | self.c as u8;
                self.c = v & 0x80 != 0;
                r
            },
            "RRF" => {
                let r = v >> 1 | (self.c as u8) << 7;
                self.c = v & 1 != 0;
                r
            },
            _ => panic!("unknown operation {op}"),
        };
        if to_file || op == "CLRF" {
            let (c, z) = (self.c, self.z);
            self.write(f, r);
            self.c = c;
            self.z = z;
        } else {
            self.w = r;
        }
        if skip {
            self.skip();
        }
    }

    fn step(&mut self) {
        let word = self.words[self.pc].clone().unwrap();
        self.pc += 1;
        self.cycles += 1;
        match word {
            Word::Byte(op, f, to_file) => self.byte(&op, f, to_file),
            Word::Bit(op, f, bit) => {
                let v = self.read(f);
                match op.as_str() {
                    "BCF" => self.write(f, v & !(1 << bit)),
                    "BSF" => self.write(f, v | 1 << bit),
                    "BTFSC" => {
                        if v >> bit & 1 == 0 {
                            self.skip();
                        }
                    },
                    _ => {
                        if v >> bit & 1 == 1 {
                            self.skip();
                        }
                    },
                }
            },
            Word::Lit(op, k) => match op.as_str() {
                "MOVLW" => self.w = k,
                "RETLW" => {
                    self.w = k;
                    self.pc = self.stack.pop().unwrap();
                    self.cycles += 1;
                },
                "ADDLW" => {
                    let s = self.w as u16 + k as u16;
                    self.c = s > 255;
                    self.w = s as u8;
                    self.z = self.w == 0;
                },
                "SUBLW" => {
                    self.c = k >= self.w;
                    self.w = k.wrapping_sub(self.w);
                    self.z = self.w == 0;
                },
                _ => {
                    self.w = match op.as_str() {
                        "ANDLW" => self.w & k,
                        "IORLW" => self.w | k,
                        _ => self.w ^ k,
                    };
                    self.z = self.w == 0;
                },
            },
            Word::Call(to) => {
                self.stack.push(self.pc);
                self.jump(to);
            },
            Word::Goto(to) => self.jump(to),
            Word::Return => {
                self.pc = self.stack.pop().unwrap();
                self.cycles += 1;
            },
            Word::Sleep => self.halted = true,
            Word::Nop => {},
        }
    }

    fn run(&mut self, limit: u64) {
        while !self.halted && self.cycles < limit {
            self.step();
        }
        assert!(self.halted, "the program must halt");
    }

    fn put(&mut self, at: u16, bytes: &[u8]) {
        for (i, b) in bytes.iter().enumerate() {
            self.ram[at as usize + i] = *b;
        }
    }

    fn get(&self, at: u16, n: usize) -> u32 {
        let mut v = 0u32;
        for i in 0..n {
            v |= (self.ram[at as usize + i] as u32) << (8 * i);
        }
        v
    }
}
