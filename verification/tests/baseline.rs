//! The 12-bit core: the text of whole modules, run on a small machine.
use isel_pic::baseline::select::{select, select_with_locs};
use isel_pic::baseline::word_size;
use isel_pic::device::Device;
use isel_pic::error::IselError;
use isel_pic::names::{AddrMap, NameMap, PtrMap};
use isel_pic::ir::{
    Base, Bin, BinOp, Block, Br, BrCond, Call, CallArg, Conv, Freeze, Func, Global, Icmp, Incoming, Inst, Load, MemLen, Memcpy, Module, Param, Phi, Pointer, Pred, Ref, Ret, Select, SrcLoc, Store, Term, Ty, VaStart, Val,
};

fn device() -> Device {
    Device {
        name: "PIC12F509".to_string(),
        ram_banks: vec![(0x10, 0x1F), (0x30, 0x3F)],
        common_ram: Some((0x07, 0x0F)),
        fsr_bank_bits: 1,
        interrupt_vectors: vec![],
        flash_words: 1024,
    }
}

fn text_of(m: &Module, a: &AddrMap, p: &PtrMap) -> String {
    select(&device(), m, a, p).unwrap()
}

/// The machine after the program ran, its memory set up by `inputs`.
fn run(m: &Module, a: &AddrMap, p: &PtrMap, inputs: &[(u16, &[u8])]) -> Machine {
    let mut cpu = Machine::new(&text_of(m, a, p), false);
    for (at, bytes) in inputs {
        cpu.put(*at, bytes);
    }
    cpu.start("__start");
    cpu.run(50_000_000);
    cpu
}

fn refused(m: &Module, a: &AddrMap, p: &PtrMap) -> IselError {
    select(&device(), m, a, p).unwrap_err()
}

#[test]
fn load_and_store_i1_use_the_byte_path() {
    let m = module(
        vec![global("in", 1), global("out", 1)],
        main_of(vec![load("1", Ty::I1, "@in"), store(Ty::I1, reg("1"), "@out"), ret()]),
    );
    let text = text_of(&m, &addrs(&[("in", 0x10), ("out", 0x11), ("main::1", 0x12)]), &ptrs(vec![]));
    assert!(
        text.contains("MOVF 0x10, W") && text.contains("MOVWF 0x12"),
        "one-byte load of in into %1:\n{text}"
    );
    assert!(text.contains("MOVWF 0x11"), "one-byte store to out:\n{text}");
}

#[test]
fn store_an_i1_constant_writes_the_byte_value() {
    let m = module(
        vec![global("out", 1)],
        main_of(vec![store(Ty::I1, Val::Const(1), "@out"), ret()]),
    );
    let text = text_of(&m, &addrs(&[("out", 0x11)]), &ptrs(vec![]));
    assert!(text.contains("MOVLW 0x01"), "constant byte:\n{text}");
    assert!(text.contains("MOVWF 0x11"), "store target:\n{text}");
}

fn cycles_for(n: i64) -> u64 {
    let m = module(
        vec![],
        main_of(vec![call(None, None, "_delay", vec![(Val::Const(n), Some(Ty::I32))]), ret()]),
    );
    run(&m, &addrs(&[]), &ptrs(vec![]), &[]).cycles
}

#[test]
fn delay_delay_takes_exactly_its_count_in_cycles() {
    let base = cycles_for(0);
    for n in [
        1u64, 2, 3, 4, 5, 7, 8, 10, 100, 255, 256, 500, 768, 769, 770, 771, 772, 773, 774, 1544, 2000,
    ] {
        assert_eq!(cycles_for(n as i64) - base, n, "_delay({n}) must take exactly {n} cycles");
    }
}

#[test]
fn delay_delay_large_counts_stay_exact() {
    let base = cycles_for(0);
    for n in [50_000u64, 198_403, 198_404, 198_405, 198_406, 400_000, 1_000_000] {
        assert_eq!(cycles_for(n as i64) - base, n, "_delay({n}) must take exactly {n} cycles");
    }
}

#[test]
fn delay_delay_rejects_a_runtime_count() {
    let m = module(
        vec![],
        main_of(vec![call(None, None, "_delay", vec![(reg("r"), Some(Ty::I32))]), ret()]),
    );
    assert_eq!(refused(&m, &addrs(&[("main::r", 0x10)]), &ptrs(vec![])), IselError::DelayCount);
}

/// Globals in both banks and a read through a pointer.
#[test]
fn banked_c_runs_correctly_and_reasserts_fsr5() {
    let m = module(
        vec![global("g0", 1), global("g1", 1), global("out", 1), global("zero", 1)],
        main_of(vec![
            store(Ty::I8, Val::Const(1), "@g0"),
            store(Ty::I8, Val::Const(2), "@g1"),
            load("i", Ty::I8, "@zero"),
            load("v", Ty::I8, "%p"),
            store(Ty::I8, reg("v"), "@out"),
            ret(),
        ]),
    );
    let a = addrs(&[
        ("g0", 0x10), ("g1", 0x30), ("out", 0x31), ("zero", 0x32), ("main::i", 0x33), ("main::v", 0x11),
    ]);
    let p = ptrs(vec![("main::p", pointer(Base::Global("g0".to_string()), 0, &[(1, "i")]))]);
    let text = text_of(&m, &a, &p);
    let cpu = run(&m, &a, &p, &[(0x32, &[0])]);
    assert_eq!(cpu.get(0x31, 1), 1, "out = *&g0 = 1");
    assert!(cpu.halted);
    assert!(
        text.contains("BSF FSR, 5"),
        "banked.c must emit BSF FSR,5 for a bank-1 direct access:\n{text}"
    );
    assert!(
        text.contains("BCF FSR, 5"),
        "banked.c must emit BCF FSR,5 for bank-0/INDF accesses:\n{text}"
    );
}

/// Where the two operands and the result lie: one bank, or both.
const PLACES: [(u16, u16, u16); 3] = [(0x10, 0x12, 0x14), (0x30, 0x12, 0x36), (0x16, 0x32, 0x34)];

const SAMPLES: [u32; 9] = [0, 1, 2, 0x7F, 0x80, 0xFF, 0x100, 0x7FFF, 0xFFFE];

fn bytes_of(v: u32, n: u8) -> Vec<u8> {
    v.to_le_bytes()[..n as usize].to_vec()
}

fn masked(v: u32, n: u8) -> u32 {
    if n >= 4 {
        v
    } else {
        v & ((1u32 << (8 * n)) - 1)
    }
}

fn expected(op: BinOp, n: u8, a: u32, b: u32) -> u32 {
    let r = match op {
        BinOp::Add => a.wrapping_add(b),
        BinOp::Sub => a.wrapping_sub(b),
        BinOp::And => a & b,
        BinOp::Or => a | b,
        BinOp::Xor => a ^ b,
        BinOp::Shl => a << b,
        BinOp::LShr => a >> b,
        BinOp::AShr => {
            let s = 32 - 8 * n as u32;
            (((a << s) as i32) >> s >> b) as u32
        },
        _ => unreachable!(),
    };
    masked(r, n)
}

#[test]
fn operations_compute_in_either_bank() {
    for op in [BinOp::Add, BinOp::Sub, BinOp::And, BinOp::Or, BinOp::Xor] {
        for ty in [Ty::I8, Ty::I16] {
            let n = ty.bytes();
            for (pa, pb, pr) in PLACES {
                let m = module(
                    vec![],
                    main_of(vec![bin("r", op, ty, reg("a"), reg("b")), ret()]),
                );
                let at = addrs(&[("main::a", pa), ("main::b", pb), ("main::r", pr)]);
                for a in SAMPLES {
                    for b in SAMPLES {
                        let (a, b) = (masked(a, n), masked(b, n));
                        let cpu = run(
                            &m,
                            &at,
                            &ptrs(vec![]),
                            &[(pa, &bytes_of(a, n)), (pb, &bytes_of(b, n))],
                        );
                        assert_eq!(
                            cpu.get(pr, n as usize),
                            expected(op, n, a, b),
                            "{op:?} {ty:?} {a:#x} {b:#x}"
                        );
                    }
                }
            }
        }
    }
}

#[test]
fn operations_take_constants_on_either_side() {
    for op in [BinOp::Add, BinOp::Sub, BinOp::And, BinOp::Or, BinOp::Xor] {
        for ty in [Ty::I8, Ty::I16] {
            let n = ty.bytes();
            for a in SAMPLES {
                for b in SAMPLES {
                    let (a, b) = (masked(a, n), masked(b, n));
                    for left in [false, true] {
                        let inst = if left {
                            bin("r", op, ty, Val::Const(a as i64), reg("b"))
                        } else {
                            bin("r", op, ty, reg("a"), Val::Const(b as i64))
                        };
                        let m = module(vec![], main_of(vec![inst, ret()]));
                        let at = addrs(&[("main::a", 0x10), ("main::b", 0x30), ("main::r", 0x32)]);
                        let cpu = run(
                            &m,
                            &at,
                            &ptrs(vec![]),
                            &[(0x10, &bytes_of(a, n)), (0x30, &bytes_of(b, n))],
                        );
                        assert_eq!(
                            cpu.get(0x32, n as usize),
                            expected(op, n, a, b),
                            "{op:?} {ty:?} {a:#x} {b:#x}"
                        );
                    }
                }
            }
        }
    }
}

#[test]
fn shifts_by_a_constant() {
    for op in [BinOp::Shl, BinOp::LShr, BinOp::AShr] {
        for ty in [Ty::I8, Ty::I16] {
            let n = ty.bytes();
            for k in 0..8 * n as u32 {
                for a in SAMPLES {
                    let a = masked(a, n);
                    let m = module(
                        vec![],
                        main_of(vec![bin("r", op, ty, reg("a"), Val::Const(k as i64)), ret()]),
                    );
                    let at = addrs(&[("main::a", 0x10), ("main::r", 0x30)]);
                    let cpu = run(&m, &at, &ptrs(vec![]), &[(0x10, &bytes_of(a, n))]);
                    assert_eq!(
                        cpu.get(0x30, n as usize),
                        expected(op, n, a, k),
                        "{op:?} {ty:?} {a:#x} {k}"
                    );
                }
            }
        }
    }
}

fn holds(pred: Pred, n: u8, a: u32, b: u32) -> bool {
    let s = 32 - 8 * n as u32;
    let (sa, sb) = (((a << s) as i32) >> s, ((b << s) as i32) >> s);
    match pred {
        Pred::Eq => a == b,
        Pred::Ne => a != b,
        Pred::Ult => a < b,
        Pred::Ule => a <= b,
        Pred::Ugt => a > b,
        Pred::Uge => a >= b,
        Pred::Slt => sa < sb,
        Pred::Sle => sa <= sb,
        Pred::Sgt => sa > sb,
        Pred::Sge => sa >= sb,
    }
}

const PREDS: [Pred; 10] = [
    Pred::Eq, Pred::Ne, Pred::Ult, Pred::Ule, Pred::Ugt, Pred::Uge, Pred::Slt, Pred::Sle, Pred::Sgt,
    Pred::Sge,
];

fn compare(pred: Pred, ty: Ty, a: Val, b: Val) -> Inst {
    Inst::Icmp(Icmp { dst: "r".to_string(), pred, ty, a, b, loc: None })
}

#[test]
fn comparisons_decide() {
    for pred in PREDS {
        for ty in [Ty::I8, Ty::I16] {
            let n = ty.bytes();
            for a in SAMPLES {
                for b in SAMPLES {
                    let (a, b) = (masked(a, n), masked(b, n));
                    for shape in 0..3 {
                        let (x, y) = match shape {
                            0 => (reg("a"), reg("b")),
                            1 => (Val::Const(a as i64), reg("b")),
                            _ => (reg("a"), Val::Const(b as i64)),
                        };
                        let m = module(vec![], main_of(vec![compare(pred, ty, x, y), ret()]));
                        let at = addrs(&[("main::a", 0x12), ("main::b", 0x34), ("main::r", 0x36)]);
                        let cpu = run(
                            &m,
                            &at,
                            &ptrs(vec![]),
                            &[(0x12, &bytes_of(a, n)), (0x34, &bytes_of(b, n))],
                        );
                        assert_eq!(
                            cpu.get(0x36, 1),
                            holds(pred, n, a, b) as u32,
                            "{pred:?} {ty:?} {a:#x} {b:#x} {shape}"
                        );
                    }
                }
            }
        }
    }
}

fn conv(from: Ty, to: Ty, val: Val) -> Conv {
    Conv { dst: "r".to_string(), from, to, val, loc: None }
}

#[test]
fn conversions_keep_what_they_promise() {
    let at = addrs(&[("main::a", 0x12), ("main::r", 0x32)]);
    for a in SAMPLES {
        let src = bytes_of(a, 2);
        let low = src[0];
        let m = module(vec![], main_of(vec![Inst::Zext(conv(Ty::I8, Ty::I16, reg("a"))), ret()]));
        assert_eq!(run(&m, &at, &ptrs(vec![]), &[(0x12, &src)]).get(0x32, 2), low as u32);
        let m = module(vec![], main_of(vec![Inst::Sext(conv(Ty::I8, Ty::I16, reg("a"))), ret()]));
        let wide = low as i8 as i16 as u16 as u32;
        assert_eq!(run(&m, &at, &ptrs(vec![]), &[(0x12, &src)]).get(0x32, 2), wide);
        let m = module(vec![], main_of(vec![Inst::Trunc(conv(Ty::I16, Ty::I8, reg("a"))), ret()]));
        assert_eq!(run(&m, &at, &ptrs(vec![]), &[(0x12, &src)]).get(0x32, 1), low as u32);
        let m = module(
            vec![],
            main_of(vec![
                Inst::Freeze(Freeze { dst: "r".to_string(), ty: Ty::I16, val: reg("a"), loc: None }),
                ret(),
            ]),
        );
        assert_eq!(run(&m, &at, &ptrs(vec![]), &[(0x12, &src)]).get(0x32, 2), a);
    }
}

#[test]
fn a_select_picks_by_its_condition() {
    for cond in [0u8, 1] {
        let m = module(
            vec![],
            main_of(vec![
                Inst::Select(Select {
                    dst: "r".to_string(),
                    cond: reg("c"),
                    ty: Ty::I16,
                    a: reg("a"),
                    b: Val::Const(0x1234),
                    ptr: false,
                    loc: None,
                }),
                ret(),
            ]),
        );
        let at = addrs(&[("main::a", 0x12), ("main::c", 0x30), ("main::r", 0x32)]);
        let cpu = run(&m, &at, &ptrs(vec![]), &[(0x12, &[0xCD, 0xAB]), (0x30, &[cond])]);
        assert_eq!(cpu.get(0x32, 2), if cond == 1 { 0xABCD } else { 0x1234 });
    }
}

/// An element written at a run-time index is read back, in either bank.
#[test]
fn a_read_through_a_pointer_gives_back_the_write() {
    for base in [0x14u16, 0x34] {
        for i in 0..4u8 {
            let m = module(
                vec![global("buf", 6)],
                main_of(vec![
                    store(Ty::I16, reg("v"), "%p"),
                    load("r", Ty::I16, "%q"),
                    ret(),
                ]),
            );
            let at = addrs(&[
                ("buf", base), ("main::i", 0x10), ("main::v", 0x12), ("main::r", 0x32),
            ]);
            let p = ptrs(vec![
                ("main::p", pointer(Base::Global("buf".to_string()), 1, &[(1, "i")])),
                ("main::q", pointer(Base::Global("buf".to_string()), 1, &[(1, "i")])),
            ]);
            let cpu = run(&m, &at, &p, &[(0x10, &[i]), (0x12, &[0x21, 0x43])]);
            assert_eq!(cpu.get(0x32, 2), 0x4321);
            assert_eq!(cpu.get(base + 1 + i as u16, 2), 0x4321);
        }
    }
}

fn branch(target: &str) -> Inst {
    Inst::Br(Br { target: target.to_string(), loc: None })
}

fn phi(dst: &str, ty: Ty, incoming: Vec<(Val, &str)>) -> Inst {
    Inst::Phi(Phi {
        dst: dst.to_string(),
        ty,
        incoming: incoming.into_iter().map(|i| Incoming { val: i.0, pred: i.1.to_string() }).collect(),
        loc: None,
    })
}

/// Adds the numbers from ten down in a loop whose values travel by phis.
#[test]
fn a_loop_carries_its_values_by_phis() {
    let f = func(
        "main",
        vec![],
        vec![
            block("entry", vec![branch("loop")]),
            block(
                "loop",
                vec![
                    phi("i", Ty::I8, vec![(Val::Const(10), "entry"), (reg("j"), "loop")]),
                    phi("s", Ty::I16, vec![(Val::Const(0), "entry"), (reg("t"), "loop")]),
                    Inst::Zext(Conv {
                        dst: "w".to_string(),
                        from: Ty::I8,
                        to: Ty::I16,
                        val: reg("i"),
                        loc: None,
                    }),
                    bin("t", BinOp::Add, Ty::I16, reg("s"), reg("w")),
                    bin("j", BinOp::Sub, Ty::I8, reg("i"), Val::Const(1)),
                    Inst::Icmp(Icmp {
                        dst: "c".to_string(),
                        pred: Pred::Ne,
                        ty: Ty::I8,
                        a: reg("j"),
                        b: Val::Const(0),
                        loc: None,
                    }),
                    Inst::BrCond(BrCond {
                        cond: reg("c"),
                        t: "loop".to_string(),
                        f: "done".to_string(),
                        loc: None,
                    }),
                ],
            ),
            block("done", vec![store(Ty::I16, reg("t"), "@out"), ret()]),
        ],
    );
    let m = module(vec![global("out", 2)], vec![f]);
    let a = addrs(&[
        ("out", 0x10), ("main::i", 0x30), ("main::s", 0x32), ("main::w", 0x12), ("main::t", 0x34),
        ("main::j", 0x14), ("main::c", 0x36),
    ]);
    assert_eq!(run(&m, &a, &ptrs(vec![]), &[]).get(0x10, 2), 55);
}

#[test]
fn phis_that_swap_are_refused() {
    let f = func(
        "main",
        vec![],
        vec![
            block("entry", vec![branch("loop")]),
            block(
                "loop",
                vec![
                    phi("x", Ty::I8, vec![(Val::Const(1), "entry"), (reg("y"), "loop")]),
                    phi("y", Ty::I8, vec![(Val::Const(2), "entry"), (reg("x"), "loop")]),
                    branch("loop"),
                ],
            ),
        ],
    );
    let m = module(vec![], vec![f]);
    let a = addrs(&[("main::x", 0x10), ("main::y", 0x11)]);
    assert_eq!(refused(&m, &a, &ptrs(vec![])), IselError::PhiCycle);
}

#[test]
fn a_call_passes_arguments_and_takes_the_result() {
    let f = func(
        "f",
        vec![param("x", 2), param("y", 1)],
        vec![block(
            "entry",
            vec![
                Inst::Zext(Conv {
                    dst: "w".to_string(),
                    from: Ty::I8,
                    to: Ty::I16,
                    val: reg("y"),
                    loc: None,
                }),
                bin("s", BinOp::Sub, Ty::I16, reg("x"), reg("w")),
                Inst::Ret(Ret { val: Some((Ty::I16, reg("s"))), loc: None }),
            ],
        )],
    );
    let main = func(
        "main",
        vec![],
        vec![block(
            "entry",
            vec![
                call(
                    Some("r"),
                    Some(Ty::I16),
                    "f",
                    vec![(reg("a"), Some(Ty::I16)), (Val::Const(5), Some(Ty::I8))],
                ),
                store(Ty::I16, reg("r"), "@out"),
                ret(),
            ],
        )],
    );
    let m = module(vec![global("out", 2)], vec![f, main]);
    let a = addrs(&[
        ("out", 0x10), ("main::a", 0x30), ("main::r", 0x32), ("f::x", 0x12), ("f::y", 0x34), ("f::w", 0x14),
        ("f::s", 0x16),
    ]);
    let cpu = run(&m, &a, &ptrs(vec![]), &[(0x30, &[0x02, 0x01])]);
    assert_eq!(cpu.get(0x10, 2), 0x102 - 5);
}

/// Pointer, struct and result-pointer arguments, and the value of a pointer.
#[test]
fn pointers_are_passed_as_addresses() {
    let f = func(
        "f",
        vec![param("p", 2), param("q", 2), param("s", 3), param("r", 2)],
        vec![block("entry", vec![ret()])],
    );
    let arg = |val: Val, byval: Option<u8>, sret: bool| CallArg { val, ty: None, byval, sret };
    let main = func(
        "main",
        vec![],
        vec![block(
            "entry",
            vec![
                Inst::Call(Call {
                    dst: None,
                    ty: None,
                    func: "f".to_string(),
                    args: vec![
                        arg(reg("at"), None, false),
                        arg(reg("held"), None, false),
                        arg(Val::Global("obj".to_string()), Some(3), false),
                        arg(Val::Global("res".to_string()), None, true),
                    ],
                    callees: vec![],
                    loc: None,
                }),
                store(Ty::I16, reg("at"), "@out"),
                ret(),
            ],
        )],
    );
    let mut m = module(vec![global("obj", 3), global("res", 2), global("out", 2)], vec![f, main]);
    m.funcs[0].params[0].ptr = true;
    m.funcs[0].params[1].ptr = true;
    m.funcs[0].params[2].byval = Some(3);
    m.funcs[0].params[3].sret = true;
    let a = addrs(&[
        ("obj", 0x10), ("res", 0x3A), ("out", 0x14), ("main::i", 0x34), ("main::keep", 0x35), ("f::p", 0x16),
        ("f::q", 0x18), ("f::s", 0x30), ("f::r", 0x1A),
    ]);
    let p = ptrs(vec![
        ("main::at", pointer(Base::Global("obj".to_string()), 0, &[(1, "i")])),
        ("main::held", pointer(Base::Slot("keep".to_string(), true), 2, &[])),
    ]);
    let cpu = run(&m, &a, &p, &[(0x34, &[1]), (0x35, &[0x30, 0]), (0x10, &[7, 8, 9])]);
    assert_eq!(cpu.get(0x16, 2), 0x11);
    assert_eq!(cpu.get(0x18, 2), 0x32);
    assert_eq!(cpu.get(0x30, 3), 0x09_0807);
    assert_eq!(cpu.get(0x1A, 2), 0x3A);
    assert_eq!(cpu.get(0x14, 2), 0x11);
}

#[test]
fn constants_in_ram_are_initialised_at_start() {
    let mut m = module(
        vec![constant("tab", &[1, 2, 0, 0], &[(2, "f"), (3, "f")])],
        main_of(vec![ret()]),
    );
    m.funcs.push(func("f", vec![], vec![block("entry", vec![ret()])]));
    let a = addrs(&[("tab", 0x30)]);
    let cpu = run(&m, &a, &ptrs(vec![]), &[]);
    assert_eq!(cpu.get(0x30, 2), 0x0201);
    assert_eq!(cpu.get(0x32, 2) as usize, lookup(&cpu.labels, "f"));
}

#[test]
fn memory_is_copied_byte_by_byte() {
    let m = module(
        vec![global("src", 4), global("dst", 4)],
        main_of(vec![
            Inst::Memcpy(Memcpy {
                dst: Val::Global("dst".to_string()),
                src: Val::Global("src".to_string()),
                len: MemLen::Const(4),
                loc: None,
            }),
            ret(),
        ]),
    );
    let a = addrs(&[("src", 0x12), ("dst", 0x3A)]);
    let cpu = run(&m, &a, &ptrs(vec![]), &[(0x12, &[9, 8, 7, 6])]);
    assert_eq!(cpu.get(0x3A, 4), 0x0607_0809);
}

#[test]
fn every_line_has_a_location() {
    let located = Inst::Load(Load {
        dst: "v".to_string(),
        ty: Ty::I8,
        ptr: "@in".to_string(),
        loc: Some(SrcLoc(7)),
    });
    let mut m = module(vec![global("in", 1)], main_of(vec![located, ret()]));
    m.module_asm = vec!["    NOP\n    NOP".to_string()];
    let a = addrs(&[("in", 0x10), ("main::v", 0x11)]);
    let (text, locs) = select_with_locs(&device(), &m, &a, &ptrs(vec![])).unwrap();
    let lines: Vec<&str> = text.lines().collect();
    assert_eq!(lines.len(), locs.len());
    for (line, loc) in lines.iter().zip(locs.iter()) {
        if *line == "    MOVF 0x10, W" || *line == "    MOVWF 0x11" {
            assert_eq!(*loc, Some(SrcLoc(7)));
        } else if *line != "    BCF FSR, 5" {
            assert_eq!(*loc, None, "{line}");
        }
    }
}

#[test]
fn devices_the_core_cannot_use_are_refused() {
    let m = module(vec![], main_of(vec![ret()]));
    let mut d = device();
    d.common_ram = None;
    assert_eq!(select(&d, &m, &addrs(&[]), &ptrs(vec![])), Err(IselError::NoCommonRam));
    d.common_ram = Some((0x07, 0x0C));
    assert_eq!(select(&d, &m, &addrs(&[]), &ptrs(vec![])), Err(IselError::CommonRamTooSmall));
    d.common_ram = Some((0x07, 0x0D));
    assert!(select(&d, &m, &addrs(&[]), &ptrs(vec![])).is_ok());
}

#[test]
fn programs_past_the_reach_of_a_call_are_refused() {
    let fits = module(
        vec![],
        main_of(vec![call(None, None, "_delay", vec![(Val::Const(4), Some(Ty::I32))]), ret()]),
    );
    assert!(select(&device(), &fits, &addrs(&[]), &ptrs(vec![])).is_ok());
    let mut insts: Vec<Inst> = Vec::new();
    for _ in 0..130 {
        insts.push(store(Ty::I8, Val::Const(1), "@g"));
    }
    insts.push(ret());
    let m = module(vec![global("g", 1)], main_of(insts));
    assert_eq!(refused(&m, &addrs(&[("g", 0x30)]), &ptrs(vec![])), IselError::CallCeiling);
}

/// The reset code, a return and the reset jump make four words; the rest of the
/// ceiling is open to module assembly, to the last word.
#[test]
fn module_assembly_counts_towards_the_reach_of_a_call() {
    let mut m = module(vec![], main_of(vec![ret()]));
    m.module_asm = vec!["    NOP\n".repeat(252)];
    let text = text_of(&m, &addrs(&[]), &ptrs(vec![]));
    let lines: Vec<String> = text.lines().map(|l| l.to_string()).collect();
    assert_eq!(word_size(&lines), 256);
    m.module_asm = vec!["    NOP\n".repeat(253)];
    assert_eq!(refused(&m, &addrs(&[]), &ptrs(vec![])), IselError::CallCeiling);
}

/// So do the bank selects of the reset code: a constant in banked RAM takes
/// three words a byte.
#[test]
fn bank_selects_count_towards_the_reach_of_a_call() {
    let names = ["a", "b", "c", "d", "e", "f"];
    let m = |n: usize| {
        let tables = names[..n].iter().map(|x| constant(x, &[1u8; 16], &[])).collect();
        module(tables, main_of(vec![ret()]))
    };
    let a = addrs(&[("a", 0x30), ("b", 0x30), ("c", 0x30), ("d", 0x30), ("e", 0x30), ("f", 0x30)]);
    let text = text_of(&m(5), &a, &ptrs(vec![]));
    let lines: Vec<String> = text.lines().map(|l| l.to_string()).collect();
    assert_eq!(word_size(&lines), 4 + 3 * 80);
    assert_eq!(refused(&m(6), &a, &ptrs(vec![])), IselError::CallCeiling);
}

/// An address field of a constant in RAM holds the address of a global in RAM.
#[test]
fn address_fields_of_constants_hold_addresses() {
    let m = module(
        vec![constant("tab", &[0, 0], &[(0, "g"), (1, "g")]), global("g", 1)],
        main_of(vec![ret()]),
    );
    let cpu = run(&m, &addrs(&[("tab", 0x30), ("g", 0x14)]), &ptrs(vec![]), &[]);
    assert_eq!(cpu.get(0x30, 2), 0x0014);
}

#[test]
fn handlers_and_routines_are_refused() {
    let mut m = module(vec![], main_of(vec![ret()]));
    m.funcs.push(func("isr", vec![], vec![block("entry", vec![ret()])]));
    m.funcs[1].isr = true;
    assert_eq!(refused(&m, &addrs(&[]), &ptrs(vec![])), IselError::InterruptOnBaseline);
    let m = module(vec![], vec![func("__mul_u8", vec![param("a", 1), param("b", 1)], vec![])]);
    assert_eq!(refused(&m, &addrs(&[]), &ptrs(vec![])), IselError::RuntimeRoutine);
}

/// The error that a function of these instructions gives. The last of them that
/// can end a block ends it.
fn error_of(insts: Vec<Inst>) -> IselError {
    let mut insts = insts;
    insts.insert(0, ret());
    let m = module(
        vec![global("g", 2), constant("table", &[1, 2, 3], &[])],
        vec![
            func("main", vec![], vec![block("entry", insts)]),
            func("f", vec![param("p", 1)], vec![block("entry", vec![ret()])]),
            func("h", vec![param("p", 2)], vec![block("entry", vec![ret()])]),
        ],
    );
    let a = addrs(&[
        ("g", 0x10), ("main::a", 0x12), ("main::b", 0x14), ("main::r", 0x16), ("main::far", 0x40),
        ("f::p", 0x30), ("h::p", 0x32), ("far", 0x50), ("main::s", 0x18),
    ]);
    let g = "g".to_string();
    let p = ptrs(vec![
        ("main::wide", pointer(Base::Global(g.clone()), 0, &[(1, "a"), (1, "b"), (1, "s")])),
        ("main::both", pointer(Base::Global(g.clone()), 1, &[(1, "a")])),
        ("main::tab", pointer(Base::Global("table".to_string()), 0, &[])),
        ("main::high", pointer(Base::Global(g), 0x80, &[])),
    ]);
    refused(&m, &a, &p)
}

fn through(pointer: &str, callee: &str) -> Inst {
    let mut c = call(None, None, pointer, vec![]);
    if let Inst::Call(x) = &mut c {
        x.callees = vec![callee.to_string()];
    }
    c
}

#[test]
fn instructions_that_cannot_be_lowered_are_refused() {
    let add = BinOp::Add;
    assert_eq!(error_of(vec![load("r", Ty::I8, "0xZZ")]), IselError::MalformedLiteralPointer);
    assert_eq!(error_of(vec![load("r", Ty::I8, "g")]), IselError::MalformedPointer);
    assert_eq!(error_of(vec![load("r", Ty::I8, "@nowhere")]), IselError::NoAddress);
    assert_eq!(error_of(vec![load("q", Ty::I8, "@g")]), IselError::NoSlot);
    assert_eq!(error_of(vec![load("r", Ty::I8, "%q")]), IselError::UnresolvedPointer);
    assert_eq!(error_of(vec![load("r", Ty::I8, "%tab")]), IselError::ConstTableRead);
    assert_eq!(error_of(vec![store(Ty::I8, Val::Const(0), "%tab")]), IselError::StoreToConst);
    assert_eq!(error_of(vec![load("r", Ty::I8, "%high")]), IselError::DataSpaceRange);
    assert_eq!(
        error_of(vec![bin("r", add, Ty::I8, Val::Const(1), Val::Const(2))]),
        IselError::ConstantFolding
    );
    assert_eq!(
        error_of(vec![bin("r", add, Ty::I16, reg("a"), Val::Global("g".to_string()))]),
        IselError::GlobalOperand
    );
    assert_eq!(error_of(vec![bin("r", add, Ty::I32, reg("a"), reg("b"))]), IselError::WideArithmetic);
    assert_eq!(
        error_of(vec![bin("r", BinOp::Mul, Ty::I8, reg("a"), reg("b"))]),
        IselError::NotLegalized
    );
    assert_eq!(
        error_of(vec![bin("r", BinOp::Shl, Ty::I8, reg("a"), reg("b"))]),
        IselError::VariableShift
    );
    assert_eq!(
        error_of(vec![bin("r", BinOp::Shl, Ty::I8, reg("a"), Val::Const(9))]),
        IselError::ShiftRange
    );
    assert_eq!(
        error_of(vec![Inst::Zext(conv(Ty::I16, Ty::I8, reg("a")))]),
        IselError::ZextNarrows
    );
    assert_eq!(
        error_of(vec![Inst::IntToPtr(conv(Ty::I8, Ty::I16, reg("a")))]),
        IselError::IntToPtrWidth
    );
    assert_eq!(error_of(vec![Inst::Sext(conv(Ty::I16, Ty::I8, reg("a")))]), IselError::SextWidth);
    assert_eq!(
        error_of(vec![Inst::Sext(conv(Ty::I8, Ty::I16, Val::Const(1)))]),
        IselError::SextConst
    );
    assert_eq!(error_of(vec![Inst::Trunc(conv(Ty::I8, Ty::I16, reg("a")))]), IselError::TruncWidens);
    assert_eq!(error_of(vec![through("a", "nobody")]), IselError::UnknownFunction);
    assert_eq!(
        error_of(vec![call(Some("r"), None, "f", vec![(reg("a"), Some(Ty::I8))])]),
        IselError::UntypedCall
    );
    assert_eq!(
        error_of(vec![call(None, None, "f", vec![(Val::Global("g".to_string()), None)])]),
        IselError::PointerParamWidth
    );
    assert_eq!(
        error_of(vec![call(None, None, "h", vec![(Val::Const(5), None)])]),
        IselError::NonNullConstPointer
    );
    assert_eq!(
        error_of(vec![call(None, None, "h", vec![(Val::Global("table".to_string()), None)])]),
        IselError::ConstTooLarge
    );
    assert_eq!(
        error_of(vec![call(None, None, "f", vec![
            (reg("a"), Some(Ty::I8)), (reg("b"), Some(Ty::I8)),
        ])]),
        IselError::Variadic
    );
    assert_eq!(
        error_of(vec![call(None, None, "h", vec![(reg("wide"), None)])]),
        IselError::TooManyTerms
    );
    assert_eq!(
        error_of(vec![store(Ty::I16, reg("both"), "@g")]),
        IselError::OffsetWithTerms
    );
    assert_eq!(
        error_of(vec![Inst::Memcpy(Memcpy {
            dst: Val::Global("g".to_string()),
            src: Val::Global("g".to_string()),
            len: MemLen::Reg(reg("a")),
            loc: None,
        })]),
        IselError::DynamicMemcpy
    );
    assert_eq!(
        error_of(vec![Inst::Memcpy(Memcpy {
            dst: Val::Const(3),
            src: Val::Global("g".to_string()),
            len: MemLen::Const(1),
            loc: None,
        })]),
        IselError::ConstPointer
    );
    assert_eq!(
        error_of(vec![Inst::VaStart(VaStart { list: "a".to_string(), loc: None })]),
        IselError::Variadic
    );
    assert_eq!(
        error_of(vec![Inst::BrCond(BrCond {
            cond: Val::Global("g".to_string()),
            t: "entry".to_string(),
            f: "entry".to_string(),
            loc: None,
        })]),
        IselError::BranchOnGlobal
    );
    assert_eq!(error_of(vec![branch("nowhere")]), IselError::UnknownBlock);
}

fn reg(name: &str) -> Val {
    Val::Reg(name.to_string())
}

fn load(dst: &str, ty: Ty, ptr: &str) -> Inst {
    Inst::Load(Load { dst: dst.to_string(), ty, ptr: ptr.to_string(), loc: None })
}

fn store(ty: Ty, val: Val, ptr: &str) -> Inst {
    Inst::Store(Store { ty, val, ptr: ptr.to_string(), loc: None })
}

fn bin(dst: &str, op: BinOp, ty: Ty, a: Val, b: Val) -> Inst {
    Inst::Bin(Bin { dst: dst.to_string(), op, ty, a, b, loc: None })
}

fn ret() -> Inst {
    Inst::Ret(Ret { val: None, loc: None })
}

fn block(label: &str, insts: Vec<Inst>) -> Block {
    Block { label: label.to_string(), insts }
}

fn func(name: &str, params: Vec<Param>, blocks: Vec<Block>) -> Func {
    Func { name: name.to_string(), params, blocks, naked: false, isr: false }
}

fn param(name: &str, width: u8) -> Param {
    Param { name: name.to_string(), width, ptr: false, byval: None, sret: false }
}

fn global(name: &str, size: u16) -> Global {
    Global { name: name.to_string(), is_const: false, size, bytes: vec![], refs: vec![] }
}

fn constant(name: &str, bytes: &[u8], refs: &[(usize, &str)]) -> Global {
    Global {
        name: name.to_string(),
        is_const: true,
        size: bytes.len() as u16,
        bytes: bytes.to_vec(),
        refs: refs.iter().map(|r| Ref { offset: r.0, name: r.1.to_string() }).collect(),
    }
}

fn module(globals: Vec<Global>, funcs: Vec<Func>) -> Module {
    Module { funcs, globals, module_asm: vec![] }
}

fn main_of(insts: Vec<Inst>) -> Vec<Func> {
    vec![func("main", vec![], vec![block("entry", insts)])]
}

fn call(dst: Option<&str>, ty: Option<Ty>, name: &str, args: Vec<(Val, Option<Ty>)>) -> Inst {
    Inst::Call(Call {
        dst: dst.map(|d| d.to_string()),
        ty,
        func: name.to_string(),
        args: args.into_iter().map(|a| CallArg { val: a.0, ty: a.1, byval: None, sret: false }).collect(),
        callees: vec![],
        loc: None,
    })
}

fn addrs(pairs: &[(&str, u16)]) -> AddrMap {
    let mut m = NameMap::new();
    for (name, at) in pairs {
        m.insert(name.to_string(), *at);
    }
    m
}

fn ptrs(list: Vec<(&str, Pointer)>) -> PtrMap {
    let mut m = NameMap::new();
    for (name, p) in list {
        m.insert(name.to_string(), p);
    }
    m
}

fn pointer(base: Base, k: u8, terms: &[(u8, &str)]) -> Pointer {
    Pointer {
        base,
        k,
        terms: terms.iter().map(|t| Term { scale: t.0, reg: t.1.to_string() }).collect(),
    }
}

/// A file register operand.
#[derive(Clone, Copy, PartialEq, Debug)]
enum File {
    Ram(usize),
    Status,
    Fsr,
    Indf,
    Fsr0L,
    Fsr0H,
    Indf0,
    Pcl,
    Pclath,
}

#[derive(Clone, PartialEq, Debug)]
enum Word {
    /// An operation on a file register; the flag sends the result to it.
    Byte(String, File, bool),
    Bit(String, File, u8),
    Lit(String, u8),
    Call(usize),
    Goto(usize),
    Return,
    Sleep,
    Nop,
}

/// A machine that runs the text of a program. On the banked core an operand is
/// five bits wide and FSR gives the bank; on the enhanced core operands are full
/// addresses and FSR0 also reaches the linear data region.
struct Machine {
    enhanced: bool,
    words: Vec<Option<Word>>,
    labels: Vec<(String, usize)>,
    ram: Vec<u8>,
    w: u8,
    c: bool,
    z: bool,
    fsr: u8,
    fsr0: usize,
    pclath: u8,
    pc: usize,
    stack: Vec<usize>,
    cycles: u64,
    halted: bool,
}

fn number(text: &str) -> usize {
    match usize::from_str_radix(text.trim_start_matches("0x"), 16) {
        Ok(n) => n,
        Err(_) => panic!("no number: {text}"),
    }
}

fn file(text: &str) -> File {
    match text {
        "STATUS" => File::Status,
        "FSR" => File::Fsr,
        "INDF" => File::Indf,
        "FSR0L" => File::Fsr0L,
        "FSR0H" => File::Fsr0H,
        "INDF0" => File::Indf0,
        "PCL" => File::Pcl,
        "PCLATH" => File::Pclath,
        _ => File::Ram(number(text)),
    }
}

fn lookup(labels: &[(String, usize)], name: &str) -> usize {
    for (label, at) in labels {
        if label == name {
            return *at;
        }
    }
    panic!("no label {name}")
}

fn literal(labels: &[(String, usize)], text: &str) -> u8 {
    if text.starts_with("0x") {
        return number(text) as u8;
    }
    let open = text.find('(').unwrap();
    let at = lookup(labels, &text[open + 1..text.len() - 1]);
    match &text[..open] {
        "LOW" => at as u8,
        "HIGH" => (at >> 8) as u8,
        "PAGE" => (at >> 8) as u8 & 0x78,
        other => panic!("unknown operator {other}"),
    }
}

/// The lines of a text without comments and blanks.
fn code_lines(text: &str) -> Vec<String> {
    let mut out = Vec::new();
    for line in text.lines() {
        let code = line.split(';').next().unwrap().trim();
        if !code.is_empty() {
            out.push(code.to_string());
        }
    }
    out
}

fn is_directive(line: &str) -> bool {
    line.starts_with("list") || line.starts_with("radix") || line == "end" || line.contains(" equ ")
        || line.contains(" EQU ") || line.starts_with("processor")
}

impl Machine {
    fn new(text: &str, enhanced: bool) -> Machine {
        let lines = code_lines(text);
        let mut labels: Vec<(String, usize)> = Vec::new();
        let mut placed: Vec<(usize, String)> = Vec::new();
        let mut at = 0usize;
        for line in &lines {
            if let Some(label) = line.strip_suffix(':') {
                for (other, _) in &labels {
                    assert_ne!(other, label, "a label stands twice");
                }
                labels.push((label.to_string(), at));
            } else if let Some(org) = line.strip_prefix("org ") {
                assert!(number(org) >= at, "org goes back");
                at = number(org);
            } else if line == ".align 256" {
                at = (at + 255) / 256 * 256;
            } else if line.starts_with(".table") || is_directive(line) {
            } else {
                placed.push((at, line.clone()));
                at += 1;
            }
        }
        let mut words: Vec<Option<Word>> = vec![None; at];
        for (at, line) in &placed {
            words[*at] = Some(Machine::word(&labels, line));
        }
        Machine {
            enhanced,
            words,
            labels,
            ram: vec![0xA5; 0x1000],
            w: 0x5A,
            c: true,
            z: true,
            fsr: 0,
            fsr0: 0,
            pclath: 0,
            pc: 0,
            stack: Vec::new(),
            cycles: 0,
            halted: false,
        }
    }

    fn word(labels: &[(String, usize)], line: &str) -> Word {
        let mut parts = line.splitn(2, ' ');
        let op = parts.next().unwrap().to_uppercase();
        let rest = parts.next().unwrap_or("").trim();
        let args: Vec<&str> = rest.split(", ").map(|a| a.trim()).collect();
        match op.as_str() {
            "CALL" => Word::Call(lookup(labels, rest)),
            "GOTO" => Word::Goto(lookup(labels, rest)),
            "RETURN" | "RETFIE" => Word::Return,
            "SLEEP" => Word::Sleep,
            "NOP" => Word::Nop,
            "MOVLW" | "ADDLW" | "ANDLW" | "IORLW" | "SUBLW" | "XORLW" | "RETLW" => {
                Word::Lit(op, literal(labels, rest))
            },
            "BCF" | "BSF" | "BTFSC" | "BTFSS" => Word::Bit(op, file(args[0]), args[1].parse().unwrap()),
            "MOVWF" | "CLRF" => Word::Byte(op, file(args[0]), true),
            _ => Word::Byte(op, file(args[0]), args[1] == "F"),
        }
    }

    fn start(&mut self, name: &str) {
        self.pc = lookup(&self.labels, name);
    }

    /// The data address behind a direct operand.
    fn direct(&self, a: usize) -> usize {
        if self.enhanced {
            a
        } else {
            assert!(a < 32, "an operand field has five bits");
            if a < 16 {
                a
            } else {
                a + ((self.fsr >> 5) as usize & 1) * 32
            }
        }
    }

    fn indirect(&self) -> usize {
        if !self.enhanced {
            let a = self.fsr as usize & 0x3F;
            return if a % 32 < 16 { a % 32 } else { a };
        }
        if self.fsr0 >= 0x2000 {
            let off = self.fsr0 - 0x2000;
            return off / 80 * 128 + 0x20 + off % 80;
        }
        if self.fsr0 % 128 >= 0x70 {
            return self.fsr0 % 128;
        }
        self.fsr0
    }

    fn read(&self, f: File) -> u8 {
        match f {
            File::Ram(a) => self.ram[self.direct(a)],
            File::Status => (self.c as u8) | (self.z as u8) << 2,
            File::Fsr => self.fsr,
            File::Indf | File::Indf0 => self.ram[self.indirect()],
            File::Fsr0L => self.fsr0 as u8,
            File::Fsr0H => (self.fsr0 >> 8) as u8,
            File::Pcl => self.pc as u8,
            File::Pclath => self.pclath,
        }
    }

    fn write(&mut self, f: File, v: u8) {
        match f {
            File::Ram(a) => {
                let at = self.direct(a);
                self.ram[at] = v;
            },
            File::Status => {
                self.c = v & 1 != 0;
                self.z = v & 4 != 0;
            },
            File::Fsr => self.fsr = v,
            File::Indf | File::Indf0 => {
                let at = self.indirect();
                self.ram[at] = v;
            },
            File::Fsr0L => self.fsr0 = self.fsr0 & 0xFF00 | v as usize,
            File::Fsr0H => self.fsr0 = self.fsr0 & 0xFF | (v as usize) << 8,
            File::Pcl => {
                self.pc = (self.pclath as usize) << 8 | v as usize;
                self.cycles += 1;
            },
            File::Pclath => self.pclath = v,
        }
    }

    fn skip(&mut self) {
        self.pc += 1;
        self.cycles += 1;
    }

    fn jump(&mut self, to: usize) {
        if self.enhanced {
            assert_eq!(to >> 11, (self.pclath >> 3) as usize, "PCLATH names another page");
        }
        self.pc = to;
        self.cycles += 1;
    }

    fn byte(&mut self, op: &str, f: File, to_file: bool) {
        let v = self.read(f);
        let mut skip = false;
        let r = match op {
            "MOVWF" => {
                self.write(f, self.w);
                return;
            },
            "CLRF" => {
                self.z = true;
                0
            },
            "MOVF" => {
                self.z = v == 0;
                v
            },
            "ADDWF" => {
                let s = self.w as u16 + v as u16;
                self.c = s > 255;
                self.z = s as u8 == 0;
                s as u8
            },
            "SUBWF" => {
                self.c = v >= self.w;
                self.z = v == self.w;
                v.wrapping_sub(self.w)
            },
            "ANDWF" | "IORWF" | "XORWF" => {
                let r = match op {
                    "ANDWF" => v & self.w,
                    "IORWF" => v | self.w,
                    _ => v ^ self.w,
                };
                self.z = r == 0;
                r
            },
            "COMF" => {
                self.z = v == 0xFF;
                !v
            },
            "INCF" => {
                self.z = v == 0xFF;
                v.wrapping_add(1)
            },
            "DECF" => {
                self.z = v == 1;
                v.wrapping_sub(1)
            },
            "INCFSZ" => {
                skip = v == 0xFF;
                v.wrapping_add(1)
            },
            "DECFSZ" => {
                skip = v == 1;
                v.wrapping_sub(1)
            },
            "RLF" => {
                let r = v << 1 | self.c as u8;
                self.c = v & 0x80 != 0;
                r
            },
            "RRF" => {
                let r = v >> 1 | (self.c as u8) << 7;
                self.c = v & 1 != 0;
                r
            },
            _ => panic!("unknown operation {op}"),
        };
        if to_file || op == "CLRF" {
            let (c, z) = (self.c, self.z);
            self.write(f, r);
            self.c = c;
            self.z = z;
        } else {
            self.w = r;
        }
        if skip {
            self.skip();
        }
    }

    fn step(&mut self) {
        let word = self.words[self.pc].clone().unwrap();
        self.pc += 1;
        self.cycles += 1;
        match word {
            Word::Byte(op, f, to_file) => self.byte(&op, f, to_file),
            Word::Bit(op, f, bit) => {
                let v = self.read(f);
                match op.as_str() {
                    "BCF" => self.write(f, v & !(1 << bit)),
                    "BSF" => self.write(f, v | 1 << bit),
                    "BTFSC" => {
                        if v >> bit & 1 == 0 {
                            self.skip();
                        }
                    },
                    _ => {
                        if v >> bit & 1 == 1 {
                            self.skip();
                        }
                    },
                }
            },
            Word::Lit(op, k) => match op.as_str() {
                "MOVLW" => self.w = k,
                "RETLW" => {
                    self.w = k;
                    self.pc = self.stack.pop().unwrap();
                    self.cycles += 1;
                },
                "ADDLW" => {
                    let s = self.w as u16 + k as u16;
                    self.c = s > 255;
                    self.w = s as u8;
                    self.z = self.w == 0;
                },
                "SUBLW" => {
                    self.c = k >= self.w;
                    self.w = k.wrapping_sub(self.w);
                    self.z = self.w == 0;
                },
                _ => {
                    self.w = match op.as_str() {
                        "ANDLW" => self.w & k,
                        "IORLW" => self.w | k,
                        _ => self.w ^ k,
                    };
                    self.z = self.w == 0;
                },
            },
            Word::Call(to) => {
                self.stack.push(self.pc);
                self.jump(to);
            },
            Word::Goto(to) => self.jump(to),
            Word::Return => {
                self.pc = self.stack.pop().unwrap();
                self.cycles += 1;
            },
            Word::Sleep => self.halted = true,
            Word::Nop => {},
        }
    }

    fn run(&mut self, limit: u64) {
        while !self.halted && self.cycles < limit {
            self.step();
        }
        assert!(self.halted, "the program must halt");
    }

    fn put(&mut self, at: u16, bytes: &[u8]) {
        for (i, b) in bytes.iter().enumerate() {
            self.ram[at as usize + i] = *b;
        }
    }

    fn get(&self, at: u16, n: usize) -> u32 {
        let mut v = 0u32;
        for i in 0..n {
            v |= (self.ram[at as usize + i] as u32) << (8 * i);
        }
        v
    }
}
