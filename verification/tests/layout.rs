//! Layout arithmetic, and the checks that read assembly text.
use isel_pic::ctx::{literal_ptr_addr, parse_literal_ptr};
use isel_pic::delay::count32;
use isel_pic::error::IselError;
use isel_pic::ir::{Block, Func, Global, Inst, Module, Ret};
use isel_pic::output::word_size;
use isel_pic::pic14e::layout::{chunk_count, find_end_org, measure_end_org, verify_page_fit, window_align};
use isel_pic::runtime::{routine_recipe, Routine};

fn lines(text: &[&str]) -> Vec<String> {
    text.iter().map(|l| l.to_string()).collect()
}

fn module_with(funcs: &[&str], tables: &[&str]) -> Module {
    let mut m = Module { funcs: vec![], globals: vec![], module_asm: vec![] };
    for name in funcs {
        m.funcs.push(Func {
            name: name.to_string(),
            params: vec![],
            blocks: vec![Block {
                label: "entry".to_string(),
                insts: vec![Inst::Ret(Ret { val: None, loc: None })],
            }],
            naked: false,
            isr: false,
        });
    }
    for name in tables {
        m.globals.push(Global {
            name: name.to_string(),
            is_const: true,
            size: 1,
            bytes: vec![0],
            refs: vec![],
        });
    }
    m
}

#[test]
fn words_are_instruction_lines() {
    assert_eq!(word_size(&lines(&[])), 0);
    assert_eq!(word_size(&lines(&["f:", "    NOP", "", "; note", "    ; note", "    RETURN"])), 2);
}

#[test]
fn literal_pointers_are_sixteen_bit_hexadecimal() {
    assert_eq!(literal_ptr_addr("0x05"), 5);
    assert_eq!(literal_ptr_addr("0xFFFF"), 0xFFFF);
    assert_eq!(literal_ptr_addr("0xfe"), 0xFE);
    assert_eq!(parse_literal_ptr("0x05"), Some(5));
    assert_eq!(parse_literal_ptr("0x10000"), None);
    assert_eq!(parse_literal_ptr("0x"), None);
    assert_eq!(parse_literal_ptr("12"), None);
    assert_eq!(parse_literal_ptr("0x1G"), None);
}

#[test]
fn delay_counts_are_taken_modulo_32_bits() {
    assert_eq!(count32(5), 5);
    assert_eq!(count32(-1), u32::MAX);
    assert_eq!(count32(0x1_0000_0002), 2);
}

#[test]
fn a_window_moves_a_table_only_when_it_would_cross() {
    assert_eq!(window_align(0x100, 256), 0x100);
    assert_eq!(window_align(0x101, 255), 0x101);
    assert_eq!(window_align(0x101, 256), 0x200);
    assert_eq!(window_align(0x1F0, 16), 0x1F0);
    assert_eq!(window_align(0x1F0, 17), 0x200);
}

#[test]
fn tables_are_cut_into_chunks() {
    assert_eq!(chunk_count(1), 1);
    let one = chunk_count(255);
    assert_eq!(one, 1);
    assert!(chunk_count(512) >= 2);
    assert!(chunk_count(65535) <= 256);
}

#[test]
fn the_end_of_a_text_is_measured() {
    assert_eq!(measure_end_org("    NOP\n    NOP\n"), 2);
    assert_eq!(measure_end_org("    org 0x0010\nf:\n    NOP\n"), 0x11);
    assert_eq!(measure_end_org("    NOP\n    .align 256\n    NOP\n"), 0x101);
    assert_eq!(find_end_org("    org 0xZZ\n"), None);
}

#[test]
fn a_function_across_two_pages_is_refused() {
    let m = module_with(&["f", "g"], &["t"]);
    let good = "    org 0x07FE\nf:\n    NOP\n    NOP\ng:\n    NOP\n";
    assert_eq!(verify_page_fit(&m, good), Ok(()));
    let bad = "    org 0x07FE\nf:\n    NOP\n    NOP\n    NOP\ng:\n    NOP\n";
    assert_eq!(verify_page_fit(&m, bad), Err(IselError::SpansPages));
    assert_eq!(verify_page_fit(&m, "    org 0x07FE\nother:\n    NOP\n    NOP\n    NOP\n"), Ok(()));
    assert_eq!(verify_page_fit(&m, "    org zero\n"), Err(IselError::MalformedText));
    let reader = "    org 0x07FE\n__read_t:\n    NOP\n    NOP\n    NOP\n";
    assert_eq!(verify_page_fit(&m, reader), Err(IselError::SpansPages));
}

#[test]
fn routines_are_known_by_name() {
    assert_eq!(routine_recipe("__mul_u8"), Some(Routine::Mul(1)));
    assert_eq!(routine_recipe("__srem_i32"), Some(Routine::SRem(4)));
    assert_eq!(routine_recipe("__ashr_i16_isr"), Some(Routine::AShr(2)));
    assert_eq!(routine_recipe("__fptosi_f32_isr"), Some(Routine::FToInt));
    assert_eq!(routine_recipe("__mul_u64"), None);
    assert_eq!(routine_recipe("_isr"), None);
    assert_eq!(routine_recipe("main"), None);
}

#[test]
fn literal_pointers_give_back_their_number() {
    for k in 0..=0xFFFFu16 {
        for text in [format!("0x{k:X}"), format!("0x{k:x}"), format!("0x{k:04X}"), format!("0x{k:04x}")] {
            assert_eq!(literal_ptr_addr(&text), k, "{text}");
        }
    }
}

#[test]
fn comments_and_blanks_do_not_count() {
    for line in ["    NOP", "f:", "", "STATUS equ 0x03", "    org 0x0010"] {
        let size = word_size(&lines(&[line]));
        for other in [format!("{line} ; note"), format!("{line}; RETURN"), format!("  {line}\t"), format!("{line}   ")] {
            assert_eq!(word_size(&[other.clone()]), size, "{other}");
        }
    }
}

#[test]
fn the_end_of_plain_lines_is_their_word_count() {
    let text = ["f:", "    NOP", "", "; note", "X equ 0x05", "    RETURN", "g:", "    CALL f"];
    assert_eq!(measure_end_org(&text.join("\n")), word_size(&lines(&text)));
    assert_eq!(measure_end_org(""), 0);
}

#[test]
fn nothing_after_the_end_counts() {
    let code = "    org 0x0004\nf:\n    NOP\n    RETURN";
    let end = measure_end_org(code);
    assert_eq!(end, 6);
    for rest in ["", "    NOP\n    NOP", "    org 0x0400\n    NOP"] {
        assert_eq!(measure_end_org(&format!("{code}\n    end\n{rest}")), end);
        assert_eq!(measure_end_org(&format!("{code}\n__read_t:\n{rest}")), end);
    }
}
