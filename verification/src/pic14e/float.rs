//! Soft single-precision floating point: the bodies of the float routines.
//!
//! A number is four bytes, low byte first: 23 bits of fraction, 8 bits of
//! biased exponent, the sign. The operands sit in the parameter slots, the
//! working bytes at `scr`, the result leaves in the four result bytes. The
//! labels of a body are numbered consecutively from `l`.
use vstd::prelude::*;
use crate::emit::{
    at, clrf, f_op, goto_tmp, label_at, label_tmp, lit, movf, movlw, movwf, on_c, on_z, ram_bit, w_op,
    Emitter, St,
};
use crate::line::{BitOp, Line, LitOp, Op};
use crate::pic14e::Gen;

verus! {

impl<'a> Gen<'a> {
    /// The bytes at `x` and `y` change places. Each xor takes its operand from W,
    /// so W is loaded anew between them.
    pub open spec fn xor_swap(&self, st: St, x: u32, y: u32) -> St {
        st.emit(movf(y)).emit(f_op(Op::Xorwf, x)).emit(movf(x)).emit(f_op(Op::Xorwf, y))
            .emit(movf(y)).emit(f_op(Op::Xorwf, x))
    }

    /// W becomes the high mantissa byte of the number at `slot`, with the
    /// implicit bit unless the exponent is zero.
    pub open spec fn mant_hi(&self, st: St, slot: u32) -> St {
        let l_imp = st.next;
        let st = st.bump();
        let l_done = st.next;
        let st = st.bump();
        st.emit(movf(at(slot, 3))).emit(lit(LitOp::Andlw, 0x7F)).emit(on_z(BitOp::Btfss))
            .emit(goto_tmp(l_imp)).emit(ram_bit(BitOp::Btfsc, at(slot, 2), 7))
            .emit(goto_tmp(l_imp)).emit(movf(at(slot, 2))).emit(lit(LitOp::Andlw, 0x7F))
            .emit(goto_tmp(l_done)).emit(label_tmp(l_imp)).emit(movf(at(slot, 2)))
            .emit(lit(LitOp::Andlw, 0x7F)).emit(lit(LitOp::Iorlw, 0x80)).emit(label_tmp(l_done))
    }

    /// The number at `slot` taken apart: its sign, flipped on demand, its
    /// exponent and its 24-bit mantissa. A nonzero number with exponent zero gets
    /// exponent one, the scale its fraction has.
    pub open spec fn extract(
        &self,
        st: St,
        slot: u32,
        sign: u32,
        exp: u32,
        mant: u32,
        flip: bool,
    ) -> St {
        let st = st.emit(movf(at(slot, 3))).emit(lit(LitOp::Andlw, 0x80));
        let st = if flip {
            st.emit(lit(LitOp::Xorlw, 0x80))
        } else {
            st
        };
        let st = st.emit(movwf(sign)).emit(movf(at(slot, 3))).emit(lit(LitOp::Andlw, 0x7F))
            .emit(movwf(exp)).emit(on_c(BitOp::Bcf)).emit(f_op(Op::Rlf, exp))
            .emit(ram_bit(BitOp::Btfsc, at(slot, 2), 7)).emit(ram_bit(BitOp::Bsf, exp, 0))
            .emit(movf(slot)).emit(movwf(mant)).emit(movf(at(slot, 1))).emit(movwf(at(mant, 1)));
        let st = self.mant_hi(st, slot);
        let st = st.emit(movwf(at(mant, 2)));
        let l_den_done = st.next;
        let st = st.bump();
        st.emit(movf(exp)).emit(on_z(BitOp::Btfss)).emit(goto_tmp(l_den_done)).emit(movf(mant))
            .emit(w_op(Op::Iorwf, at(mant, 1))).emit(w_op(Op::Iorwf, at(mant, 2)))
            .emit(on_z(BitOp::Btfsc)).emit(goto_tmp(l_den_done)).emit(movlw(0x01))
            .emit(movwf(exp)).emit(label_tmp(l_den_done))
    }

    /// The mantissa plus one; a carry out of 24 bits makes it 0x800000 and the
    /// exponent one larger.
    pub open spec fn round_up(&self, st: St, m0: u32, m1: u32, m2: u32, e: u32) -> St {
        let l_renorm = st.next;
        let st = st.bump();
        let l_done = st.next;
        let st = st.bump();
        st.emit(f_op(Op::Incf, m0)).emit(on_z(BitOp::Btfsc)).emit(f_op(Op::Incf, m1))
            .emit(on_z(BitOp::Btfsc)).emit(f_op(Op::Incf, m2)).emit(on_z(BitOp::Btfsc))
            .emit(goto_tmp(l_renorm)).emit(goto_tmp(l_done)).emit(label_tmp(l_renorm))
            .emit(movlw(0x80)).emit(movwf(m2)).emit(clrf(m1)).emit(clrf(m0)).emit(movlw(0x01))
            .emit(f_op(Op::Addwf, e)).emit(label_tmp(l_done))
    }

    /// The result put together from sign, exponent and mantissa, and the return.
    pub open spec fn assemble(&self, st: St, sign: u32, e: u32, m0: u32, m1: u32, m2: u32) -> St {
        let r = self.retval;
        st.emit(movf(m0)).emit(movwf(r)).emit(movf(m1)).emit(movwf(at(r, 1))).emit(movlw(0x7F))
            .emit(w_op(Op::Andwf, m2)).emit(movwf(at(r, 2))).emit(ram_bit(BitOp::Btfsc, e, 0))
            .emit(ram_bit(BitOp::Bsf, at(r, 2), 7)).emit(movf(e)).emit(movwf(at(r, 3)))
            .emit(on_c(BitOp::Bcf)).emit(f_op(Op::Rrf, at(r, 3)))
            .emit(ram_bit(BitOp::Btfsc, sign, 7)).emit(ram_bit(BitOp::Bsf, at(r, 3), 7))
            .emit(Line::Return)
    }

    /// The result 0x7FC00000 with the sign, and the return.
    pub open spec fn quiet_nan(&self, st: St, sign: u32) -> St {
        let r = self.retval;
        st.emit(clrf(r)).emit(clrf(at(r, 1))).emit(movlw(0xC0)).emit(movwf(at(r, 2)))
            .emit(movlw(0x7F)).emit(movwf(at(r, 3))).emit(ram_bit(BitOp::Btfsc, sign, 7))
            .emit(ram_bit(BitOp::Bsf, at(r, 3), 7)).emit(Line::Return)
    }

    /// The result 0x7F800000 with the sign, and the return.
    pub open spec fn infinity(&self, st: St, sign: u32) -> St {
        let r = self.retval;
        st.emit(clrf(r)).emit(clrf(at(r, 1))).emit(movlw(0x80)).emit(movwf(at(r, 2)))
            .emit(movlw(0x7F)).emit(movwf(at(r, 3))).emit(ram_bit(BitOp::Btfsc, sign, 7))
            .emit(ram_bit(BitOp::Bsf, at(r, 3), 7)).emit(Line::Return)
    }

    /// One step of a restoring division: the four-byte remainder minus the
    /// three-byte denominator sets the quotient bit, or the denominator is added
    /// back.
    pub open spec fn div_step(
        &self,
        st: St,
        rem: u32,
        den: u32,
        qbit: u32,
        l_restore: u32,
        l_next: u32,
    ) -> St {
        st.emit(movf(den)).emit(f_op(Op::Subwf, rem)).emit(movf(at(den, 1)))
            .emit(on_c(BitOp::Btfss)).emit(w_op(Op::Incfsz, at(den, 1)))
            .emit(f_op(Op::Subwf, at(rem, 1))).emit(movf(at(den, 2))).emit(on_c(BitOp::Btfss))
            .emit(w_op(Op::Incfsz, at(den, 2))).emit(f_op(Op::Subwf, at(rem, 2)))
            .emit(movlw(0x00)).emit(on_c(BitOp::Btfss)).emit(lit(LitOp::Addlw, 0x01))
            .emit(f_op(Op::Subwf, at(rem, 3))).emit(on_c(BitOp::Btfss))
            .emit(goto_tmp(l_restore)).emit(ram_bit(BitOp::Bsf, qbit, 0)).emit(goto_tmp(l_next))
            .emit(label_tmp(l_restore)).emit(movf(den)).emit(f_op(Op::Addwf, rem))
            .emit(movf(at(den, 1))).emit(on_c(BitOp::Btfsc)).emit(w_op(Op::Incfsz, at(den, 1)))
            .emit(f_op(Op::Addwf, at(rem, 1))).emit(movf(at(den, 2))).emit(on_c(BitOp::Btfsc))
            .emit(w_op(Op::Incfsz, at(den, 2))).emit(f_op(Op::Addwf, at(rem, 2)))
            .emit(movlw(0x00)).emit(on_c(BitOp::Btfsc)).emit(lit(LitOp::Addlw, 0x01))
            .emit(f_op(Op::Addwf, at(rem, 3))).emit(label_tmp(l_next))
    }

    /// Operands that are not finite: the result at once. Two infinities of
    /// different signs have no sum.
    #[verifier::opaque]
    pub open spec fn addf_specials(&self, st: St, scr: u32, l: u32) -> St {
        let sa = scr;
        let ea = at(scr, 1);
        let ma0 = at(scr, 2);
        let ma1 = at(scr, 3);
        let ma2 = at(scr, 4);
        let sb = at(scr, 5);
        let eb = at(scr, 6);
        let mb0 = at(scr, 7);
        let mb1 = at(scr, 8);
        let mb2 = at(scr, 9);
        let cnt = at(scr, 11);
        let l_nan = label_at(l, 25);
        let l_inf = label_at(l, 26);
        let l_a_not_inf = label_at(l, 27);
        let l_b_not_inf = label_at(l, 28);
        let l_a_nan_done = label_at(l, 29);
        let l_b_nan_done = label_at(l, 30);
        let l_inf_done = label_at(l, 31);
        let st = st.emit(movf(ea)).emit(lit(LitOp::Sublw, 0xFF)).emit(on_z(BitOp::Btfss))
            .emit(goto_tmp(l_a_nan_done)).emit(movf(ma0)).emit(w_op(Op::Iorwf, ma1))
            .emit(movwf(cnt)).emit(movf(ma2)).emit(lit(LitOp::Andlw, 0x7F))
            .emit(w_op(Op::Iorwf, cnt)).emit(on_z(BitOp::Btfss)).emit(goto_tmp(l_nan))
            .emit(label_tmp(l_a_nan_done)).emit(movf(eb)).emit(lit(LitOp::Sublw, 0xFF))
            .emit(on_z(BitOp::Btfss)).emit(goto_tmp(l_b_nan_done)).emit(movf(mb0))
            .emit(w_op(Op::Iorwf, mb1)).emit(movwf(cnt)).emit(movf(mb2))
            .emit(lit(LitOp::Andlw, 0x7F)).emit(w_op(Op::Iorwf, cnt)).emit(on_z(BitOp::Btfss))
            .emit(goto_tmp(l_nan)).emit(label_tmp(l_b_nan_done)).emit(movf(ea))
            .emit(lit(LitOp::Sublw, 0xFF)).emit(on_z(BitOp::Btfss)).emit(goto_tmp(l_a_not_inf))
            .emit(movf(eb)).emit(lit(LitOp::Sublw, 0xFF)).emit(on_z(BitOp::Btfss))
            .emit(goto_tmp(l_b_not_inf)).emit(movf(sa)).emit(w_op(Op::Xorwf, sb))
            .emit(on_z(BitOp::Btfss)).emit(goto_tmp(l_nan)).emit(goto_tmp(l_inf))
            .emit(label_tmp(l_b_not_inf)).emit(goto_tmp(l_inf)).emit(label_tmp(l_a_not_inf))
            .emit(movf(eb)).emit(lit(LitOp::Sublw, 0xFF)).emit(on_z(BitOp::Btfss))
            .emit(goto_tmp(l_inf_done)).emit(movf(sb)).emit(movwf(sa)).emit(goto_tmp(l_inf))
            .emit(label_tmp(l_inf));
        let st = self.infinity(st, sa);
        let st = st.emit(label_tmp(l_nan));
        let st = self.quiet_nan(st, sa);
        st.emit(label_tmp(l_inf_done))
    }

    /// A zero operand: the other one is the result, exactly.
    #[verifier::opaque]
    pub open spec fn addf_zeros(&self, st: St, scr: u32, l: u32) -> St {
        let sa = scr;
        let ea = at(scr, 1);
        let ma0 = at(scr, 2);
        let ma1 = at(scr, 3);
        let ma2 = at(scr, 4);
        let sb = at(scr, 5);
        let eb = at(scr, 6);
        let mb0 = at(scr, 7);
        let mb1 = at(scr, 8);
        let mb2 = at(scr, 9);
        let stick = at(scr, 10);
        let ta1 = at(scr, 12);
        let ta2 = at(scr, 13);
        let l_ma_nz = label_at(l, 0);
        let l_copy_b = label_at(l, 1);
        let l_zero = label_at(l, 2);
        let l_ma_nz2 = label_at(l, 3);
        let l_den_conv = label_at(l, 32);
        st.emit(movf(ma0)).emit(w_op(Op::Iorwf, ma1)).emit(w_op(Op::Iorwf, ma2))
            .emit(on_z(BitOp::Btfss)).emit(goto_tmp(l_ma_nz)).emit(movf(mb0))
            .emit(w_op(Op::Iorwf, mb1)).emit(w_op(Op::Iorwf, mb2)).emit(on_z(BitOp::Btfss))
            .emit(goto_tmp(l_copy_b)).emit(goto_tmp(l_zero)).emit(label_tmp(l_copy_b))
            .emit(movf(sb)).emit(movwf(sa)).emit(movf(eb)).emit(movwf(ea)).emit(movf(mb0))
            .emit(movwf(ma0)).emit(movf(mb1)).emit(movwf(ma1)).emit(movf(mb2)).emit(movwf(ma2))
            .emit(clrf(stick)).emit(goto_tmp(l_den_conv)).emit(label_tmp(l_ma_nz))
            .emit(movf(mb0)).emit(w_op(Op::Iorwf, mb1)).emit(w_op(Op::Iorwf, mb2))
            .emit(on_z(BitOp::Btfss)).emit(goto_tmp(l_ma_nz2)).emit(clrf(stick))
            .emit(goto_tmp(l_den_conv)).emit(label_tmp(l_ma_nz2)).emit(clrf(stick))
            .emit(clrf(ta1)).emit(clrf(ta2))
    }

    /// The operand with the smaller exponent comes first and is shifted right to
    /// the scale of the other. The bits shifted out gather in a 24-bit window,
    /// those below it in a sticky bit.
    #[verifier::opaque]
    pub open spec fn addf_align(&self, st: St, scr: u32, l: u32) -> St {
        let sa = scr;
        let ea = at(scr, 1);
        let ma0 = at(scr, 2);
        let ma1 = at(scr, 3);
        let ma2 = at(scr, 4);
        let sb = at(scr, 5);
        let eb = at(scr, 6);
        let mb0 = at(scr, 7);
        let mb1 = at(scr, 8);
        let mb2 = at(scr, 9);
        let stick = at(scr, 10);
        let cnt = at(scr, 11);
        let ta0 = at(scr, 6);
        let ta1 = at(scr, 12);
        let ta2 = at(scr, 13);
        let l_no_swap = label_at(l, 4);
        let l_no_clamp = label_at(l, 5);
        let l_align_loop = label_at(l, 6);
        let l_align_done = label_at(l, 7);
        let st = st.emit(movf(eb)).emit(w_op(Op::Subwf, ea)).emit(on_c(BitOp::Btfss))
            .emit(goto_tmp(l_no_swap));
        let st = self.xor_swap(st, sa, sb);
        let st = self.xor_swap(st, ea, eb);
        let st = self.xor_swap(st, ma0, mb0);
        let st = self.xor_swap(st, ma1, mb1);
        let st = self.xor_swap(st, ma2, mb2);
        st.emit(label_tmp(l_no_swap)).emit(movf(ea)).emit(w_op(Op::Subwf, eb)).emit(movwf(cnt))
            .emit(movf(eb)).emit(movwf(ea)).emit(clrf(ta0)).emit(movlw(0x1F))
            .emit(w_op(Op::Subwf, cnt)).emit(on_c(BitOp::Btfss)).emit(goto_tmp(l_no_clamp))
            .emit(movlw(0x1F)).emit(movwf(cnt)).emit(label_tmp(l_no_clamp)).emit(movf(cnt))
            .emit(on_z(BitOp::Btfss)).emit(goto_tmp(l_align_loop)).emit(goto_tmp(l_align_done))
            .emit(label_tmp(l_align_loop)).emit(on_c(BitOp::Bcf)).emit(f_op(Op::Rrf, ma2))
            .emit(f_op(Op::Rrf, ma1)).emit(f_op(Op::Rrf, ma0)).emit(f_op(Op::Rrf, ta2))
            .emit(f_op(Op::Rrf, ta1)).emit(f_op(Op::Rrf, ta0)).emit(on_c(BitOp::Btfsc))
            .emit(ram_bit(BitOp::Bsf, stick, 1)).emit(ram_bit(BitOp::Btfsc, ta2, 7))
            .emit(ram_bit(BitOp::Bsf, stick, 0)).emit(ram_bit(BitOp::Btfss, ta2, 7))
            .emit(ram_bit(BitOp::Bcf, stick, 0)).emit(f_op(Op::Decfsz, cnt))
            .emit(goto_tmp(l_align_loop)).emit(label_tmp(l_align_done))
    }

    /// Equal signs: the sum of the mantissas, shifted back on a carry.
    #[verifier::opaque]
    pub open spec fn addf_sum(&self, st: St, scr: u32, l: u32) -> St {
        let sa = scr;
        let ea = at(scr, 1);
        let ma0 = at(scr, 2);
        let ma1 = at(scr, 3);
        let ma2 = at(scr, 4);
        let sb = at(scr, 5);
        let mb0 = at(scr, 7);
        let mb1 = at(scr, 8);
        let mb2 = at(scr, 9);
        let stick = at(scr, 10);
        let l_sub = label_at(l, 8);
        let l_add_carry = label_at(l, 9);
        let l_round_step = label_at(l, 20);
        st.emit(movf(sa)).emit(w_op(Op::Xorwf, sb)).emit(on_z(BitOp::Btfss))
            .emit(goto_tmp(l_sub)).emit(movf(mb0)).emit(f_op(Op::Addwf, ma0)).emit(movf(mb1))
            .emit(on_c(BitOp::Btfsc)).emit(w_op(Op::Incfsz, mb1)).emit(f_op(Op::Addwf, ma1))
            .emit(movf(mb2)).emit(on_c(BitOp::Btfsc)).emit(w_op(Op::Incfsz, mb2))
            .emit(f_op(Op::Addwf, ma2)).emit(on_c(BitOp::Btfsc)).emit(goto_tmp(l_add_carry))
            .emit(goto_tmp(l_round_step)).emit(label_tmp(l_add_carry))
            .emit(ram_bit(BitOp::Btfsc, stick, 0)).emit(ram_bit(BitOp::Bsf, stick, 1))
            .emit(on_c(BitOp::Bcf)).emit(f_op(Op::Rrf, ma2)).emit(f_op(Op::Rrf, ma1))
            .emit(f_op(Op::Rrf, ma0)).emit(ram_bit(BitOp::Bcf, stick, 0))
            .emit(on_c(BitOp::Btfsc)).emit(ram_bit(BitOp::Bsf, stick, 0))
            .emit(ram_bit(BitOp::Bsf, ma2, 7)).emit(movlw(0x01)).emit(f_op(Op::Addwf, ea))
            .emit(goto_tmp(l_round_step))
    }

    /// Different signs: the larger magnitude becomes the minuend and gives the
    /// sign.
    #[verifier::opaque]
    pub open spec fn addf_order(&self, st: St, scr: u32, l: u32) -> St {
        let sa = scr;
        let ma0 = at(scr, 2);
        let ma1 = at(scr, 3);
        let ma2 = at(scr, 4);
        let sb = at(scr, 5);
        let mb0 = at(scr, 7);
        let mb1 = at(scr, 8);
        let mb2 = at(scr, 9);
        let stick = at(scr, 10);
        let ta0 = at(scr, 6);
        let ta1 = at(scr, 12);
        let ta2 = at(scr, 13);
        let l_zero = label_at(l, 2);
        let l_sub = label_at(l, 8);
        let l_cmp_b1 = label_at(l, 10);
        let l_cmp_b0 = label_at(l, 11);
        let l_cmp_frac = label_at(l, 12);
        let l_sub_equal_frac = label_at(l, 13);
        let l_sub_swap = label_at(l, 14);
        let l_sub_done = label_at(l, 15);
        let l_normalize = label_at(l, 18);
        let st = st.emit(label_tmp(l_sub)).emit(movf(mb2)).emit(w_op(Op::Subwf, ma2))
            .emit(on_c(BitOp::Btfss)).emit(goto_tmp(l_sub_swap)).emit(on_z(BitOp::Btfsc))
            .emit(goto_tmp(l_cmp_b1)).emit(goto_tmp(l_sub_done)).emit(label_tmp(l_cmp_b1))
            .emit(movf(mb1)).emit(w_op(Op::Subwf, ma1)).emit(on_c(BitOp::Btfss))
            .emit(goto_tmp(l_sub_swap)).emit(on_z(BitOp::Btfsc)).emit(goto_tmp(l_cmp_b0))
            .emit(goto_tmp(l_sub_done)).emit(label_tmp(l_cmp_b0)).emit(movf(mb0))
            .emit(w_op(Op::Subwf, ma0)).emit(on_c(BitOp::Btfss)).emit(goto_tmp(l_sub_swap))
            .emit(on_z(BitOp::Btfsc)).emit(goto_tmp(l_cmp_frac)).emit(goto_tmp(l_sub_done))
            .emit(label_tmp(l_cmp_frac)).emit(movf(ta0)).emit(w_op(Op::Iorwf, ta1))
            .emit(w_op(Op::Iorwf, ta2)).emit(on_z(BitOp::Btfss))
            .emit(goto_tmp(l_sub_equal_frac)).emit(ram_bit(BitOp::Btfss, stick, 1))
            .emit(goto_tmp(l_zero)).emit(label_tmp(l_sub_equal_frac))
            .emit(ram_bit(BitOp::Btfsc, stick, 1)).emit(ram_bit(BitOp::Bsf, ta0, 0))
            .emit(clrf(ma0)).emit(clrf(ma1)).emit(clrf(ma2)).emit(goto_tmp(l_normalize))
            .emit(label_tmp(l_sub_swap));
        let st = self.xor_swap(st, ma0, mb0);
        let st = self.xor_swap(st, ma1, mb1);
        let st = self.xor_swap(st, ma2, mb2);
        st.emit(movf(sb)).emit(movwf(sa))
    }

    /// The difference of the mantissas, the window included: a nonzero window
    /// borrows one.
    #[verifier::opaque]
    pub open spec fn addf_difference(&self, st: St, scr: u32, l: u32) -> St {
        let ma0 = at(scr, 2);
        let ma1 = at(scr, 3);
        let ma2 = at(scr, 4);
        let mb0 = at(scr, 7);
        let mb1 = at(scr, 8);
        let mb2 = at(scr, 9);
        let stick = at(scr, 10);
        let ta0 = at(scr, 6);
        let ta1 = at(scr, 12);
        let ta2 = at(scr, 13);
        let l_sub_done = label_at(l, 15);
        let l_sub_no_frac = label_at(l, 16);
        let l_sub_borrow_done = label_at(l, 17);
        let l_normalize = label_at(l, 18);
        st.emit(label_tmp(l_sub_done)).emit(ram_bit(BitOp::Btfsc, stick, 1))
            .emit(ram_bit(BitOp::Bsf, ta0, 0)).emit(movf(ta0)).emit(w_op(Op::Iorwf, ta1))
            .emit(w_op(Op::Iorwf, ta2)).emit(on_z(BitOp::Btfsc)).emit(goto_tmp(l_sub_no_frac))
            .emit(f_op(Op::Comf, ta0)).emit(f_op(Op::Comf, ta1)).emit(f_op(Op::Comf, ta2))
            .emit(f_op(Op::Incf, ta0)).emit(on_z(BitOp::Btfsc)).emit(f_op(Op::Incf, ta1))
            .emit(on_z(BitOp::Btfsc)).emit(f_op(Op::Incf, ta2)).emit(movlw(0x01))
            .emit(f_op(Op::Subwf, ma0)).emit(on_c(BitOp::Btfsc))
            .emit(goto_tmp(l_sub_borrow_done)).emit(movlw(0x01)).emit(f_op(Op::Subwf, ma1))
            .emit(on_c(BitOp::Btfsc)).emit(goto_tmp(l_sub_borrow_done)).emit(movlw(0x01))
            .emit(f_op(Op::Subwf, ma2)).emit(label_tmp(l_sub_borrow_done))
            .emit(label_tmp(l_sub_no_frac)).emit(movf(mb0)).emit(f_op(Op::Subwf, ma0))
            .emit(movf(mb1)).emit(on_c(BitOp::Btfss)).emit(w_op(Op::Incfsz, mb1))
            .emit(f_op(Op::Subwf, ma1)).emit(movf(mb2)).emit(on_c(BitOp::Btfss))
            .emit(w_op(Op::Incfsz, mb2)).emit(f_op(Op::Subwf, ma2)).emit(goto_tmp(l_normalize))
    }

    /// The difference shifted left until its top bit is set or the exponent is
    /// one.
    #[verifier::opaque]
    pub open spec fn addf_normalize(&self, st: St, scr: u32, l: u32) -> St {
        let ea = at(scr, 1);
        let ma0 = at(scr, 2);
        let ma1 = at(scr, 3);
        let ma2 = at(scr, 4);
        let stick = at(scr, 10);
        let ta0 = at(scr, 6);
        let ta1 = at(scr, 12);
        let ta2 = at(scr, 13);
        let l_normalize = label_at(l, 18);
        let l_sub_guard = label_at(l, 19);
        st.emit(label_tmp(l_normalize)).emit(movf(ma2)).emit(lit(LitOp::Andlw, 0x80))
            .emit(on_z(BitOp::Btfss)).emit(goto_tmp(l_sub_guard)).emit(movf(ea))
            .emit(lit(LitOp::Sublw, 0x01)).emit(on_z(BitOp::Btfsc)).emit(goto_tmp(l_sub_guard))
            .emit(on_c(BitOp::Bcf)).emit(f_op(Op::Rlf, ta0)).emit(f_op(Op::Rlf, ta1))
            .emit(f_op(Op::Rlf, ta2)).emit(f_op(Op::Rlf, ma0)).emit(f_op(Op::Rlf, ma1))
            .emit(f_op(Op::Rlf, ma2)).emit(movlw(0x01)).emit(f_op(Op::Subwf, ea))
            .emit(goto_tmp(l_normalize)).emit(label_tmp(l_sub_guard))
            .emit(ram_bit(BitOp::Btfsc, ta2, 7)).emit(ram_bit(BitOp::Bsf, stick, 0))
            .emit(ram_bit(BitOp::Btfss, ta2, 7)).emit(ram_bit(BitOp::Bcf, stick, 0))
    }

    /// Round to nearest, ties to even: all bits below the round bit break a tie. A
    /// mantissa without its top bit at exponent one is stored with exponent zero.
    #[verifier::opaque]
    pub open spec fn addf_round(&self, st: St, scr: u32, l: u32) -> St {
        let sa = scr;
        let ea = at(scr, 1);
        let ma0 = at(scr, 2);
        let ma1 = at(scr, 3);
        let ma2 = at(scr, 4);
        let stick = at(scr, 10);
        let ta0 = at(scr, 6);
        let ta1 = at(scr, 12);
        let ta2 = at(scr, 13);
        let l_round_step = label_at(l, 20);
        let l_round_up = label_at(l, 21);
        let l_assemble = label_at(l, 22);
        let l_den_conv = label_at(l, 32);
        let l_den_done = label_at(l, 33);
        let st = st.emit(label_tmp(l_round_step)).emit(ram_bit(BitOp::Btfss, stick, 0))
            .emit(goto_tmp(l_den_conv)).emit(movf(ta2)).emit(lit(LitOp::Andlw, 0x7F))
            .emit(w_op(Op::Iorwf, ta0)).emit(w_op(Op::Iorwf, ta1)).emit(on_z(BitOp::Btfss))
            .emit(goto_tmp(l_round_up)).emit(ram_bit(BitOp::Btfsc, stick, 1))
            .emit(goto_tmp(l_round_up)).emit(ram_bit(BitOp::Btfsc, ma0, 0))
            .emit(goto_tmp(l_round_up)).emit(goto_tmp(l_den_conv)).emit(label_tmp(l_round_up));
        let st = self.round_up(st, ma0, ma1, ma2, ea);
        let st = st.emit(label_tmp(l_den_conv)).emit(movf(ma2)).emit(lit(LitOp::Andlw, 0x80))
            .emit(on_z(BitOp::Btfss)).emit(goto_tmp(l_den_done)).emit(movf(ea))
            .emit(lit(LitOp::Sublw, 0x01)).emit(on_z(BitOp::Btfss)).emit(goto_tmp(l_den_done))
            .emit(clrf(ea)).emit(label_tmp(l_den_done)).emit(label_tmp(l_assemble));
        self.assemble(st, sa, ea, ma0, ma1, ma2)
    }

    /// A zero result: negative only if both operands are.
    #[verifier::opaque]
    pub open spec fn addf_zero(&self, st: St, scr: u32, l: u32) -> St {
        let sa = scr;
        let ea = at(scr, 1);
        let ma0 = at(scr, 2);
        let ma1 = at(scr, 3);
        let ma2 = at(scr, 4);
        let sb = at(scr, 5);
        let l_zero = label_at(l, 2);
        let l_assemble = label_at(l, 22);
        let l_zs_clear = label_at(l, 23);
        let l_zs_done = label_at(l, 24);
        st.emit(label_tmp(l_zero)).emit(ram_bit(BitOp::Btfss, sa, 7)).emit(goto_tmp(l_zs_done))
            .emit(ram_bit(BitOp::Btfss, sb, 7)).emit(goto_tmp(l_zs_clear))
            .emit(goto_tmp(l_zs_done)).emit(label_tmp(l_zs_clear))
            .emit(ram_bit(BitOp::Bcf, sa, 7)).emit(label_tmp(l_zs_done)).emit(clrf(ea))
            .emit(clrf(ma0)).emit(clrf(ma1)).emit(clrf(ma2)).emit(goto_tmp(l_assemble))
    }

    /// The sum of the two numbers taken apart at `scr`, rounded to nearest even.
    #[verifier::opaque]
    pub open spec fn addf(&self, st: St, scr: u32) -> St {
        let l = st.next;
        let st = st.reserve(34);
        let st = self.addf_specials(st, scr, l);
        let st = self.addf_zeros(st, scr, l);
        let st = self.addf_align(st, scr, l);
        let st = self.addf_sum(st, scr, l);
        let st = self.addf_order(st, scr, l);
        let st = self.addf_difference(st, scr, l);
        let st = self.addf_normalize(st, scr, l);
        let st = self.addf_round(st, scr, l);
        self.addf_zero(st, scr, l)
    }

    /// The sign of the product and its 16-bit exponent, `ea + eb - 127`.
    #[verifier::opaque]
    pub open spec fn mulf_exponent(&self, st: St, pa: u32, pb: u32, scr: u32, l: u32) -> St {
        let sign = scr;
        let e = at(scr, 1);
        let m3 = at(scr, 10);
        let low0 = at(scr, 11);
        let low1 = at(scr, 12);
        let low2 = at(scr, 13);
        let l_ehi_c1clear = label_at(l, 13);
        let l_ehi_done = label_at(l, 14);
        let l_a_exp_done = label_at(l, 15);
        let l_b_exp_done = label_at(l, 16);
        st.emit(movf(at(pa, 3))).emit(w_op(Op::Xorwf, at(pb, 3))).emit(lit(LitOp::Andlw, 0x80))
            .emit(movwf(sign)).emit(movf(at(pa, 3))).emit(lit(LitOp::Andlw, 0x7F))
            .emit(movwf(low0)).emit(on_c(BitOp::Bcf)).emit(f_op(Op::Rlf, low0))
            .emit(ram_bit(BitOp::Btfsc, at(pa, 2), 7)).emit(ram_bit(BitOp::Bsf, low0, 0))
            .emit(movf(at(pb, 3))).emit(lit(LitOp::Andlw, 0x7F)).emit(movwf(low1))
            .emit(on_c(BitOp::Bcf)).emit(f_op(Op::Rlf, low1))
            .emit(ram_bit(BitOp::Btfsc, at(pb, 2), 7)).emit(ram_bit(BitOp::Bsf, low1, 0))
            .emit(movf(low0)).emit(on_z(BitOp::Btfss)).emit(goto_tmp(l_a_exp_done))
            .emit(movf(pa)).emit(movwf(low2)).emit(movf(at(pa, 1))).emit(w_op(Op::Iorwf, low2))
            .emit(movwf(low2)).emit(movf(at(pa, 2))).emit(lit(LitOp::Andlw, 0x7F))
            .emit(w_op(Op::Iorwf, low2)).emit(on_z(BitOp::Btfsc)).emit(goto_tmp(l_a_exp_done))
            .emit(movlw(0x01)).emit(movwf(low0)).emit(label_tmp(l_a_exp_done)).emit(movf(low1))
            .emit(on_z(BitOp::Btfss)).emit(goto_tmp(l_b_exp_done)).emit(movf(pb))
            .emit(movwf(low2)).emit(movf(at(pb, 1))).emit(w_op(Op::Iorwf, low2))
            .emit(movwf(low2)).emit(movf(at(pb, 2))).emit(lit(LitOp::Andlw, 0x7F))
            .emit(w_op(Op::Iorwf, low2)).emit(on_z(BitOp::Btfsc)).emit(goto_tmp(l_b_exp_done))
            .emit(movlw(0x01)).emit(movwf(low1)).emit(label_tmp(l_b_exp_done)).emit(movf(low1))
            .emit(w_op(Op::Addwf, low0)).emit(movwf(low0)).emit(clrf(m3))
            .emit(on_c(BitOp::Btfsc)).emit(ram_bit(BitOp::Bsf, m3, 0)).emit(movlw(0x81))
            .emit(w_op(Op::Addwf, low0)).emit(movwf(e)).emit(movlw(0x00))
            .emit(on_c(BitOp::Btfss)).emit(goto_tmp(l_ehi_c1clear))
            .emit(ram_bit(BitOp::Btfsc, m3, 0)).emit(movlw(0x01)).emit(goto_tmp(l_ehi_done))
            .emit(label_tmp(l_ehi_c1clear)).emit(ram_bit(BitOp::Btfsc, m3, 0))
            .emit(goto_tmp(l_ehi_done)).emit(movlw(0xFF)).emit(label_tmp(l_ehi_done))
            .emit(movwf(at(e, 1)))
    }

    /// Operands that are not finite.
    #[verifier::opaque]
    pub open spec fn mulf_specials(&self, st: St, pa: u32, pb: u32, scr: u32, l: u32) -> St {
        let low2 = at(scr, 13);
        let l_a_not_ff = label_at(l, 19);
        let l_a_inf = label_at(l, 20);
        let l_b_not_ff = label_at(l, 21);
        let l_b_inf = label_at(l, 22);
        let l_a_inf_b_finite = label_at(l, 23);
        let l_b_inf_a_finite = label_at(l, 24);
        let l_nan = label_at(l, 30);
        let l_inf = label_at(l, 31);
        st.emit(movf(at(pa, 3))).emit(lit(LitOp::Andlw, 0x7F)).emit(lit(LitOp::Xorlw, 0x7F))
            .emit(on_z(BitOp::Btfss)).emit(goto_tmp(l_a_not_ff))
            .emit(ram_bit(BitOp::Btfss, at(pa, 2), 7)).emit(goto_tmp(l_a_not_ff)).emit(movf(pa))
            .emit(w_op(Op::Iorwf, at(pa, 1))).emit(movwf(low2)).emit(movf(at(pa, 2)))
            .emit(lit(LitOp::Andlw, 0x7F)).emit(w_op(Op::Iorwf, low2)).emit(on_z(BitOp::Btfsc))
            .emit(goto_tmp(l_a_inf)).emit(goto_tmp(l_nan)).emit(label_tmp(l_a_not_ff))
            .emit(movf(at(pb, 3))).emit(lit(LitOp::Andlw, 0x7F)).emit(lit(LitOp::Xorlw, 0x7F))
            .emit(on_z(BitOp::Btfss)).emit(goto_tmp(l_b_not_ff))
            .emit(ram_bit(BitOp::Btfss, at(pb, 2), 7)).emit(goto_tmp(l_b_not_ff)).emit(movf(pb))
            .emit(w_op(Op::Iorwf, at(pb, 1))).emit(movwf(low2)).emit(movf(at(pb, 2)))
            .emit(lit(LitOp::Andlw, 0x7F)).emit(w_op(Op::Iorwf, low2)).emit(on_z(BitOp::Btfsc))
            .emit(goto_tmp(l_b_inf)).emit(goto_tmp(l_nan)).emit(label_tmp(l_a_inf))
            .emit(movf(at(pb, 3))).emit(lit(LitOp::Andlw, 0x7F)).emit(lit(LitOp::Xorlw, 0x7F))
            .emit(on_z(BitOp::Btfss)).emit(goto_tmp(l_a_inf_b_finite))
            .emit(ram_bit(BitOp::Btfss, at(pb, 2), 7)).emit(goto_tmp(l_a_inf_b_finite))
            .emit(movf(pb)).emit(w_op(Op::Iorwf, at(pb, 1))).emit(movwf(low2))
            .emit(movf(at(pb, 2))).emit(lit(LitOp::Andlw, 0x7F)).emit(w_op(Op::Iorwf, low2))
            .emit(on_z(BitOp::Btfss)).emit(goto_tmp(l_nan)).emit(goto_tmp(l_inf))
            .emit(label_tmp(l_a_inf_b_finite)).emit(movf(at(pb, 3)))
            .emit(lit(LitOp::Andlw, 0x7F)).emit(on_z(BitOp::Btfss)).emit(goto_tmp(l_inf))
            .emit(ram_bit(BitOp::Btfsc, at(pb, 2), 7)).emit(goto_tmp(l_inf)).emit(movf(pb))
            .emit(w_op(Op::Iorwf, at(pb, 1))).emit(movwf(low2)).emit(movf(at(pb, 2)))
            .emit(lit(LitOp::Andlw, 0x7F)).emit(w_op(Op::Iorwf, low2)).emit(on_z(BitOp::Btfss))
            .emit(goto_tmp(l_inf)).emit(goto_tmp(l_nan)).emit(label_tmp(l_b_inf))
            .emit(movf(at(pa, 3))).emit(lit(LitOp::Andlw, 0x7F)).emit(on_z(BitOp::Btfss))
            .emit(goto_tmp(l_b_inf_a_finite)).emit(ram_bit(BitOp::Btfsc, at(pa, 2), 7))
            .emit(goto_tmp(l_b_inf_a_finite)).emit(movf(pa)).emit(w_op(Op::Iorwf, at(pa, 1)))
            .emit(movwf(low2)).emit(movf(at(pa, 2))).emit(lit(LitOp::Andlw, 0x7F))
            .emit(w_op(Op::Iorwf, low2)).emit(on_z(BitOp::Btfss)).emit(goto_tmp(l_inf))
            .emit(goto_tmp(l_nan)).emit(label_tmp(l_b_inf_a_finite)).emit(movf(at(pa, 3)))
            .emit(lit(LitOp::Andlw, 0x7F)).emit(on_z(BitOp::Btfss)).emit(goto_tmp(l_inf))
            .emit(ram_bit(BitOp::Btfsc, at(pa, 2), 7)).emit(goto_tmp(l_inf)).emit(movf(pa))
            .emit(w_op(Op::Iorwf, at(pa, 1))).emit(movwf(low2)).emit(movf(at(pa, 2)))
            .emit(lit(LitOp::Andlw, 0x7F)).emit(w_op(Op::Iorwf, low2)).emit(on_z(BitOp::Btfss))
            .emit(goto_tmp(l_inf)).emit(goto_tmp(l_nan)).emit(label_tmp(l_b_not_ff))
    }

    /// Zero operands, and the results that are not numbers.
    #[verifier::opaque]
    pub open spec fn mulf_zeros(&self, st: St, pa: u32, pb: u32, scr: u32, l: u32) -> St {
        let sign = scr;
        let low2 = at(scr, 13);
        let l_a_nz = label_at(l, 17);
        let l_b_nz = label_at(l, 18);
        let l_zero = label_at(l, 29);
        let l_nan = label_at(l, 30);
        let l_inf = label_at(l, 31);
        let st = st.emit(movf(at(pa, 3))).emit(lit(LitOp::Andlw, 0x7F)).emit(on_z(BitOp::Btfss))
            .emit(goto_tmp(l_a_nz)).emit(ram_bit(BitOp::Btfsc, at(pa, 2), 7))
            .emit(goto_tmp(l_a_nz)).emit(movf(pa)).emit(w_op(Op::Iorwf, at(pa, 1)))
            .emit(movwf(low2)).emit(movf(at(pa, 2))).emit(lit(LitOp::Andlw, 0x7F))
            .emit(w_op(Op::Iorwf, low2)).emit(on_z(BitOp::Btfss)).emit(goto_tmp(l_a_nz))
            .emit(goto_tmp(l_zero)).emit(label_tmp(l_a_nz)).emit(movf(at(pb, 3)))
            .emit(lit(LitOp::Andlw, 0x7F)).emit(on_z(BitOp::Btfss)).emit(goto_tmp(l_b_nz))
            .emit(ram_bit(BitOp::Btfsc, at(pb, 2), 7)).emit(goto_tmp(l_b_nz))
            .emit(movf(pb)).emit(w_op(Op::Iorwf, at(pb, 1))).emit(movwf(low2))
            .emit(movf(at(pb, 2))).emit(lit(LitOp::Andlw, 0x7F)).emit(w_op(Op::Iorwf, low2))
            .emit(on_z(BitOp::Btfss)).emit(goto_tmp(l_b_nz)).emit(goto_tmp(l_zero))
            .emit(label_tmp(l_nan));
        let st = self.quiet_nan(st, sign);
        let st = st.emit(label_tmp(l_inf));
        self.infinity(st, sign)
    }

    /// The mantissas in place, the product cleared.
    #[verifier::opaque]
    pub open spec fn mulf_mantissas(&self, st: St, pa: u32, pb: u32, scr: u32, l: u32) -> St {
        let bk0 = at(scr, 3);
        let bk1 = at(scr, 4);
        let bk2 = at(scr, 5);
        let cnt = at(scr, 6);
        let m0 = at(scr, 7);
        let m1 = at(scr, 8);
        let m2 = at(scr, 9);
        let m3 = at(scr, 10);
        let low0 = at(scr, 11);
        let low1 = at(scr, 12);
        let low2 = at(scr, 13);
        let l_b_nz = label_at(l, 18);
        let l_a_mant_implicit = label_at(l, 25);
        let l_a_mant_done = label_at(l, 26);
        let l_b_mant_implicit = label_at(l, 27);
        let l_b_mant_done = label_at(l, 28);
        st.emit(label_tmp(l_b_nz)).emit(movf(at(pa, 3))).emit(lit(LitOp::Andlw, 0x7F))
            .emit(on_z(BitOp::Btfss)).emit(goto_tmp(l_a_mant_implicit))
            .emit(ram_bit(BitOp::Btfsc, at(pa, 2), 7)).emit(goto_tmp(l_a_mant_implicit))
            .emit(movf(at(pa, 2))).emit(lit(LitOp::Andlw, 0x7F)).emit(movwf(at(pa, 2)))
            .emit(goto_tmp(l_a_mant_done)).emit(label_tmp(l_a_mant_implicit))
            .emit(movf(at(pa, 2))).emit(lit(LitOp::Andlw, 0x7F)).emit(lit(LitOp::Iorlw, 0x80))
            .emit(movwf(at(pa, 2))).emit(label_tmp(l_a_mant_done)).emit(movf(pb))
            .emit(movwf(bk0)).emit(movf(at(pb, 1))).emit(movwf(bk1)).emit(movf(at(pb, 2)))
            .emit(lit(LitOp::Andlw, 0x7F)).emit(movwf(bk2)).emit(movf(at(pb, 3)))
            .emit(lit(LitOp::Andlw, 0x7F)).emit(on_z(BitOp::Btfss))
            .emit(goto_tmp(l_b_mant_implicit)).emit(ram_bit(BitOp::Btfsc, at(pb, 2), 7))
            .emit(goto_tmp(l_b_mant_implicit)).emit(goto_tmp(l_b_mant_done))
            .emit(label_tmp(l_b_mant_implicit)).emit(movf(at(pb, 2)))
            .emit(lit(LitOp::Andlw, 0x7F)).emit(lit(LitOp::Iorlw, 0x80)).emit(movwf(bk2))
            .emit(label_tmp(l_b_mant_done)).emit(clrf(pb)).emit(clrf(at(pb, 1)))
            .emit(clrf(at(pb, 2))).emit(clrf(m0)).emit(clrf(m1)).emit(clrf(m2)).emit(clrf(m3))
            .emit(clrf(low0)).emit(clrf(low1)).emit(clrf(low2)).emit(movlw(0x18))
            .emit(movwf(cnt))
    }

    /// Shift and add over the 24 bits of the multiplier.
    #[verifier::opaque]
    pub open spec fn mulf_loop(&self, st: St, pa: u32, pb: u32, scr: u32, l: u32) -> St {
        let bk0 = at(scr, 3);
        let bk1 = at(scr, 4);
        let bk2 = at(scr, 5);
        let cnt = at(scr, 6);
        let m0 = at(scr, 7);
        let m1 = at(scr, 8);
        let m2 = at(scr, 9);
        let m3 = at(scr, 10);
        let low0 = at(scr, 11);
        let low1 = at(scr, 12);
        let low2 = at(scr, 13);
        let l_loop = label_at(l, 0);
        let l_skip = label_at(l, 1);
        let l_carry_in = label_at(l, 11);
        let l_no_carry = label_at(l, 12);
        st.emit(label_tmp(l_loop)).emit(on_c(BitOp::Bcf)).emit(f_op(Op::Rlf, bk0))
            .emit(f_op(Op::Rlf, bk1)).emit(f_op(Op::Rlf, bk2)).emit(on_c(BitOp::Btfss))
            .emit(goto_tmp(l_skip)).emit(movf(pb)).emit(f_op(Op::Addwf, low0))
            .emit(movf(at(pb, 1))).emit(on_c(BitOp::Btfsc)).emit(w_op(Op::Incfsz, at(pb, 1)))
            .emit(f_op(Op::Addwf, low1)).emit(movf(at(pb, 2))).emit(on_c(BitOp::Btfsc))
            .emit(w_op(Op::Incfsz, at(pb, 2))).emit(f_op(Op::Addwf, low2))
            .emit(ram_bit(BitOp::Btfsc, low2, 7)).emit(goto_tmp(l_carry_in))
            .emit(goto_tmp(l_no_carry)).emit(label_tmp(l_carry_in))
            .emit(ram_bit(BitOp::Bcf, low2, 7)).emit(f_op(Op::Incf, m0))
            .emit(on_z(BitOp::Btfsc)).emit(f_op(Op::Incf, m1)).emit(on_z(BitOp::Btfsc))
            .emit(f_op(Op::Incf, m2)).emit(on_z(BitOp::Btfsc)).emit(f_op(Op::Incf, m3))
            .emit(label_tmp(l_no_carry)).emit(movf(pa)).emit(f_op(Op::Addwf, m0))
            .emit(movf(at(pa, 1))).emit(on_c(BitOp::Btfsc)).emit(w_op(Op::Incfsz, at(pa, 1)))
            .emit(f_op(Op::Addwf, m1)).emit(movf(at(pa, 2))).emit(on_c(BitOp::Btfsc))
            .emit(w_op(Op::Incfsz, at(pa, 2))).emit(f_op(Op::Addwf, m2)).emit(movlw(0x00))
            .emit(on_c(BitOp::Btfsc)).emit(lit(LitOp::Addlw, 0x01)).emit(f_op(Op::Addwf, m3))
            .emit(label_tmp(l_skip)).emit(on_c(BitOp::Bcf)).emit(f_op(Op::Rrf, at(pb, 2)))
            .emit(f_op(Op::Rrf, at(pb, 1))).emit(f_op(Op::Rrf, pb))
            .emit(ram_bit(BitOp::Btfsc, pa, 0)).emit(ram_bit(BitOp::Bsf, at(pb, 2), 6))
            .emit(on_c(BitOp::Bcf)).emit(f_op(Op::Rrf, at(pa, 2)))
            .emit(f_op(Op::Rrf, at(pa, 1))).emit(f_op(Op::Rrf, pa)).emit(f_op(Op::Decfsz, cnt))
            .emit(goto_tmp(l_loop))
    }

    /// The product brought to one scale, whether its top bit is set or not.
    #[verifier::opaque]
    pub open spec fn mulf_unify(&self, st: St, scr: u32, l: u32) -> St {
        let e = at(scr, 1);
        let m0 = at(scr, 7);
        let m1 = at(scr, 8);
        let m2 = at(scr, 9);
        let m3 = at(scr, 10);
        let low0 = at(scr, 11);
        let low1 = at(scr, 12);
        let low2 = at(scr, 13);
        let l_renorm = label_at(l, 2);
        let l_norm_check = label_at(l, 3);
        st.emit(ram_bit(BitOp::Btfsc, m3, 0)).emit(goto_tmp(l_renorm)).emit(on_c(BitOp::Bcf))
            .emit(f_op(Op::Rlf, low0)).emit(f_op(Op::Rlf, low1)).emit(f_op(Op::Rlf, low2))
            .emit(goto_tmp(l_norm_check)).emit(label_tmp(l_renorm)).emit(on_c(BitOp::Bcf))
            .emit(ram_bit(BitOp::Btfsc, m3, 0)).emit(on_c(BitOp::Bsf)).emit(f_op(Op::Rrf, m2))
            .emit(f_op(Op::Rrf, m1)).emit(f_op(Op::Rrf, m0)).emit(ram_bit(BitOp::Bcf, low2, 7))
            .emit(on_c(BitOp::Btfsc)).emit(ram_bit(BitOp::Bsf, low2, 7)).emit(movlw(0x01))
            .emit(f_op(Op::Addwf, e))
    }

    /// Right shifts while the exponent is below one, left shifts while the top
    /// bit is clear.
    #[verifier::opaque]
    pub open spec fn mulf_normalize(&self, st: St, scr: u32, l: u32) -> St {
        let e = at(scr, 1);
        let m0 = at(scr, 7);
        let m1 = at(scr, 8);
        let m2 = at(scr, 9);
        let m3 = at(scr, 10);
        let low0 = at(scr, 11);
        let low1 = at(scr, 12);
        let low2 = at(scr, 13);
        let l_norm_check = label_at(l, 3);
        let l_norm_left = label_at(l, 4);
        let l_norm_left_shift = label_at(l, 5);
        let l_norm_right = label_at(l, 6);
        let l_extract = label_at(l, 7);
        st.emit(label_tmp(l_norm_check)).emit(ram_bit(BitOp::Btfsc, at(e, 1), 7))
            .emit(goto_tmp(l_norm_right)).emit(movf(at(e, 1))).emit(on_z(BitOp::Btfss))
            .emit(goto_tmp(l_norm_left)).emit(movf(e)).emit(on_z(BitOp::Btfsc))
            .emit(goto_tmp(l_norm_right)).emit(goto_tmp(l_norm_left))
            .emit(label_tmp(l_norm_left)).emit(ram_bit(BitOp::Btfsc, m2, 7))
            .emit(goto_tmp(l_extract)).emit(movf(at(e, 1))).emit(on_z(BitOp::Btfss))
            .emit(goto_tmp(l_norm_left_shift)).emit(movf(e)).emit(lit(LitOp::Sublw, 0x01))
            .emit(on_z(BitOp::Btfsc)).emit(goto_tmp(l_extract))
            .emit(label_tmp(l_norm_left_shift)).emit(on_c(BitOp::Bcf)).emit(f_op(Op::Rlf, low0))
            .emit(f_op(Op::Rlf, low1)).emit(f_op(Op::Rlf, low2)).emit(f_op(Op::Rlf, m0))
            .emit(f_op(Op::Rlf, m1)).emit(f_op(Op::Rlf, m2)).emit(movlw(0x01))
            .emit(f_op(Op::Subwf, e)).emit(on_c(BitOp::Btfsc)).emit(goto_tmp(l_norm_check))
            .emit(movlw(0x01)).emit(f_op(Op::Subwf, at(e, 1))).emit(goto_tmp(l_norm_check))
            .emit(label_tmp(l_norm_right)).emit(ram_bit(BitOp::Btfsc, low0, 0))
            .emit(ram_bit(BitOp::Bsf, m3, 1)).emit(on_c(BitOp::Bcf)).emit(f_op(Op::Rrf, m2))
            .emit(f_op(Op::Rrf, m1)).emit(f_op(Op::Rrf, m0)).emit(f_op(Op::Rrf, low2))
            .emit(f_op(Op::Rrf, low1)).emit(f_op(Op::Rrf, low0)).emit(f_op(Op::Incf, e))
            .emit(on_z(BitOp::Btfsc)).emit(f_op(Op::Incf, at(e, 1)))
            .emit(goto_tmp(l_norm_check))
    }

    /// Round to nearest, ties to even, and the result.
    #[verifier::opaque]
    pub open spec fn mulf_round(&self, st: St, scr: u32, l: u32) -> St {
        let sign = scr;
        let e = at(scr, 1);
        let m0 = at(scr, 7);
        let m1 = at(scr, 8);
        let m2 = at(scr, 9);
        let m3 = at(scr, 10);
        let low0 = at(scr, 11);
        let low1 = at(scr, 12);
        let low2 = at(scr, 13);
        let l_extract = label_at(l, 7);
        let l_den_conv = label_at(l, 8);
        let l_round_up = label_at(l, 9);
        let l_assemble = label_at(l, 10);
        let st = st.emit(label_tmp(l_extract)).emit(ram_bit(BitOp::Btfss, low2, 7))
            .emit(goto_tmp(l_den_conv)).emit(movlw(0x7F)).emit(w_op(Op::Andwf, low2))
            .emit(w_op(Op::Iorwf, low1)).emit(w_op(Op::Iorwf, low0)).emit(on_z(BitOp::Btfss))
            .emit(goto_tmp(l_round_up)).emit(ram_bit(BitOp::Btfsc, m3, 1))
            .emit(goto_tmp(l_round_up)).emit(ram_bit(BitOp::Btfsc, m0, 0))
            .emit(goto_tmp(l_round_up)).emit(goto_tmp(l_den_conv)).emit(label_tmp(l_round_up));
        let st = self.round_up(st, m0, m1, m2, e);
        let st = st.emit(label_tmp(l_den_conv)).emit(ram_bit(BitOp::Btfsc, m2, 7))
            .emit(goto_tmp(l_assemble)).emit(movf(at(e, 1))).emit(on_z(BitOp::Btfss))
            .emit(goto_tmp(l_assemble)).emit(movf(e)).emit(lit(LitOp::Sublw, 0x01))
            .emit(on_z(BitOp::Btfss)).emit(goto_tmp(l_assemble)).emit(clrf(e))
            .emit(label_tmp(l_assemble));
        self.assemble(st, sign, e, m0, m1, m2)
    }

    /// A zero result with the sign.
    #[verifier::opaque]
    pub open spec fn mulf_zero(&self, st: St, scr: u32, l: u32) -> St {
        let sign = scr;
        let r = self.retval;
        let l_zero = label_at(l, 29);
        st.emit(label_tmp(l_zero)).emit(clrf(r)).emit(clrf(at(r, 1))).emit(clrf(at(r, 2)))
            .emit(clrf(at(r, 3))).emit(ram_bit(BitOp::Btfsc, sign, 7))
            .emit(ram_bit(BitOp::Bsf, at(r, 3), 7)).emit(Line::Return)
    }

    /// The product of the numbers at `pa` and `pb`, rounded to nearest even.
    #[verifier::opaque]
    pub open spec fn mulf(&self, st: St, pa: u32, pb: u32, scr: u32) -> St {
        let l = st.next;
        let st = st.reserve(32);
        let st = self.mulf_exponent(st, pa, pb, scr, l);
        let st = self.mulf_specials(st, pa, pb, scr, l);
        let st = self.mulf_zeros(st, pa, pb, scr, l);
        let st = self.mulf_mantissas(st, pa, pb, scr, l);
        let st = self.mulf_loop(st, pa, pb, scr, l);
        let st = self.mulf_unify(st, scr, l);
        let st = self.mulf_normalize(st, scr, l);
        let st = self.mulf_round(st, scr, l);
        self.mulf_zero(st, scr, l)
    }

    /// The sign of the quotient and its 16-bit exponent, `ea - eb + 127`.
    #[verifier::opaque]
    pub open spec fn divf_exponent(&self, st: St, pa: u32, pb: u32, scr: u32, l: u32) -> St {
        let sign = scr;
        let e = at(scr, 1);
        let rem3 = at(scr, 6);
        let spare = at(scr, 11);
        let l_ehi_b = label_at(l, 21);
        let l_ehi_done = label_at(l, 22);
        st.emit(movf(at(pa, 3))).emit(w_op(Op::Xorwf, at(pb, 3))).emit(lit(LitOp::Andlw, 0x80))
            .emit(movwf(sign)).emit(movf(at(pa, 3))).emit(lit(LitOp::Andlw, 0x7F))
            .emit(movwf(spare)).emit(on_c(BitOp::Bcf)).emit(f_op(Op::Rlf, spare))
            .emit(ram_bit(BitOp::Btfsc, at(pa, 2), 7)).emit(ram_bit(BitOp::Bsf, spare, 0))
            .emit(movf(at(pb, 3))).emit(lit(LitOp::Andlw, 0x7F)).emit(movwf(e))
            .emit(on_c(BitOp::Bcf)).emit(f_op(Op::Rlf, e))
            .emit(ram_bit(BitOp::Btfsc, at(pb, 2), 7)).emit(ram_bit(BitOp::Bsf, e, 0))
            .emit(movf(e)).emit(w_op(Op::Subwf, spare)).emit(movwf(spare)).emit(clrf(rem3))
            .emit(on_c(BitOp::Btfss)).emit(ram_bit(BitOp::Bsf, rem3, 0))
            .emit(lit(LitOp::Addlw, 0x7F)).emit(movwf(e)).emit(movlw(0x00))
            .emit(on_c(BitOp::Btfss)).emit(goto_tmp(l_ehi_b))
            .emit(ram_bit(BitOp::Btfsc, rem3, 0)).emit(goto_tmp(l_ehi_done)).emit(movlw(0x01))
            .emit(goto_tmp(l_ehi_done)).emit(label_tmp(l_ehi_b))
            .emit(ram_bit(BitOp::Btfss, rem3, 0)).emit(goto_tmp(l_ehi_done)).emit(movlw(0xFF))
            .emit(label_tmp(l_ehi_done)).emit(movwf(at(e, 1)))
    }

    /// Operands that are not finite.
    #[verifier::opaque]
    pub open spec fn divf_specials(&self, st: St, pa: u32, pb: u32, scr: u32, l: u32) -> St {
        let spare = at(scr, 11);
        let l_zero = label_at(l, 0);
        let l_inf = label_at(l, 1);
        let l_nan = label_at(l, 2);
        let l_a_not_ff = label_at(l, 23);
        let l_a_inf = label_at(l, 24);
        let l_b_not_ff = label_at(l, 25);
        let l_b_inf = label_at(l, 26);
        let l_a_inf_b_finite = label_at(l, 27);
        let l_b_inf_a_finite = label_at(l, 28);
        st.emit(movf(at(pa, 3))).emit(lit(LitOp::Andlw, 0x7F)).emit(lit(LitOp::Xorlw, 0x7F))
            .emit(on_z(BitOp::Btfss)).emit(goto_tmp(l_a_not_ff))
            .emit(ram_bit(BitOp::Btfss, at(pa, 2), 7)).emit(goto_tmp(l_a_not_ff)).emit(movf(pa))
            .emit(w_op(Op::Iorwf, at(pa, 1))).emit(movwf(spare)).emit(movf(at(pa, 2)))
            .emit(lit(LitOp::Andlw, 0x7F)).emit(w_op(Op::Iorwf, spare)).emit(on_z(BitOp::Btfsc))
            .emit(goto_tmp(l_a_inf)).emit(goto_tmp(l_nan)).emit(label_tmp(l_a_not_ff))
            .emit(movf(at(pb, 3))).emit(lit(LitOp::Andlw, 0x7F)).emit(lit(LitOp::Xorlw, 0x7F))
            .emit(on_z(BitOp::Btfss)).emit(goto_tmp(l_b_not_ff))
            .emit(ram_bit(BitOp::Btfss, at(pb, 2), 7)).emit(goto_tmp(l_b_not_ff)).emit(movf(pb))
            .emit(w_op(Op::Iorwf, at(pb, 1))).emit(movwf(spare)).emit(movf(at(pb, 2)))
            .emit(lit(LitOp::Andlw, 0x7F)).emit(w_op(Op::Iorwf, spare)).emit(on_z(BitOp::Btfsc))
            .emit(goto_tmp(l_b_inf)).emit(goto_tmp(l_nan)).emit(label_tmp(l_a_inf))
            .emit(movf(at(pb, 3))).emit(lit(LitOp::Andlw, 0x7F)).emit(lit(LitOp::Xorlw, 0x7F))
            .emit(on_z(BitOp::Btfss)).emit(goto_tmp(l_a_inf_b_finite))
            .emit(ram_bit(BitOp::Btfss, at(pb, 2), 7)).emit(goto_tmp(l_a_inf_b_finite))
            .emit(goto_tmp(l_nan)).emit(label_tmp(l_a_inf_b_finite)).emit(goto_tmp(l_inf)).emit(label_tmp(l_b_inf))
            .emit(movf(at(pa, 3))).emit(lit(LitOp::Andlw, 0x7F)).emit(on_z(BitOp::Btfss))
            .emit(goto_tmp(l_b_inf_a_finite)).emit(ram_bit(BitOp::Btfsc, at(pa, 2), 7))
            .emit(goto_tmp(l_b_inf_a_finite)).emit(goto_tmp(l_zero))
            .emit(label_tmp(l_b_inf_a_finite)).emit(goto_tmp(l_zero))
            .emit(label_tmp(l_b_not_ff))
    }

    /// Zero operands, and the results that are not numbers.
    #[verifier::opaque]
    pub open spec fn divf_zeros(&self, st: St, pa: u32, pb: u32, scr: u32, l: u32) -> St {
        let sign = scr;
        let spare = at(scr, 11);
        let r = self.retval;
        let l_zero = label_at(l, 0);
        let l_inf = label_at(l, 1);
        let l_nan = label_at(l, 2);
        let l_a_nz = label_at(l, 29);
        let l_b_nz = label_at(l, 34);
        let st = st.emit(movf(at(pa, 3))).emit(lit(LitOp::Andlw, 0x7F)).emit(on_z(BitOp::Btfss))
            .emit(goto_tmp(l_a_nz)).emit(ram_bit(BitOp::Btfsc, at(pa, 2), 7))
            .emit(goto_tmp(l_a_nz)).emit(movf(pa)).emit(w_op(Op::Iorwf, at(pa, 1)))
            .emit(movwf(spare)).emit(movf(at(pa, 2))).emit(lit(LitOp::Andlw, 0x7F))
            .emit(w_op(Op::Iorwf, spare)).emit(on_z(BitOp::Btfss)).emit(goto_tmp(l_a_nz))
            .emit(movf(at(pb, 3))).emit(lit(LitOp::Andlw, 0x7F)).emit(on_z(BitOp::Btfss))
            .emit(goto_tmp(l_zero)).emit(ram_bit(BitOp::Btfsc, at(pb, 2), 7))
            .emit(goto_tmp(l_zero)).emit(movf(pb)).emit(w_op(Op::Iorwf, at(pb, 1)))
            .emit(movwf(spare)).emit(movf(at(pb, 2))).emit(lit(LitOp::Andlw, 0x7F))
            .emit(w_op(Op::Iorwf, spare)).emit(on_z(BitOp::Btfss)).emit(goto_tmp(l_zero))
            .emit(goto_tmp(l_nan)).emit(label_tmp(l_a_nz)).emit(movf(at(pb, 3)))
            .emit(lit(LitOp::Andlw, 0x7F)).emit(on_z(BitOp::Btfss)).emit(goto_tmp(l_b_nz))
            .emit(ram_bit(BitOp::Btfsc, at(pb, 2), 7)).emit(goto_tmp(l_b_nz))
            .emit(movf(pb)).emit(w_op(Op::Iorwf, at(pb, 1))).emit(movwf(spare))
            .emit(movf(at(pb, 2))).emit(lit(LitOp::Andlw, 0x7F)).emit(w_op(Op::Iorwf, spare))
            .emit(on_z(BitOp::Btfss)).emit(goto_tmp(l_b_nz)).emit(goto_tmp(l_inf))
            .emit(label_tmp(l_nan));
        let st = self.quiet_nan(st, sign);
        let st = st.emit(label_tmp(l_inf));
        let st = self.infinity(st, sign);
        st.emit(label_tmp(l_zero)).emit(clrf(r)).emit(clrf(at(r, 1))).emit(clrf(at(r, 2)))
            .emit(clrf(at(r, 3))).emit(ram_bit(BitOp::Btfsc, sign, 7))
            .emit(ram_bit(BitOp::Bsf, at(r, 3), 7)).emit(Line::Return)
    }

    /// An exponent of zero counts as one.
    #[verifier::opaque]
    pub open spec fn divf_bias(&self, st: St, pa: u32, pb: u32, scr: u32, l: u32) -> St {
        let e = at(scr, 1);
        let l_b_nz = label_at(l, 34);
        let l_exp_a_done = label_at(l, 35);
        let l_exp_b_done = label_at(l, 36);
        st.emit(label_tmp(l_b_nz)).emit(movf(at(pa, 3))).emit(lit(LitOp::Andlw, 0x7F))
            .emit(on_z(BitOp::Btfss)).emit(goto_tmp(l_exp_a_done))
            .emit(ram_bit(BitOp::Btfsc, at(pa, 2), 7)).emit(goto_tmp(l_exp_a_done))
            .emit(f_op(Op::Incf, e)).emit(on_z(BitOp::Btfsc)).emit(f_op(Op::Incf, at(e, 1)))
            .emit(label_tmp(l_exp_a_done)).emit(movf(at(pb, 3))).emit(lit(LitOp::Andlw, 0x7F))
            .emit(on_z(BitOp::Btfss)).emit(goto_tmp(l_exp_b_done))
            .emit(ram_bit(BitOp::Btfsc, at(pb, 2), 7)).emit(goto_tmp(l_exp_b_done))
            .emit(movlw(0x01)).emit(f_op(Op::Subwf, e)).emit(on_c(BitOp::Btfsc))
            .emit(goto_tmp(l_exp_b_done)).emit(movlw(0x01)).emit(f_op(Op::Subwf, at(e, 1)))
            .emit(label_tmp(l_exp_b_done))
    }

    /// The mantissas in place, shifted left until their top bits are set, the
    /// exponent corrected by the shifts.
    #[verifier::opaque]
    pub open spec fn divf_mantissas(&self, st: St, pa: u32, pb: u32, scr: u32, l: u32) -> St {
        let e = at(scr, 1);
        let rem3 = at(scr, 6);
        let den0 = at(scr, 7);
        let den1 = at(scr, 8);
        let den2 = at(scr, 9);
        let cnt = at(scr, 10);
        let l_norm_a = label_at(l, 17);
        let l_norm_a_done = label_at(l, 18);
        let l_norm_b = label_at(l, 19);
        let l_norm_b_done = label_at(l, 20);
        let l_a_imp = label_at(l, 30);
        let l_a_ready = label_at(l, 31);
        let l_b_imp = label_at(l, 32);
        let l_b_ready = label_at(l, 33);
        let l_e_sub_done = label_at(l, 37);
        st.emit(movf(at(pa, 3))).emit(lit(LitOp::Andlw, 0x7F)).emit(on_z(BitOp::Btfss))
            .emit(goto_tmp(l_a_imp)).emit(ram_bit(BitOp::Btfsc, at(pa, 2), 7))
            .emit(goto_tmp(l_a_imp)).emit(goto_tmp(l_a_ready)).emit(label_tmp(l_a_imp))
            .emit(ram_bit(BitOp::Bsf, at(pa, 2), 7)).emit(label_tmp(l_a_ready)).emit(clrf(rem3))
            .emit(label_tmp(l_norm_a)).emit(ram_bit(BitOp::Btfsc, at(pa, 2), 7))
            .emit(goto_tmp(l_norm_a_done)).emit(on_c(BitOp::Bcf)).emit(f_op(Op::Rlf, pa))
            .emit(f_op(Op::Rlf, at(pa, 1))).emit(f_op(Op::Rlf, at(pa, 2)))
            .emit(f_op(Op::Incf, rem3)).emit(goto_tmp(l_norm_a)).emit(label_tmp(l_norm_a_done))
            .emit(movf(at(pb, 3))).emit(lit(LitOp::Andlw, 0x7F)).emit(on_z(BitOp::Btfss))
            .emit(goto_tmp(l_b_imp)).emit(ram_bit(BitOp::Btfsc, at(pb, 2), 7))
            .emit(goto_tmp(l_b_imp)).emit(goto_tmp(l_b_ready)).emit(label_tmp(l_b_imp))
            .emit(ram_bit(BitOp::Bsf, at(pb, 2), 7)).emit(label_tmp(l_b_ready)).emit(clrf(cnt))
            .emit(label_tmp(l_norm_b)).emit(ram_bit(BitOp::Btfsc, at(pb, 2), 7))
            .emit(goto_tmp(l_norm_b_done)).emit(on_c(BitOp::Bcf)).emit(f_op(Op::Rlf, pb))
            .emit(f_op(Op::Rlf, at(pb, 1))).emit(f_op(Op::Rlf, at(pb, 2)))
            .emit(f_op(Op::Incf, cnt)).emit(goto_tmp(l_norm_b)).emit(label_tmp(l_norm_b_done))
            .emit(movf(rem3)).emit(f_op(Op::Subwf, e)).emit(on_c(BitOp::Btfsc))
            .emit(goto_tmp(l_e_sub_done)).emit(movlw(0x01)).emit(f_op(Op::Subwf, at(e, 1)))
            .emit(label_tmp(l_e_sub_done)).emit(movf(cnt)).emit(f_op(Op::Addwf, e))
            .emit(on_c(BitOp::Btfsc)).emit(f_op(Op::Incf, at(e, 1))).emit(movf(pb))
            .emit(movwf(den0)).emit(movf(at(pb, 1))).emit(movwf(den1)).emit(movf(at(pb, 2)))
            .emit(movwf(den2))
    }

    /// The integer part of the quotient of the mantissas: zero or one.
    #[verifier::opaque]
    pub open spec fn divf_integer(&self, st: St, pa: u32, scr: u32, l: u32) -> St {
        let rem0 = at(scr, 3);
        let rem1 = at(scr, 4);
        let rem2 = at(scr, 5);
        let rem3 = at(scr, 6);
        let cnt = at(scr, 10);
        let spare = at(scr, 11);
        let l_loop = label_at(l, 3);
        let l_restore = label_at(l, 4);
        let l_next = label_at(l, 5);
        let l_qsave = label_at(l, 7);
        let st = st.emit(clrf(rem0)).emit(clrf(rem1)).emit(clrf(rem2)).emit(clrf(rem3)).emit(movlw(0x18))
            .emit(movwf(cnt)).emit(label_tmp(l_loop)).emit(on_c(BitOp::Bcf))
            .emit(f_op(Op::Rlf, pa)).emit(f_op(Op::Rlf, at(pa, 1)))
            .emit(f_op(Op::Rlf, at(pa, 2))).emit(f_op(Op::Rlf, rem0)).emit(f_op(Op::Rlf, rem1))
            .emit(f_op(Op::Rlf, rem2)).emit(f_op(Op::Rlf, rem3));
        let st = self.div_step(st, at(scr, 3), at(scr, 7), pa, l_restore, l_next);
        st.emit(f_op(Op::Decfsz, cnt)).emit(goto_tmp(l_loop)).emit(clrf(spare)).emit(movf(pa))
            .emit(lit(LitOp::Andlw, 0x01)).emit(on_z(BitOp::Btfsc)).emit(goto_tmp(l_qsave))
            .emit(ram_bit(BitOp::Bsf, spare, 0)).emit(label_tmp(l_qsave))
    }

    /// The next 25 bits of the quotient; the remainder is the sticky rest.
    #[verifier::opaque]
    pub open spec fn divf_fraction(&self, st: St, pa: u32, scr: u32, l: u32) -> St {
        let rem0 = at(scr, 3);
        let rem1 = at(scr, 4);
        let rem2 = at(scr, 5);
        let rem3 = at(scr, 6);
        let cnt = at(scr, 10);
        let l_floop = label_at(l, 8);
        let l_frestore = label_at(l, 9);
        let l_fnext = label_at(l, 10);
        let st = st.emit(clrf(pa)).emit(clrf(at(pa, 1))).emit(clrf(at(pa, 2))).emit(clrf(at(pa, 3)))
            .emit(movlw(0x19)).emit(movwf(cnt)).emit(label_tmp(l_floop)).emit(on_c(BitOp::Bcf))
            .emit(f_op(Op::Rlf, pa)).emit(f_op(Op::Rlf, at(pa, 1)))
            .emit(f_op(Op::Rlf, at(pa, 2))).emit(f_op(Op::Rlf, at(pa, 3)))
            .emit(on_c(BitOp::Bcf)).emit(f_op(Op::Rlf, rem0)).emit(f_op(Op::Rlf, rem1))
            .emit(f_op(Op::Rlf, rem2)).emit(f_op(Op::Rlf, rem3));
        let st = self.div_step(st, at(scr, 3), at(scr, 7), pa, l_frestore, l_fnext);
        st.emit(f_op(Op::Decfsz, cnt)).emit(goto_tmp(l_floop))
    }

    /// The quotient brought to one scale, with its guard and sticky bits.
    #[verifier::opaque]
    pub open spec fn divf_split(&self, st: St, pa: u32, scr: u32, l: u32) -> St {
        let e = at(scr, 1);
        let rem0 = at(scr, 3);
        let rem1 = at(scr, 4);
        let rem2 = at(scr, 5);
        let rem3 = at(scr, 6);
        let spare = at(scr, 11);
        let l_ge1 = label_at(l, 6);
        let l_round = label_at(l, 11);
        st.emit(ram_bit(BitOp::Btfsc, spare, 0)).emit(goto_tmp(l_ge1)).emit(movlw(0x01))
            .emit(f_op(Op::Subwf, e)).emit(on_c(BitOp::Bcf))
            .emit(ram_bit(BitOp::Btfsc, at(pa, 3), 0)).emit(on_c(BitOp::Bsf))
            .emit(f_op(Op::Rrf, at(pa, 2))).emit(f_op(Op::Rrf, at(pa, 1)))
            .emit(f_op(Op::Rrf, pa)).emit(clrf(spare)).emit(on_c(BitOp::Btfsc))
            .emit(ram_bit(BitOp::Bsf, spare, 0)).emit(movf(rem0)).emit(w_op(Op::Iorwf, rem1))
            .emit(w_op(Op::Iorwf, rem2)).emit(w_op(Op::Iorwf, rem3)).emit(on_z(BitOp::Btfsc))
            .emit(goto_tmp(l_round)).emit(ram_bit(BitOp::Bsf, spare, 1)).emit(goto_tmp(l_round))
            .emit(label_tmp(l_ge1)).emit(on_c(BitOp::Bcf))
            .emit(ram_bit(BitOp::Btfsc, at(pa, 3), 0)).emit(on_c(BitOp::Bsf))
            .emit(f_op(Op::Rrf, at(pa, 2))).emit(f_op(Op::Rrf, at(pa, 1)))
            .emit(f_op(Op::Rrf, pa)).emit(clrf(spare)).emit(on_c(BitOp::Btfsc))
            .emit(ram_bit(BitOp::Bsf, spare, 1)).emit(on_c(BitOp::Bcf))
            .emit(f_op(Op::Rrf, at(pa, 2))).emit(f_op(Op::Rrf, at(pa, 1)))
            .emit(f_op(Op::Rrf, pa)).emit(on_c(BitOp::Btfsc))
            .emit(ram_bit(BitOp::Bsf, spare, 0)).emit(ram_bit(BitOp::Bsf, at(pa, 2), 7))
            .emit(movf(rem0)).emit(w_op(Op::Iorwf, rem1)).emit(w_op(Op::Iorwf, rem2))
            .emit(w_op(Op::Iorwf, rem3)).emit(on_z(BitOp::Btfsc)).emit(goto_tmp(l_round))
            .emit(ram_bit(BitOp::Bsf, spare, 1))
    }

    /// Right shifts while the exponent is below one, round to nearest, ties to
    /// even, and the result.
    #[verifier::opaque]
    pub open spec fn divf_round(&self, st: St, pa: u32, scr: u32, l: u32) -> St {
        let sign = scr;
        let e = at(scr, 1);
        let spare = at(scr, 11);
        let l_round = label_at(l, 11);
        let l_round_test = label_at(l, 12);
        let l_round_up = label_at(l, 13);
        let l_assemble = label_at(l, 14);
        let l_den_conv = label_at(l, 15);
        let l_den_shift = label_at(l, 16);
        let st = st.emit(label_tmp(l_round)).emit(ram_bit(BitOp::Btfsc, at(e, 1), 7))
            .emit(goto_tmp(l_den_shift)).emit(movf(e)).emit(on_z(BitOp::Btfss))
            .emit(goto_tmp(l_round_test)).emit(goto_tmp(l_den_shift))
            .emit(label_tmp(l_den_shift)).emit(ram_bit(BitOp::Btfsc, spare, 0))
            .emit(ram_bit(BitOp::Bsf, spare, 1)).emit(on_c(BitOp::Bcf))
            .emit(f_op(Op::Rrf, at(pa, 2))).emit(f_op(Op::Rrf, at(pa, 1)))
            .emit(f_op(Op::Rrf, pa)).emit(ram_bit(BitOp::Bcf, spare, 0))
            .emit(on_c(BitOp::Btfsc)).emit(ram_bit(BitOp::Bsf, spare, 0))
            .emit(f_op(Op::Incf, e)).emit(on_z(BitOp::Btfsc)).emit(f_op(Op::Incf, at(e, 1)))
            .emit(goto_tmp(l_round)).emit(label_tmp(l_round_test))
            .emit(ram_bit(BitOp::Btfss, spare, 0)).emit(goto_tmp(l_den_conv))
            .emit(ram_bit(BitOp::Btfsc, spare, 1)).emit(goto_tmp(l_round_up))
            .emit(ram_bit(BitOp::Btfsc, pa, 0)).emit(goto_tmp(l_round_up))
            .emit(goto_tmp(l_den_conv)).emit(label_tmp(l_round_up));
        let st = self.round_up(st, pa, at(pa, 1), at(pa, 2), e);
        let st = st.emit(label_tmp(l_den_conv)).emit(ram_bit(BitOp::Btfsc, at(pa, 2), 7))
            .emit(goto_tmp(l_assemble)).emit(movf(at(e, 1))).emit(on_z(BitOp::Btfss))
            .emit(goto_tmp(l_assemble)).emit(movf(e)).emit(lit(LitOp::Sublw, 0x01))
            .emit(on_z(BitOp::Btfss)).emit(goto_tmp(l_assemble)).emit(clrf(e))
            .emit(label_tmp(l_assemble));
        self.assemble(st, sign, e, pa, at(pa, 1), at(pa, 2))
    }

    /// The quotient of the numbers at `pa` and `pb`, rounded to nearest even.
    #[verifier::opaque]
    pub open spec fn divf(&self, st: St, pa: u32, pb: u32, scr: u32) -> St {
        let l = st.next;
        let st = st.reserve(38);
        let st = self.divf_exponent(st, pa, pb, scr, l);
        let st = self.divf_specials(st, pa, pb, scr, l);
        let st = self.divf_zeros(st, pa, pb, scr, l);
        let st = self.divf_bias(st, pa, pb, scr, l);
        let st = self.divf_mantissas(st, pa, pb, scr, l);
        let st = self.divf_integer(st, pa, scr, l);
        let st = self.divf_fraction(st, pa, scr, l);
        let st = self.divf_split(st, pa, scr, l);
        self.divf_round(st, pa, scr, l)
    }

    /// The integer zero.
    pub open spec fn utof_zero(&self, st: St, val: u32, scr: u32, signed: bool, l: u32) -> St {
        let sign = at(scr, 5);
        let r = self.retval;
        let l_nz = label_at(l, 1);
        let st = st.emit(movf(val)).emit(w_op(Op::Iorwf, at(val, 1))).emit(w_op(Op::Iorwf, at(val, 2)))
            .emit(w_op(Op::Iorwf, at(val, 3))).emit(on_z(BitOp::Btfss)).emit(goto_tmp(l_nz))
            .emit(clrf(r)).emit(clrf(at(r, 1))).emit(clrf(at(r, 2))).emit(clrf(at(r, 3)));
        let st = if signed {
            st.emit(ram_bit(BitOp::Btfsc, sign, 7)).emit(ram_bit(BitOp::Bsf, at(r, 3), 7))
        } else {
            st
        };
        let st = st.emit(Line::Return).emit(label_tmp(l_nz));
        if !signed {
            st.emit(clrf(sign))
        } else {
            st
        }
    }

    /// Left shifts until the top bit is set; the exponent follows from their
    /// number.
    pub open spec fn utof_scale(&self, st: St, val: u32, scr: u32, l: u32) -> St {
        let cnt = scr;
        let e = at(scr, 1);
        let guard = at(scr, 3);
        let stick = at(scr, 4);
        let l_zero = label_at(l, 0);
        let l_loop = label_at(l, 2);
        st.emit(clrf(cnt)).emit(label_tmp(l_loop)).emit(ram_bit(BitOp::Btfsc, at(val, 3), 7))
            .emit(goto_tmp(l_zero)).emit(on_c(BitOp::Bcf)).emit(f_op(Op::Rlf, val))
            .emit(f_op(Op::Rlf, at(val, 1))).emit(f_op(Op::Rlf, at(val, 2)))
            .emit(f_op(Op::Rlf, at(val, 3))).emit(f_op(Op::Incf, cnt)).emit(goto_tmp(l_loop))
            .emit(label_tmp(l_zero)).emit(movf(cnt)).emit(lit(LitOp::Sublw, 0x9E))
            .emit(movwf(e)).emit(clrf(at(e, 1))).emit(movf(val)).emit(lit(LitOp::Andlw, 0x80))
            .emit(movwf(guard)).emit(movf(val)).emit(lit(LitOp::Andlw, 0x7F)).emit(movwf(stick))
    }

    /// Round to nearest, ties to even, and the result.
    pub open spec fn utof_round(&self, st: St, val: u32, scr: u32, l: u32) -> St {
        let e = at(scr, 1);
        let guard = at(scr, 3);
        let stick = at(scr, 4);
        let sign = at(scr, 5);
        let l_round_up = label_at(l, 3);
        let l_assemble = label_at(l, 4);
        let st = st.emit(ram_bit(BitOp::Btfss, guard, 7)).emit(goto_tmp(l_assemble)).emit(movf(stick))
            .emit(on_z(BitOp::Btfss)).emit(goto_tmp(l_round_up))
            .emit(ram_bit(BitOp::Btfsc, at(val, 1), 0)).emit(goto_tmp(l_round_up))
            .emit(goto_tmp(l_assemble)).emit(label_tmp(l_round_up));
        let st = self.round_up(st, at(val, 1), at(val, 2), at(val, 3), e);
        let st = st.emit(label_tmp(l_assemble));
        self.assemble(st, sign, e, at(val, 1), at(val, 2), at(val, 3))
    }

    /// The integer at `val` as a number; its sign, if it has one, was set aside
    /// at `scr + 5`.
    pub open spec fn utof(&self, st: St, val: u32, scr: u32, signed: bool) -> St {
        let l = st.next;
        let st = st.reserve(5);
        let st = self.utof_zero(st, val, scr, signed, l);
        let st = self.utof_scale(st, val, scr, l);
        self.utof_round(st, val, scr, l)
    }

    /// The exponent, the sign and the mantissa; exponent zero gives zero.
    pub open spec fn ftoi_unpack(&self, st: St, val: u32, scr: u32, signed: bool, l: u32) -> St {
        let e = scr;
        let m0 = at(scr, 2);
        let m1 = at(scr, 3);
        let m2 = at(scr, 4);
        let sign = at(scr, 5);
        let m3 = at(scr, 6);
        let l_nz = label_at(l, 0);
        let l_store2 = label_at(l, 6);
        let st = st.emit(movf(at(val, 3))).emit(lit(LitOp::Andlw, 0x7F)).emit(movwf(e))
            .emit(on_c(BitOp::Bcf)).emit(f_op(Op::Rlf, e))
            .emit(ram_bit(BitOp::Btfsc, at(val, 2), 7)).emit(ram_bit(BitOp::Bsf, e, 0));
        let st = if signed {
            st.emit(movf(at(val, 3))).emit(lit(LitOp::Andlw, 0x80)).emit(movwf(sign))
        } else {
            st
        };
        st.emit(movf(e)).emit(on_z(BitOp::Btfss)).emit(goto_tmp(l_nz)).emit(clrf(m0))
            .emit(clrf(m1)).emit(clrf(m2)).emit(clrf(m3)).emit(goto_tmp(l_store2))
            .emit(label_tmp(l_nz)).emit(movf(val)).emit(movwf(m0)).emit(movf(at(val, 1)))
            .emit(movwf(m1)).emit(movf(at(val, 2))).emit(lit(LitOp::Andlw, 0x7F))
            .emit(lit(LitOp::Iorlw, 0x80)).emit(movwf(m2)).emit(clrf(m3))
    }

    /// A mantissa with fraction bits is shifted right.
    pub open spec fn ftoi_right(&self, st: St, scr: u32, l: u32) -> St {
        let e = scr;
        let cnt = at(scr, 1);
        let m0 = at(scr, 2);
        let m1 = at(scr, 3);
        let m2 = at(scr, 4);
        let l_left = label_at(l, 1);
        let l_rdone = label_at(l, 2);
        let l_rloop = label_at(l, 3);
        let l_store2 = label_at(l, 6);
        st.emit(movf(e)).emit(lit(LitOp::Sublw, 0x96)).emit(on_c(BitOp::Btfss))
            .emit(goto_tmp(l_left)).emit(movwf(cnt)).emit(movlw(0x1F))
            .emit(w_op(Op::Subwf, cnt)).emit(on_c(BitOp::Btfss)).emit(goto_tmp(l_rdone))
            .emit(movlw(0x1F)).emit(movwf(cnt)).emit(label_tmp(l_rdone)).emit(movf(cnt))
            .emit(on_z(BitOp::Btfss)).emit(goto_tmp(l_rloop)).emit(goto_tmp(l_store2))
            .emit(label_tmp(l_rloop)).emit(on_c(BitOp::Bcf)).emit(f_op(Op::Rrf, m2))
            .emit(f_op(Op::Rrf, m1)).emit(f_op(Op::Rrf, m0)).emit(f_op(Op::Decfsz, cnt))
            .emit(goto_tmp(l_rloop)).emit(goto_tmp(l_store2))
    }

    /// A mantissa of a large number is shifted left, or the result is clamped.
    pub open spec fn ftoi_left(&self, st: St, scr: u32, signed: bool, l: u32) -> St {
        let cnt = at(scr, 1);
        let m0 = at(scr, 2);
        let m1 = at(scr, 3);
        let m2 = at(scr, 4);
        let sign = at(scr, 5);
        let m3 = at(scr, 6);
        let l_left = label_at(l, 1);
        let l_lloop = label_at(l, 4);
        let l_posclamp = label_at(l, 5);
        let l_store2 = label_at(l, 6);
        let st = st.emit(label_tmp(l_left)).emit(lit(LitOp::Sublw, 0x00)).emit(movwf(cnt));
        let st = if signed {
            st.emit(movlw(0x08))
        } else {
            st.emit(movlw(0x09))
        };
        let st = st.emit(w_op(Op::Subwf, cnt)).emit(on_c(BitOp::Btfss)).emit(goto_tmp(l_lloop));
        let st = if signed {
            st.emit(ram_bit(BitOp::Btfss, sign, 7)).emit(goto_tmp(l_posclamp)).emit(clrf(m0))
                .emit(clrf(m1)).emit(clrf(m2)).emit(movlw(0x80)).emit(movwf(m3))
                .emit(goto_tmp(l_store2)).emit(label_tmp(l_posclamp)).emit(movlw(0xFF))
                .emit(movwf(m0)).emit(movwf(m1)).emit(movwf(m2)).emit(movlw(0x7F))
                .emit(movwf(m3))
        } else {
            st.emit(movlw(0xFF)).emit(movwf(m0)).emit(movwf(m1)).emit(movwf(m2)).emit(movwf(m3))
        };
        st.emit(goto_tmp(l_store2)).emit(label_tmp(l_lloop)).emit(on_c(BitOp::Bcf))
            .emit(f_op(Op::Rlf, m0)).emit(f_op(Op::Rlf, m1)).emit(f_op(Op::Rlf, m2))
            .emit(f_op(Op::Rlf, m3)).emit(f_op(Op::Decfsz, cnt)).emit(goto_tmp(l_lloop))
    }

    /// The sign applied, and the result.
    pub open spec fn ftoi_store(&self, st: St, scr: u32, signed: bool, l: u32) -> St {
        let m0 = at(scr, 2);
        let m1 = at(scr, 3);
        let m2 = at(scr, 4);
        let sign = at(scr, 5);
        let m3 = at(scr, 6);
        let r = self.retval;
        let l_store2 = label_at(l, 6);
        let l_store = label_at(l, 7);
        let st = st.emit(label_tmp(l_store2));
        let st = if signed {
            st.emit(ram_bit(BitOp::Btfss, sign, 7)).emit(goto_tmp(l_store))
                .emit(f_op(Op::Comf, m0)).emit(f_op(Op::Comf, m1)).emit(f_op(Op::Comf, m2))
                .emit(f_op(Op::Comf, m3)).emit(f_op(Op::Incf, m0)).emit(on_z(BitOp::Btfsc))
                .emit(f_op(Op::Incf, m1)).emit(on_z(BitOp::Btfsc)).emit(f_op(Op::Incf, m2))
                .emit(on_z(BitOp::Btfsc)).emit(f_op(Op::Incf, m3)).emit(label_tmp(l_store))
        } else {
            st
        };
        st.emit(movf(m0)).emit(movwf(r)).emit(movf(m1)).emit(movwf(at(r, 1))).emit(movf(m2))
            .emit(movwf(at(r, 2))).emit(movf(m3)).emit(movwf(at(r, 3))).emit(Line::Return)
    }

    /// The number at `val` as an integer, truncated toward zero and clamped to
    /// its range.
    pub open spec fn ftoi(&self, st: St, val: u32, scr: u32, signed: bool) -> St {
        let l = st.next;
        let st = st.reserve(8);
        let st = self.ftoi_unpack(st, val, scr, signed, l);
        let st = self.ftoi_right(st, scr, l);
        let st = self.ftoi_left(st, scr, signed, l);
        self.ftoi_store(st, scr, signed, l)
    }

    /// A number that is not a number compares as unordered.
    pub open spec fn orderf_nans(&self, st: St, pa: u32, pb: u32, l: u32) -> St {
        let l_nan_a_done = label_at(l, 0);
        let l_nan_b_done = label_at(l, 1);
        let l_ret3 = label_at(l, 2);
        st.emit(movf(at(pa, 3))).emit(lit(LitOp::Andlw, 0x7F)).emit(lit(LitOp::Sublw, 0x7F))
            .emit(on_z(BitOp::Btfss)).emit(goto_tmp(l_nan_a_done))
            .emit(ram_bit(BitOp::Btfss, at(pa, 2), 7)).emit(goto_tmp(l_nan_a_done))
            .emit(movf(at(pa, 2))).emit(lit(LitOp::Andlw, 0x7F))
            .emit(w_op(Op::Iorwf, at(pa, 1))).emit(w_op(Op::Iorwf, pa)).emit(on_z(BitOp::Btfss))
            .emit(goto_tmp(l_ret3)).emit(label_tmp(l_nan_a_done)).emit(movf(at(pb, 3)))
            .emit(lit(LitOp::Andlw, 0x7F)).emit(lit(LitOp::Sublw, 0x7F))
            .emit(on_z(BitOp::Btfss)).emit(goto_tmp(l_nan_b_done))
            .emit(ram_bit(BitOp::Btfss, at(pb, 2), 7)).emit(goto_tmp(l_nan_b_done))
            .emit(movf(at(pb, 2))).emit(lit(LitOp::Andlw, 0x7F))
            .emit(w_op(Op::Iorwf, at(pb, 1))).emit(w_op(Op::Iorwf, pb)).emit(on_z(BitOp::Btfss))
            .emit(goto_tmp(l_ret3)).emit(label_tmp(l_nan_b_done))
    }

    /// Two zeros are equal whatever their signs; numbers of different signs are
    /// decided by them.
    pub open spec fn orderf_zeros(&self, st: St, pa: u32, pb: u32, l: u32) -> St {
        let l_az_done = label_at(l, 3);
        let l_ret0 = label_at(l, 4);
        let l_sign_diff = label_at(l, 5);
        st.emit(movf(at(pa, 3))).emit(lit(LitOp::Andlw, 0x7F)).emit(on_z(BitOp::Btfss))
            .emit(goto_tmp(l_az_done)).emit(ram_bit(BitOp::Btfsc, at(pa, 2), 7))
            .emit(goto_tmp(l_az_done)).emit(movf(at(pb, 3))).emit(lit(LitOp::Andlw, 0x7F))
            .emit(on_z(BitOp::Btfss)).emit(goto_tmp(l_az_done))
            .emit(ram_bit(BitOp::Btfsc, at(pb, 2), 7)).emit(goto_tmp(l_az_done))
            .emit(goto_tmp(l_ret0)).emit(label_tmp(l_az_done)).emit(movf(at(pa, 3)))
            .emit(w_op(Op::Xorwf, at(pb, 3))).emit(lit(LitOp::Andlw, 0x80))
            .emit(on_z(BitOp::Btfss)).emit(goto_tmp(l_sign_diff))
    }

    /// Numbers of one sign are ordered by magnitude, in reverse if negative.
    pub open spec fn orderf_magnitudes(&self, st: St, pa: u32, pb: u32, scr: u32, l: u32) -> St {
        let tmp0 = scr;
        let tmp1 = at(scr, 1);
        let l_ret0 = label_at(l, 4);
        let l_ret1 = label_at(l, 6);
        let l_ret2 = label_at(l, 7);
        let l_mag_lt = label_at(l, 8);
        st.emit(movf(at(pa, 3))).emit(lit(LitOp::Andlw, 0x80)).emit(movwf(tmp1))
            .emit(ram_bit(BitOp::Bcf, at(pa, 3), 7)).emit(ram_bit(BitOp::Bcf, at(pb, 3), 7))
            .emit(movf(pa)).emit(w_op(Op::Xorwf, pb)).emit(movwf(tmp0)).emit(movf(at(pa, 1)))
            .emit(w_op(Op::Xorwf, at(pb, 1))).emit(w_op(Op::Iorwf, tmp0)).emit(movwf(tmp0))
            .emit(movf(at(pa, 2))).emit(w_op(Op::Xorwf, at(pb, 2))).emit(w_op(Op::Iorwf, tmp0))
            .emit(movwf(tmp0)).emit(movf(at(pa, 3))).emit(w_op(Op::Xorwf, at(pb, 3)))
            .emit(w_op(Op::Iorwf, tmp0)).emit(movwf(tmp0)).emit(movf(pb))
            .emit(w_op(Op::Subwf, pa)).emit(movf(at(pb, 1))).emit(on_c(BitOp::Btfss))
            .emit(w_op(Op::Incfsz, at(pb, 1))).emit(w_op(Op::Subwf, at(pa, 1)))
            .emit(movf(at(pb, 2))).emit(on_c(BitOp::Btfss)).emit(w_op(Op::Incfsz, at(pb, 2)))
            .emit(w_op(Op::Subwf, at(pa, 2))).emit(movf(at(pb, 3))).emit(on_c(BitOp::Btfss))
            .emit(w_op(Op::Incfsz, at(pb, 3))).emit(w_op(Op::Subwf, at(pa, 3))).emit(movf(tmp0))
            .emit(on_z(BitOp::Btfsc)).emit(goto_tmp(l_ret0)).emit(on_c(BitOp::Btfss))
            .emit(goto_tmp(l_mag_lt)).emit(ram_bit(BitOp::Btfss, tmp1, 7))
            .emit(goto_tmp(l_ret2)).emit(goto_tmp(l_ret1)).emit(label_tmp(l_mag_lt))
            .emit(ram_bit(BitOp::Btfss, tmp1, 7)).emit(goto_tmp(l_ret1)).emit(goto_tmp(l_ret2))
    }

    /// The four results.
    pub open spec fn orderf_results(&self, st: St, pa: u32, l: u32) -> St {
        let r = self.retval;
        let l_ret3 = label_at(l, 2);
        let l_ret0 = label_at(l, 4);
        let l_sign_diff = label_at(l, 5);
        let l_ret1 = label_at(l, 6);
        let l_ret2 = label_at(l, 7);
        st.emit(label_tmp(l_sign_diff)).emit(ram_bit(BitOp::Btfss, at(pa, 3), 7))
            .emit(goto_tmp(l_ret2)).emit(goto_tmp(l_ret1)).emit(label_tmp(l_ret0)).emit(clrf(r))
            .emit(Line::Return).emit(label_tmp(l_ret1)).emit(movlw(0x01)).emit(movwf(r))
            .emit(Line::Return).emit(label_tmp(l_ret2)).emit(movlw(0x02)).emit(movwf(r))
            .emit(Line::Return).emit(label_tmp(l_ret3)).emit(movlw(0x03)).emit(movwf(r))
            .emit(Line::Return)
    }

    /// How the numbers at `pa` and `pb` compare: 0 equal, 1 less, 2 greater, 3
    /// unordered.
    pub open spec fn orderf(&self, st: St, pa: u32, pb: u32, scr: u32) -> St {
        let l = st.next;
        let st = st.reserve(9);
        let st = self.orderf_nans(st, pa, pb, l);
        let st = self.orderf_zeros(st, pa, pb, l);
        let st = self.orderf_magnitudes(st, pa, pb, scr, l);
        self.orderf_results(st, pa, l)
    }

    fn emit_xor_swap(&self, g: &mut Emitter, x: u32, y: u32)
        ensures
            final(g)@ == self.xor_swap(old(g)@, x, y),
    {
        g.emit(movf(y));
        g.emit(f_op(Op::Xorwf, x));
        g.emit(movf(x));
        g.emit(f_op(Op::Xorwf, y));
        g.emit(movf(y));
        g.emit(f_op(Op::Xorwf, x));
    }

    fn emit_mant_hi(&self, g: &mut Emitter, slot: u32)
        ensures
            final(g)@ == self.mant_hi(old(g)@, slot),
    {
        let l_imp: u32 = g.fresh_label();
        let l_done: u32 = g.fresh_label();
        g.emit(movf(at(slot, 3)));
        g.emit(lit(LitOp::Andlw, 0x7F));
        g.emit(on_z(BitOp::Btfss));
        g.emit(goto_tmp(l_imp));
        g.emit(ram_bit(BitOp::Btfsc, at(slot, 2), 7));
        g.emit(goto_tmp(l_imp));
        g.emit(movf(at(slot, 2)));
        g.emit(lit(LitOp::Andlw, 0x7F));
        g.emit(goto_tmp(l_done));
        g.emit(label_tmp(l_imp));
        g.emit(movf(at(slot, 2)));
        g.emit(lit(LitOp::Andlw, 0x7F));
        g.emit(lit(LitOp::Iorlw, 0x80));
        g.emit(label_tmp(l_done));
    }

    pub fn emit_extract(
        &self,
        g: &mut Emitter,
        slot: u32,
        sign: u32,
        exp: u32,
        mant: u32,
        flip: bool,
    )
        ensures
            final(g)@ == self.extract(old(g)@, slot, sign, exp, mant, flip),
    {
        g.emit(movf(at(slot, 3)));
        g.emit(lit(LitOp::Andlw, 0x80));
        if flip {
            g.emit(lit(LitOp::Xorlw, 0x80));
        }
        g.emit(movwf(sign));
        g.emit(movf(at(slot, 3)));
        g.emit(lit(LitOp::Andlw, 0x7F));
        g.emit(movwf(exp));
        g.emit(on_c(BitOp::Bcf));
        g.emit(f_op(Op::Rlf, exp));
        g.emit(ram_bit(BitOp::Btfsc, at(slot, 2), 7));
        g.emit(ram_bit(BitOp::Bsf, exp, 0));
        g.emit(movf(slot));
        g.emit(movwf(mant));
        g.emit(movf(at(slot, 1)));
        g.emit(movwf(at(mant, 1)));
        self.emit_mant_hi(g, slot);
        g.emit(movwf(at(mant, 2)));
        let l_den_done: u32 = g.fresh_label();
        g.emit(movf(exp));
        g.emit(on_z(BitOp::Btfss));
        g.emit(goto_tmp(l_den_done));
        g.emit(movf(mant));
        g.emit(w_op(Op::Iorwf, at(mant, 1)));
        g.emit(w_op(Op::Iorwf, at(mant, 2)));
        g.emit(on_z(BitOp::Btfsc));
        g.emit(goto_tmp(l_den_done));
        g.emit(movlw(0x01));
        g.emit(movwf(exp));
        g.emit(label_tmp(l_den_done));
    }

    fn emit_round_up(&self, g: &mut Emitter, m0: u32, m1: u32, m2: u32, e: u32)
        ensures
            final(g)@ == self.round_up(old(g)@, m0, m1, m2, e),
    {
        let l_renorm: u32 = g.fresh_label();
        let l_done: u32 = g.fresh_label();
        g.emit(f_op(Op::Incf, m0));
        g.emit(on_z(BitOp::Btfsc));
        g.emit(f_op(Op::Incf, m1));
        g.emit(on_z(BitOp::Btfsc));
        g.emit(f_op(Op::Incf, m2));
        g.emit(on_z(BitOp::Btfsc));
        g.emit(goto_tmp(l_renorm));
        g.emit(goto_tmp(l_done));
        g.emit(label_tmp(l_renorm));
        g.emit(movlw(0x80));
        g.emit(movwf(m2));
        g.emit(clrf(m1));
        g.emit(clrf(m0));
        g.emit(movlw(0x01));
        g.emit(f_op(Op::Addwf, e));
        g.emit(label_tmp(l_done));
    }

    fn emit_assemble(&self, g: &mut Emitter, sign: u32, e: u32, m0: u32, m1: u32, m2: u32)
        ensures
            final(g)@ == self.assemble(old(g)@, sign, e, m0, m1, m2),
    {
        let r: u32 = self.retval;
        g.emit(movf(m0));
        g.emit(movwf(r));
        g.emit(movf(m1));
        g.emit(movwf(at(r, 1)));
        g.emit(movlw(0x7F));
        g.emit(w_op(Op::Andwf, m2));
        g.emit(movwf(at(r, 2)));
        g.emit(ram_bit(BitOp::Btfsc, e, 0));
        g.emit(ram_bit(BitOp::Bsf, at(r, 2), 7));
        g.emit(movf(e));
        g.emit(movwf(at(r, 3)));
        g.emit(on_c(BitOp::Bcf));
        g.emit(f_op(Op::Rrf, at(r, 3)));
        g.emit(ram_bit(BitOp::Btfsc, sign, 7));
        g.emit(ram_bit(BitOp::Bsf, at(r, 3), 7));
        g.emit(Line::Return);
    }

    fn emit_quiet_nan(&self, g: &mut Emitter, sign: u32)
        ensures
            final(g)@ == self.quiet_nan(old(g)@, sign),
    {
        let r: u32 = self.retval;
        g.emit(clrf(r));
        g.emit(clrf(at(r, 1)));
        g.emit(movlw(0xC0));
        g.emit(movwf(at(r, 2)));
        g.emit(movlw(0x7F));
        g.emit(movwf(at(r, 3)));
        g.emit(ram_bit(BitOp::Btfsc, sign, 7));
        g.emit(ram_bit(BitOp::Bsf, at(r, 3), 7));
        g.emit(Line::Return);
    }

    fn emit_infinity(&self, g: &mut Emitter, sign: u32)
        ensures
            final(g)@ == self.infinity(old(g)@, sign),
    {
        let r: u32 = self.retval;
        g.emit(clrf(r));
        g.emit(clrf(at(r, 1)));
        g.emit(movlw(0x80));
        g.emit(movwf(at(r, 2)));
        g.emit(movlw(0x7F));
        g.emit(movwf(at(r, 3)));
        g.emit(ram_bit(BitOp::Btfsc, sign, 7));
        g.emit(ram_bit(BitOp::Bsf, at(r, 3), 7));
        g.emit(Line::Return);
    }

    fn emit_div_step(
        &self,
        g: &mut Emitter,
        rem: u32,
        den: u32,
        qbit: u32,
        l_restore: u32,
        l_next: u32,
    )
        ensures
            final(g)@ == self.div_step(old(g)@, rem, den, qbit, l_restore, l_next),
    {
        g.emit(movf(den));
        g.emit(f_op(Op::Subwf, rem));
        g.emit(movf(at(den, 1)));
        g.emit(on_c(BitOp::Btfss));
        g.emit(w_op(Op::Incfsz, at(den, 1)));
        g.emit(f_op(Op::Subwf, at(rem, 1)));
        g.emit(movf(at(den, 2)));
        g.emit(on_c(BitOp::Btfss));
        g.emit(w_op(Op::Incfsz, at(den, 2)));
        g.emit(f_op(Op::Subwf, at(rem, 2)));
        g.emit(movlw(0x00));
        g.emit(on_c(BitOp::Btfss));
        g.emit(lit(LitOp::Addlw, 0x01));
        g.emit(f_op(Op::Subwf, at(rem, 3)));
        g.emit(on_c(BitOp::Btfss));
        g.emit(goto_tmp(l_restore));
        g.emit(ram_bit(BitOp::Bsf, qbit, 0));
        g.emit(goto_tmp(l_next));
        g.emit(label_tmp(l_restore));
        g.emit(movf(den));
        g.emit(f_op(Op::Addwf, rem));
        g.emit(movf(at(den, 1)));
        g.emit(on_c(BitOp::Btfsc));
        g.emit(w_op(Op::Incfsz, at(den, 1)));
        g.emit(f_op(Op::Addwf, at(rem, 1)));
        g.emit(movf(at(den, 2)));
        g.emit(on_c(BitOp::Btfsc));
        g.emit(w_op(Op::Incfsz, at(den, 2)));
        g.emit(f_op(Op::Addwf, at(rem, 2)));
        g.emit(movlw(0x00));
        g.emit(on_c(BitOp::Btfsc));
        g.emit(lit(LitOp::Addlw, 0x01));
        g.emit(f_op(Op::Addwf, at(rem, 3)));
        g.emit(label_tmp(l_next));
    }

    fn emit_addf_specials(&self, g: &mut Emitter, scr: u32, l: u32)
        ensures
            final(g)@ == self.addf_specials(old(g)@, scr, l),
    {
        reveal(Gen::addf_specials);
        let sa: u32 = scr;
        let ea: u32 = at(scr, 1);
        let ma0: u32 = at(scr, 2);
        let ma1: u32 = at(scr, 3);
        let ma2: u32 = at(scr, 4);
        let sb: u32 = at(scr, 5);
        let eb: u32 = at(scr, 6);
        let mb0: u32 = at(scr, 7);
        let mb1: u32 = at(scr, 8);
        let mb2: u32 = at(scr, 9);
        let cnt: u32 = at(scr, 11);
        let l_nan: u32 = label_at(l, 25);
        let l_inf: u32 = label_at(l, 26);
        let l_a_not_inf: u32 = label_at(l, 27);
        let l_b_not_inf: u32 = label_at(l, 28);
        let l_a_nan_done: u32 = label_at(l, 29);
        let l_b_nan_done: u32 = label_at(l, 30);
        let l_inf_done: u32 = label_at(l, 31);
        g.emit(movf(ea));
        g.emit(lit(LitOp::Sublw, 0xFF));
        g.emit(on_z(BitOp::Btfss));
        g.emit(goto_tmp(l_a_nan_done));
        g.emit(movf(ma0));
        g.emit(w_op(Op::Iorwf, ma1));
        g.emit(movwf(cnt));
        g.emit(movf(ma2));
        g.emit(lit(LitOp::Andlw, 0x7F));
        g.emit(w_op(Op::Iorwf, cnt));
        g.emit(on_z(BitOp::Btfss));
        g.emit(goto_tmp(l_nan));
        g.emit(label_tmp(l_a_nan_done));
        g.emit(movf(eb));
        g.emit(lit(LitOp::Sublw, 0xFF));
        g.emit(on_z(BitOp::Btfss));
        g.emit(goto_tmp(l_b_nan_done));
        g.emit(movf(mb0));
        g.emit(w_op(Op::Iorwf, mb1));
        g.emit(movwf(cnt));
        g.emit(movf(mb2));
        g.emit(lit(LitOp::Andlw, 0x7F));
        g.emit(w_op(Op::Iorwf, cnt));
        g.emit(on_z(BitOp::Btfss));
        g.emit(goto_tmp(l_nan));
        g.emit(label_tmp(l_b_nan_done));
        g.emit(movf(ea));
        g.emit(lit(LitOp::Sublw, 0xFF));
        g.emit(on_z(BitOp::Btfss));
        g.emit(goto_tmp(l_a_not_inf));
        g.emit(movf(eb));
        g.emit(lit(LitOp::Sublw, 0xFF));
        g.emit(on_z(BitOp::Btfss));
        g.emit(goto_tmp(l_b_not_inf));
        g.emit(movf(sa));
        g.emit(w_op(Op::Xorwf, sb));
        g.emit(on_z(BitOp::Btfss));
        g.emit(goto_tmp(l_nan));
        g.emit(goto_tmp(l_inf));
        g.emit(label_tmp(l_b_not_inf));
        g.emit(goto_tmp(l_inf));
        g.emit(label_tmp(l_a_not_inf));
        g.emit(movf(eb));
        g.emit(lit(LitOp::Sublw, 0xFF));
        g.emit(on_z(BitOp::Btfss));
        g.emit(goto_tmp(l_inf_done));
        g.emit(movf(sb));
        g.emit(movwf(sa));
        g.emit(goto_tmp(l_inf));
        g.emit(label_tmp(l_inf));
        self.emit_infinity(g, sa);
        g.emit(label_tmp(l_nan));
        self.emit_quiet_nan(g, sa);
        g.emit(label_tmp(l_inf_done));
    }

    fn emit_addf_zeros(&self, g: &mut Emitter, scr: u32, l: u32)
        ensures
            final(g)@ == self.addf_zeros(old(g)@, scr, l),
    {
        reveal(Gen::addf_zeros);
        let sa: u32 = scr;
        let ea: u32 = at(scr, 1);
        let ma0: u32 = at(scr, 2);
        let ma1: u32 = at(scr, 3);
        let ma2: u32 = at(scr, 4);
        let sb: u32 = at(scr, 5);
        let eb: u32 = at(scr, 6);
        let mb0: u32 = at(scr, 7);
        let mb1: u32 = at(scr, 8);
        let mb2: u32 = at(scr, 9);
        let stick: u32 = at(scr, 10);
        let ta1: u32 = at(scr, 12);
        let ta2: u32 = at(scr, 13);
        let l_ma_nz: u32 = label_at(l, 0);
        let l_copy_b: u32 = label_at(l, 1);
        let l_zero: u32 = label_at(l, 2);
        let l_ma_nz2: u32 = label_at(l, 3);
        let l_den_conv: u32 = label_at(l, 32);
        g.emit(movf(ma0));
        g.emit(w_op(Op::Iorwf, ma1));
        g.emit(w_op(Op::Iorwf, ma2));
        g.emit(on_z(BitOp::Btfss));
        g.emit(goto_tmp(l_ma_nz));
        g.emit(movf(mb0));
        g.emit(w_op(Op::Iorwf, mb1));
        g.emit(w_op(Op::Iorwf, mb2));
        g.emit(on_z(BitOp::Btfss));
        g.emit(goto_tmp(l_copy_b));
        g.emit(goto_tmp(l_zero));
        g.emit(label_tmp(l_copy_b));
        g.emit(movf(sb));
        g.emit(movwf(sa));
        g.emit(movf(eb));
        g.emit(movwf(ea));
        g.emit(movf(mb0));
        g.emit(movwf(ma0));
        g.emit(movf(mb1));
        g.emit(movwf(ma1));
        g.emit(movf(mb2));
        g.emit(movwf(ma2));
        g.emit(clrf(stick));
        g.emit(goto_tmp(l_den_conv));
        g.emit(label_tmp(l_ma_nz));
        g.emit(movf(mb0));
        g.emit(w_op(Op::Iorwf, mb1));
        g.emit(w_op(Op::Iorwf, mb2));
        g.emit(on_z(BitOp::Btfss));
        g.emit(goto_tmp(l_ma_nz2));
        g.emit(clrf(stick));
        g.emit(goto_tmp(l_den_conv));
        g.emit(label_tmp(l_ma_nz2));
        g.emit(clrf(stick));
        g.emit(clrf(ta1));
        g.emit(clrf(ta2));
    }

    fn emit_addf_align(&self, g: &mut Emitter, scr: u32, l: u32)
        ensures
            final(g)@ == self.addf_align(old(g)@, scr, l),
    {
        reveal(Gen::addf_align);
        let sa: u32 = scr;
        let ea: u32 = at(scr, 1);
        let ma0: u32 = at(scr, 2);
        let ma1: u32 = at(scr, 3);
        let ma2: u32 = at(scr, 4);
        let sb: u32 = at(scr, 5);
        let eb: u32 = at(scr, 6);
        let mb0: u32 = at(scr, 7);
        let mb1: u32 = at(scr, 8);
        let mb2: u32 = at(scr, 9);
        let stick: u32 = at(scr, 10);
        let cnt: u32 = at(scr, 11);
        let ta0: u32 = at(scr, 6);
        let ta1: u32 = at(scr, 12);
        let ta2: u32 = at(scr, 13);
        let l_no_swap: u32 = label_at(l, 4);
        let l_no_clamp: u32 = label_at(l, 5);
        let l_align_loop: u32 = label_at(l, 6);
        let l_align_done: u32 = label_at(l, 7);
        g.emit(movf(eb));
        g.emit(w_op(Op::Subwf, ea));
        g.emit(on_c(BitOp::Btfss));
        g.emit(goto_tmp(l_no_swap));
        self.emit_xor_swap(g, sa, sb);
        self.emit_xor_swap(g, ea, eb);
        self.emit_xor_swap(g, ma0, mb0);
        self.emit_xor_swap(g, ma1, mb1);
        self.emit_xor_swap(g, ma2, mb2);
        g.emit(label_tmp(l_no_swap));
        g.emit(movf(ea));
        g.emit(w_op(Op::Subwf, eb));
        g.emit(movwf(cnt));
        g.emit(movf(eb));
        g.emit(movwf(ea));
        g.emit(clrf(ta0));
        g.emit(movlw(0x1F));
        g.emit(w_op(Op::Subwf, cnt));
        g.emit(on_c(BitOp::Btfss));
        g.emit(goto_tmp(l_no_clamp));
        g.emit(movlw(0x1F));
        g.emit(movwf(cnt));
        g.emit(label_tmp(l_no_clamp));
        g.emit(movf(cnt));
        g.emit(on_z(BitOp::Btfss));
        g.emit(goto_tmp(l_align_loop));
        g.emit(goto_tmp(l_align_done));
        g.emit(label_tmp(l_align_loop));
        g.emit(on_c(BitOp::Bcf));
        g.emit(f_op(Op::Rrf, ma2));
        g.emit(f_op(Op::Rrf, ma1));
        g.emit(f_op(Op::Rrf, ma0));
        g.emit(f_op(Op::Rrf, ta2));
        g.emit(f_op(Op::Rrf, ta1));
        g.emit(f_op(Op::Rrf, ta0));
        g.emit(on_c(BitOp::Btfsc));
        g.emit(ram_bit(BitOp::Bsf, stick, 1));
        g.emit(ram_bit(BitOp::Btfsc, ta2, 7));
        g.emit(ram_bit(BitOp::Bsf, stick, 0));
        g.emit(ram_bit(BitOp::Btfss, ta2, 7));
        g.emit(ram_bit(BitOp::Bcf, stick, 0));
        g.emit(f_op(Op::Decfsz, cnt));
        g.emit(goto_tmp(l_align_loop));
        g.emit(label_tmp(l_align_done));
    }

    fn emit_addf_sum(&self, g: &mut Emitter, scr: u32, l: u32)
        ensures
            final(g)@ == self.addf_sum(old(g)@, scr, l),
    {
        reveal(Gen::addf_sum);
        let sa: u32 = scr;
        let ea: u32 = at(scr, 1);
        let ma0: u32 = at(scr, 2);
        let ma1: u32 = at(scr, 3);
        let ma2: u32 = at(scr, 4);
        let sb: u32 = at(scr, 5);
        let mb0: u32 = at(scr, 7);
        let mb1: u32 = at(scr, 8);
        let mb2: u32 = at(scr, 9);
        let stick: u32 = at(scr, 10);
        let l_sub: u32 = label_at(l, 8);
        let l_add_carry: u32 = label_at(l, 9);
        let l_round_step: u32 = label_at(l, 20);
        g.emit(movf(sa));
        g.emit(w_op(Op::Xorwf, sb));
        g.emit(on_z(BitOp::Btfss));
        g.emit(goto_tmp(l_sub));
        g.emit(movf(mb0));
        g.emit(f_op(Op::Addwf, ma0));
        g.emit(movf(mb1));
        g.emit(on_c(BitOp::Btfsc));
        g.emit(w_op(Op::Incfsz, mb1));
        g.emit(f_op(Op::Addwf, ma1));
        g.emit(movf(mb2));
        g.emit(on_c(BitOp::Btfsc));
        g.emit(w_op(Op::Incfsz, mb2));
        g.emit(f_op(Op::Addwf, ma2));
        g.emit(on_c(BitOp::Btfsc));
        g.emit(goto_tmp(l_add_carry));
        g.emit(goto_tmp(l_round_step));
        g.emit(label_tmp(l_add_carry));
        g.emit(ram_bit(BitOp::Btfsc, stick, 0));
        g.emit(ram_bit(BitOp::Bsf, stick, 1));
        g.emit(on_c(BitOp::Bcf));
        g.emit(f_op(Op::Rrf, ma2));
        g.emit(f_op(Op::Rrf, ma1));
        g.emit(f_op(Op::Rrf, ma0));
        g.emit(ram_bit(BitOp::Bcf, stick, 0));
        g.emit(on_c(BitOp::Btfsc));
        g.emit(ram_bit(BitOp::Bsf, stick, 0));
        g.emit(ram_bit(BitOp::Bsf, ma2, 7));
        g.emit(movlw(0x01));
        g.emit(f_op(Op::Addwf, ea));
        g.emit(goto_tmp(l_round_step));
    }

    fn emit_addf_order(&self, g: &mut Emitter, scr: u32, l: u32)
        ensures
            final(g)@ == self.addf_order(old(g)@, scr, l),
    {
        reveal(Gen::addf_order);
        let sa: u32 = scr;
        let ma0: u32 = at(scr, 2);
        let ma1: u32 = at(scr, 3);
        let ma2: u32 = at(scr, 4);
        let sb: u32 = at(scr, 5);
        let mb0: u32 = at(scr, 7);
        let mb1: u32 = at(scr, 8);
        let mb2: u32 = at(scr, 9);
        let stick: u32 = at(scr, 10);
        let ta0: u32 = at(scr, 6);
        let ta1: u32 = at(scr, 12);
        let ta2: u32 = at(scr, 13);
        let l_zero: u32 = label_at(l, 2);
        let l_sub: u32 = label_at(l, 8);
        let l_cmp_b1: u32 = label_at(l, 10);
        let l_cmp_b0: u32 = label_at(l, 11);
        let l_cmp_frac: u32 = label_at(l, 12);
        let l_sub_equal_frac: u32 = label_at(l, 13);
        let l_sub_swap: u32 = label_at(l, 14);
        let l_sub_done: u32 = label_at(l, 15);
        let l_normalize: u32 = label_at(l, 18);
        g.emit(label_tmp(l_sub));
        g.emit(movf(mb2));
        g.emit(w_op(Op::Subwf, ma2));
        g.emit(on_c(BitOp::Btfss));
        g.emit(goto_tmp(l_sub_swap));
        g.emit(on_z(BitOp::Btfsc));
        g.emit(goto_tmp(l_cmp_b1));
        g.emit(goto_tmp(l_sub_done));
        g.emit(label_tmp(l_cmp_b1));
        g.emit(movf(mb1));
        g.emit(w_op(Op::Subwf, ma1));
        g.emit(on_c(BitOp::Btfss));
        g.emit(goto_tmp(l_sub_swap));
        g.emit(on_z(BitOp::Btfsc));
        g.emit(goto_tmp(l_cmp_b0));
        g.emit(goto_tmp(l_sub_done));
        g.emit(label_tmp(l_cmp_b0));
        g.emit(movf(mb0));
        g.emit(w_op(Op::Subwf, ma0));
        g.emit(on_c(BitOp::Btfss));
        g.emit(goto_tmp(l_sub_swap));
        g.emit(on_z(BitOp::Btfsc));
        g.emit(goto_tmp(l_cmp_frac));
        g.emit(goto_tmp(l_sub_done));
        g.emit(label_tmp(l_cmp_frac));
        g.emit(movf(ta0));
        g.emit(w_op(Op::Iorwf, ta1));
        g.emit(w_op(Op::Iorwf, ta2));
        g.emit(on_z(BitOp::Btfss));
        g.emit(goto_tmp(l_sub_equal_frac));
        g.emit(ram_bit(BitOp::Btfss, stick, 1));
        g.emit(goto_tmp(l_zero));
        g.emit(label_tmp(l_sub_equal_frac));
        g.emit(ram_bit(BitOp::Btfsc, stick, 1));
        g.emit(ram_bit(BitOp::Bsf, ta0, 0));
        g.emit(clrf(ma0));
        g.emit(clrf(ma1));
        g.emit(clrf(ma2));
        g.emit(goto_tmp(l_normalize));
        g.emit(label_tmp(l_sub_swap));
        self.emit_xor_swap(g, ma0, mb0);
        self.emit_xor_swap(g, ma1, mb1);
        self.emit_xor_swap(g, ma2, mb2);
        g.emit(movf(sb));
        g.emit(movwf(sa));
    }

    fn emit_addf_difference(&self, g: &mut Emitter, scr: u32, l: u32)
        ensures
            final(g)@ == self.addf_difference(old(g)@, scr, l),
    {
        reveal(Gen::addf_difference);
        let ma0: u32 = at(scr, 2);
        let ma1: u32 = at(scr, 3);
        let ma2: u32 = at(scr, 4);
        let mb0: u32 = at(scr, 7);
        let mb1: u32 = at(scr, 8);
        let mb2: u32 = at(scr, 9);
        let stick: u32 = at(scr, 10);
        let ta0: u32 = at(scr, 6);
        let ta1: u32 = at(scr, 12);
        let ta2: u32 = at(scr, 13);
        let l_sub_done: u32 = label_at(l, 15);
        let l_sub_no_frac: u32 = label_at(l, 16);
        let l_sub_borrow_done: u32 = label_at(l, 17);
        let l_normalize: u32 = label_at(l, 18);
        g.emit(label_tmp(l_sub_done));
        g.emit(ram_bit(BitOp::Btfsc, stick, 1));
        g.emit(ram_bit(BitOp::Bsf, ta0, 0));
        g.emit(movf(ta0));
        g.emit(w_op(Op::Iorwf, ta1));
        g.emit(w_op(Op::Iorwf, ta2));
        g.emit(on_z(BitOp::Btfsc));
        g.emit(goto_tmp(l_sub_no_frac));
        g.emit(f_op(Op::Comf, ta0));
        g.emit(f_op(Op::Comf, ta1));
        g.emit(f_op(Op::Comf, ta2));
        g.emit(f_op(Op::Incf, ta0));
        g.emit(on_z(BitOp::Btfsc));
        g.emit(f_op(Op::Incf, ta1));
        g.emit(on_z(BitOp::Btfsc));
        g.emit(f_op(Op::Incf, ta2));
        g.emit(movlw(0x01));
        g.emit(f_op(Op::Subwf, ma0));
        g.emit(on_c(BitOp::Btfsc));
        g.emit(goto_tmp(l_sub_borrow_done));
        g.emit(movlw(0x01));
        g.emit(f_op(Op::Subwf, ma1));
        g.emit(on_c(BitOp::Btfsc));
        g.emit(goto_tmp(l_sub_borrow_done));
        g.emit(movlw(0x01));
        g.emit(f_op(Op::Subwf, ma2));
        g.emit(label_tmp(l_sub_borrow_done));
        g.emit(label_tmp(l_sub_no_frac));
        g.emit(movf(mb0));
        g.emit(f_op(Op::Subwf, ma0));
        g.emit(movf(mb1));
        g.emit(on_c(BitOp::Btfss));
        g.emit(w_op(Op::Incfsz, mb1));
        g.emit(f_op(Op::Subwf, ma1));
        g.emit(movf(mb2));
        g.emit(on_c(BitOp::Btfss));
        g.emit(w_op(Op::Incfsz, mb2));
        g.emit(f_op(Op::Subwf, ma2));
        g.emit(goto_tmp(l_normalize));
    }

    fn emit_addf_normalize(&self, g: &mut Emitter, scr: u32, l: u32)
        ensures
            final(g)@ == self.addf_normalize(old(g)@, scr, l),
    {
        reveal(Gen::addf_normalize);
        let ea: u32 = at(scr, 1);
        let ma0: u32 = at(scr, 2);
        let ma1: u32 = at(scr, 3);
        let ma2: u32 = at(scr, 4);
        let stick: u32 = at(scr, 10);
        let ta0: u32 = at(scr, 6);
        let ta1: u32 = at(scr, 12);
        let ta2: u32 = at(scr, 13);
        let l_normalize: u32 = label_at(l, 18);
        let l_sub_guard: u32 = label_at(l, 19);
        g.emit(label_tmp(l_normalize));
        g.emit(movf(ma2));
        g.emit(lit(LitOp::Andlw, 0x80));
        g.emit(on_z(BitOp::Btfss));
        g.emit(goto_tmp(l_sub_guard));
        g.emit(movf(ea));
        g.emit(lit(LitOp::Sublw, 0x01));
        g.emit(on_z(BitOp::Btfsc));
        g.emit(goto_tmp(l_sub_guard));
        g.emit(on_c(BitOp::Bcf));
        g.emit(f_op(Op::Rlf, ta0));
        g.emit(f_op(Op::Rlf, ta1));
        g.emit(f_op(Op::Rlf, ta2));
        g.emit(f_op(Op::Rlf, ma0));
        g.emit(f_op(Op::Rlf, ma1));
        g.emit(f_op(Op::Rlf, ma2));
        g.emit(movlw(0x01));
        g.emit(f_op(Op::Subwf, ea));
        g.emit(goto_tmp(l_normalize));
        g.emit(label_tmp(l_sub_guard));
        g.emit(ram_bit(BitOp::Btfsc, ta2, 7));
        g.emit(ram_bit(BitOp::Bsf, stick, 0));
        g.emit(ram_bit(BitOp::Btfss, ta2, 7));
        g.emit(ram_bit(BitOp::Bcf, stick, 0));
    }

    fn emit_addf_round(&self, g: &mut Emitter, scr: u32, l: u32)
        ensures
            final(g)@ == self.addf_round(old(g)@, scr, l),
    {
        reveal(Gen::addf_round);
        let sa: u32 = scr;
        let ea: u32 = at(scr, 1);
        let ma0: u32 = at(scr, 2);
        let ma1: u32 = at(scr, 3);
        let ma2: u32 = at(scr, 4);
        let stick: u32 = at(scr, 10);
        let ta0: u32 = at(scr, 6);
        let ta1: u32 = at(scr, 12);
        let ta2: u32 = at(scr, 13);
        let l_round_step: u32 = label_at(l, 20);
        let l_round_up: u32 = label_at(l, 21);
        let l_assemble: u32 = label_at(l, 22);
        let l_den_conv: u32 = label_at(l, 32);
        let l_den_done: u32 = label_at(l, 33);
        g.emit(label_tmp(l_round_step));
        g.emit(ram_bit(BitOp::Btfss, stick, 0));
        g.emit(goto_tmp(l_den_conv));
        g.emit(movf(ta2));
        g.emit(lit(LitOp::Andlw, 0x7F));
        g.emit(w_op(Op::Iorwf, ta0));
        g.emit(w_op(Op::Iorwf, ta1));
        g.emit(on_z(BitOp::Btfss));
        g.emit(goto_tmp(l_round_up));
        g.emit(ram_bit(BitOp::Btfsc, stick, 1));
        g.emit(goto_tmp(l_round_up));
        g.emit(ram_bit(BitOp::Btfsc, ma0, 0));
        g.emit(goto_tmp(l_round_up));
        g.emit(goto_tmp(l_den_conv));
        g.emit(label_tmp(l_round_up));
        self.emit_round_up(g, ma0, ma1, ma2, ea);
        g.emit(label_tmp(l_den_conv));
        g.emit(movf(ma2));
        g.emit(lit(LitOp::Andlw, 0x80));
        g.emit(on_z(BitOp::Btfss));
        g.emit(goto_tmp(l_den_done));
        g.emit(movf(ea));
        g.emit(lit(LitOp::Sublw, 0x01));
        g.emit(on_z(BitOp::Btfss));
        g.emit(goto_tmp(l_den_done));
        g.emit(clrf(ea));
        g.emit(label_tmp(l_den_done));
        g.emit(label_tmp(l_assemble));
        self.emit_assemble(g, sa, ea, ma0, ma1, ma2);
    }

    fn emit_addf_zero(&self, g: &mut Emitter, scr: u32, l: u32)
        ensures
            final(g)@ == self.addf_zero(old(g)@, scr, l),
    {
        reveal(Gen::addf_zero);
        let sa: u32 = scr;
        let ea: u32 = at(scr, 1);
        let ma0: u32 = at(scr, 2);
        let ma1: u32 = at(scr, 3);
        let ma2: u32 = at(scr, 4);
        let sb: u32 = at(scr, 5);
        let l_zero: u32 = label_at(l, 2);
        let l_assemble: u32 = label_at(l, 22);
        let l_zs_clear: u32 = label_at(l, 23);
        let l_zs_done: u32 = label_at(l, 24);
        g.emit(label_tmp(l_zero));
        g.emit(ram_bit(BitOp::Btfss, sa, 7));
        g.emit(goto_tmp(l_zs_done));
        g.emit(ram_bit(BitOp::Btfss, sb, 7));
        g.emit(goto_tmp(l_zs_clear));
        g.emit(goto_tmp(l_zs_done));
        g.emit(label_tmp(l_zs_clear));
        g.emit(ram_bit(BitOp::Bcf, sa, 7));
        g.emit(label_tmp(l_zs_done));
        g.emit(clrf(ea));
        g.emit(clrf(ma0));
        g.emit(clrf(ma1));
        g.emit(clrf(ma2));
        g.emit(goto_tmp(l_assemble));
    }

    pub fn emit_addf(&self, g: &mut Emitter, scr: u32)
        ensures
            final(g)@ == self.addf(old(g)@, scr),
    {
        reveal(Gen::addf);
        let l: u32 = g.reserve(34);
        self.emit_addf_specials(g, scr, l);
        self.emit_addf_zeros(g, scr, l);
        self.emit_addf_align(g, scr, l);
        self.emit_addf_sum(g, scr, l);
        self.emit_addf_order(g, scr, l);
        self.emit_addf_difference(g, scr, l);
        self.emit_addf_normalize(g, scr, l);
        self.emit_addf_round(g, scr, l);
        self.emit_addf_zero(g, scr, l);
    }

    fn emit_mulf_exponent(&self, g: &mut Emitter, pa: u32, pb: u32, scr: u32, l: u32)
        ensures
            final(g)@ == self.mulf_exponent(old(g)@, pa, pb, scr, l),
    {
        reveal(Gen::mulf_exponent);
        let sign: u32 = scr;
        let e: u32 = at(scr, 1);
        let m3: u32 = at(scr, 10);
        let low0: u32 = at(scr, 11);
        let low1: u32 = at(scr, 12);
        let low2: u32 = at(scr, 13);
        let l_ehi_c1clear: u32 = label_at(l, 13);
        let l_ehi_done: u32 = label_at(l, 14);
        let l_a_exp_done: u32 = label_at(l, 15);
        let l_b_exp_done: u32 = label_at(l, 16);
        g.emit(movf(at(pa, 3)));
        g.emit(w_op(Op::Xorwf, at(pb, 3)));
        g.emit(lit(LitOp::Andlw, 0x80));
        g.emit(movwf(sign));
        g.emit(movf(at(pa, 3)));
        g.emit(lit(LitOp::Andlw, 0x7F));
        g.emit(movwf(low0));
        g.emit(on_c(BitOp::Bcf));
        g.emit(f_op(Op::Rlf, low0));
        g.emit(ram_bit(BitOp::Btfsc, at(pa, 2), 7));
        g.emit(ram_bit(BitOp::Bsf, low0, 0));
        g.emit(movf(at(pb, 3)));
        g.emit(lit(LitOp::Andlw, 0x7F));
        g.emit(movwf(low1));
        g.emit(on_c(BitOp::Bcf));
        g.emit(f_op(Op::Rlf, low1));
        g.emit(ram_bit(BitOp::Btfsc, at(pb, 2), 7));
        g.emit(ram_bit(BitOp::Bsf, low1, 0));
        g.emit(movf(low0));
        g.emit(on_z(BitOp::Btfss));
        g.emit(goto_tmp(l_a_exp_done));
        g.emit(movf(pa));
        g.emit(movwf(low2));
        g.emit(movf(at(pa, 1)));
        g.emit(w_op(Op::Iorwf, low2));
        g.emit(movwf(low2));
        g.emit(movf(at(pa, 2)));
        g.emit(lit(LitOp::Andlw, 0x7F));
        g.emit(w_op(Op::Iorwf, low2));
        g.emit(on_z(BitOp::Btfsc));
        g.emit(goto_tmp(l_a_exp_done));
        g.emit(movlw(0x01));
        g.emit(movwf(low0));
        g.emit(label_tmp(l_a_exp_done));
        g.emit(movf(low1));
        g.emit(on_z(BitOp::Btfss));
        g.emit(goto_tmp(l_b_exp_done));
        g.emit(movf(pb));
        g.emit(movwf(low2));
        g.emit(movf(at(pb, 1)));
        g.emit(w_op(Op::Iorwf, low2));
        g.emit(movwf(low2));
        g.emit(movf(at(pb, 2)));
        g.emit(lit(LitOp::Andlw, 0x7F));
        g.emit(w_op(Op::Iorwf, low2));
        g.emit(on_z(BitOp::Btfsc));
        g.emit(goto_tmp(l_b_exp_done));
        g.emit(movlw(0x01));
        g.emit(movwf(low1));
        g.emit(label_tmp(l_b_exp_done));
        g.emit(movf(low1));
        g.emit(w_op(Op::Addwf, low0));
        g.emit(movwf(low0));
        g.emit(clrf(m3));
        g.emit(on_c(BitOp::Btfsc));
        g.emit(ram_bit(BitOp::Bsf, m3, 0));
        g.emit(movlw(0x81));
        g.emit(w_op(Op::Addwf, low0));
        g.emit(movwf(e));
        g.emit(movlw(0x00));
        g.emit(on_c(BitOp::Btfss));
        g.emit(goto_tmp(l_ehi_c1clear));
        g.emit(ram_bit(BitOp::Btfsc, m3, 0));
        g.emit(movlw(0x01));
        g.emit(goto_tmp(l_ehi_done));
        g.emit(label_tmp(l_ehi_c1clear));
        g.emit(ram_bit(BitOp::Btfsc, m3, 0));
        g.emit(goto_tmp(l_ehi_done));
        g.emit(movlw(0xFF));
        g.emit(label_tmp(l_ehi_done));
        g.emit(movwf(at(e, 1)));
    }

    fn emit_mulf_specials(&self, g: &mut Emitter, pa: u32, pb: u32, scr: u32, l: u32)
        ensures
            final(g)@ == self.mulf_specials(old(g)@, pa, pb, scr, l),
    {
        reveal(Gen::mulf_specials);
        let low2: u32 = at(scr, 13);
        let l_a_not_ff: u32 = label_at(l, 19);
        let l_a_inf: u32 = label_at(l, 20);
        let l_b_not_ff: u32 = label_at(l, 21);
        let l_b_inf: u32 = label_at(l, 22);
        let l_a_inf_b_finite: u32 = label_at(l, 23);
        let l_b_inf_a_finite: u32 = label_at(l, 24);
        let l_nan: u32 = label_at(l, 30);
        let l_inf: u32 = label_at(l, 31);
        g.emit(movf(at(pa, 3)));
        g.emit(lit(LitOp::Andlw, 0x7F));
        g.emit(lit(LitOp::Xorlw, 0x7F));
        g.emit(on_z(BitOp::Btfss));
        g.emit(goto_tmp(l_a_not_ff));
        g.emit(ram_bit(BitOp::Btfss, at(pa, 2), 7));
        g.emit(goto_tmp(l_a_not_ff));
        g.emit(movf(pa));
        g.emit(w_op(Op::Iorwf, at(pa, 1)));
        g.emit(movwf(low2));
        g.emit(movf(at(pa, 2)));
        g.emit(lit(LitOp::Andlw, 0x7F));
        g.emit(w_op(Op::Iorwf, low2));
        g.emit(on_z(BitOp::Btfsc));
        g.emit(goto_tmp(l_a_inf));
        g.emit(goto_tmp(l_nan));
        g.emit(label_tmp(l_a_not_ff));
        g.emit(movf(at(pb, 3)));
        g.emit(lit(LitOp::Andlw, 0x7F));
        g.emit(lit(LitOp::Xorlw, 0x7F));
        g.emit(on_z(BitOp::Btfss));
        g.emit(goto_tmp(l_b_not_ff));
        g.emit(ram_bit(BitOp::Btfss, at(pb, 2), 7));
        g.emit(goto_tmp(l_b_not_ff));
        g.emit(movf(pb));
        g.emit(w_op(Op::Iorwf, at(pb, 1)));
        g.emit(movwf(low2));
        g.emit(movf(at(pb, 2)));
        g.emit(lit(LitOp::Andlw, 0x7F));
        g.emit(w_op(Op::Iorwf, low2));
        g.emit(on_z(BitOp::Btfsc));
        g.emit(goto_tmp(l_b_inf));
        g.emit(goto_tmp(l_nan));
        g.emit(label_tmp(l_a_inf));
        g.emit(movf(at(pb, 3)));
        g.emit(lit(LitOp::Andlw, 0x7F));
        g.emit(lit(LitOp::Xorlw, 0x7F));
        g.emit(on_z(BitOp::Btfss));
        g.emit(goto_tmp(l_a_inf_b_finite));
        g.emit(ram_bit(BitOp::Btfss, at(pb, 2), 7));
        g.emit(goto_tmp(l_a_inf_b_finite));
        g.emit(movf(pb));
        g.emit(w_op(Op::Iorwf, at(pb, 1)));
        g.emit(movwf(low2));
        g.emit(movf(at(pb, 2)));
        g.emit(lit(LitOp::Andlw, 0x7F));
        g.emit(w_op(Op::Iorwf, low2));
        g.emit(on_z(BitOp::Btfss));
        g.emit(goto_tmp(l_nan));
        g.emit(goto_tmp(l_inf));
        g.emit(label_tmp(l_a_inf_b_finite));
        g.emit(movf(at(pb, 3)));
        g.emit(lit(LitOp::Andlw, 0x7F));
        g.emit(on_z(BitOp::Btfss));
        g.emit(goto_tmp(l_inf));
        g.emit(ram_bit(BitOp::Btfsc, at(pb, 2), 7));
        g.emit(goto_tmp(l_inf));
        g.emit(movf(pb));
        g.emit(w_op(Op::Iorwf, at(pb, 1)));
        g.emit(movwf(low2));
        g.emit(movf(at(pb, 2)));
        g.emit(lit(LitOp::Andlw, 0x7F));
        g.emit(w_op(Op::Iorwf, low2));
        g.emit(on_z(BitOp::Btfss));
        g.emit(goto_tmp(l_inf));
        g.emit(goto_tmp(l_nan));
        g.emit(label_tmp(l_b_inf));
        g.emit(movf(at(pa, 3)));
        g.emit(lit(LitOp::Andlw, 0x7F));
        g.emit(on_z(BitOp::Btfss));
        g.emit(goto_tmp(l_b_inf_a_finite));
        g.emit(ram_bit(BitOp::Btfsc, at(pa, 2), 7));
        g.emit(goto_tmp(l_b_inf_a_finite));
        g.emit(movf(pa));
        g.emit(w_op(Op::Iorwf, at(pa, 1)));
        g.emit(movwf(low2));
        g.emit(movf(at(pa, 2)));
        g.emit(lit(LitOp::Andlw, 0x7F));
        g.emit(w_op(Op::Iorwf, low2));
        g.emit(on_z(BitOp::Btfss));
        g.emit(goto_tmp(l_inf));
        g.emit(goto_tmp(l_nan));
        g.emit(label_tmp(l_b_inf_a_finite));
        g.emit(movf(at(pa, 3)));
        g.emit(lit(LitOp::Andlw, 0x7F));
        g.emit(on_z(BitOp::Btfss));
        g.emit(goto_tmp(l_inf));
        g.emit(ram_bit(BitOp::Btfsc, at(pa, 2), 7));
        g.emit(goto_tmp(l_inf));
        g.emit(movf(pa));
        g.emit(w_op(Op::Iorwf, at(pa, 1)));
        g.emit(movwf(low2));
        g.emit(movf(at(pa, 2)));
        g.emit(lit(LitOp::Andlw, 0x7F));
        g.emit(w_op(Op::Iorwf, low2));
        g.emit(on_z(BitOp::Btfss));
        g.emit(goto_tmp(l_inf));
        g.emit(goto_tmp(l_nan));
        g.emit(label_tmp(l_b_not_ff));
    }

    fn emit_mulf_zeros(&self, g: &mut Emitter, pa: u32, pb: u32, scr: u32, l: u32)
        ensures
            final(g)@ == self.mulf_zeros(old(g)@, pa, pb, scr, l),
    {
        reveal(Gen::mulf_zeros);
        let sign: u32 = scr;
        let low2: u32 = at(scr, 13);
        let l_a_nz: u32 = label_at(l, 17);
        let l_b_nz: u32 = label_at(l, 18);
        let l_zero: u32 = label_at(l, 29);
        let l_nan: u32 = label_at(l, 30);
        let l_inf: u32 = label_at(l, 31);
        g.emit(movf(at(pa, 3)));
        g.emit(lit(LitOp::Andlw, 0x7F));
        g.emit(on_z(BitOp::Btfss));
        g.emit(goto_tmp(l_a_nz));
        g.emit(ram_bit(BitOp::Btfsc, at(pa, 2), 7));
        g.emit(goto_tmp(l_a_nz));
        g.emit(movf(pa));
        g.emit(w_op(Op::Iorwf, at(pa, 1)));
        g.emit(movwf(low2));
        g.emit(movf(at(pa, 2)));
        g.emit(lit(LitOp::Andlw, 0x7F));
        g.emit(w_op(Op::Iorwf, low2));
        g.emit(on_z(BitOp::Btfss));
        g.emit(goto_tmp(l_a_nz));
        g.emit(goto_tmp(l_zero));
        g.emit(label_tmp(l_a_nz));
        g.emit(movf(at(pb, 3)));
        g.emit(lit(LitOp::Andlw, 0x7F));
        g.emit(on_z(BitOp::Btfss));
        g.emit(goto_tmp(l_b_nz));
        g.emit(ram_bit(BitOp::Btfsc, at(pb, 2), 7));
        g.emit(goto_tmp(l_b_nz));
        g.emit(movf(pb));
        g.emit(w_op(Op::Iorwf, at(pb, 1)));
        g.emit(movwf(low2));
        g.emit(movf(at(pb, 2)));
        g.emit(lit(LitOp::Andlw, 0x7F));
        g.emit(w_op(Op::Iorwf, low2));
        g.emit(on_z(BitOp::Btfss));
        g.emit(goto_tmp(l_b_nz));
        g.emit(goto_tmp(l_zero));
        g.emit(label_tmp(l_nan));
        self.emit_quiet_nan(g, sign);
        g.emit(label_tmp(l_inf));
        self.emit_infinity(g, sign);
    }

    fn emit_mulf_mantissas(&self, g: &mut Emitter, pa: u32, pb: u32, scr: u32, l: u32)
        ensures
            final(g)@ == self.mulf_mantissas(old(g)@, pa, pb, scr, l),
    {
        reveal(Gen::mulf_mantissas);
        let bk0: u32 = at(scr, 3);
        let bk1: u32 = at(scr, 4);
        let bk2: u32 = at(scr, 5);
        let cnt: u32 = at(scr, 6);
        let m0: u32 = at(scr, 7);
        let m1: u32 = at(scr, 8);
        let m2: u32 = at(scr, 9);
        let m3: u32 = at(scr, 10);
        let low0: u32 = at(scr, 11);
        let low1: u32 = at(scr, 12);
        let low2: u32 = at(scr, 13);
        let l_b_nz: u32 = label_at(l, 18);
        let l_a_mant_implicit: u32 = label_at(l, 25);
        let l_a_mant_done: u32 = label_at(l, 26);
        let l_b_mant_implicit: u32 = label_at(l, 27);
        let l_b_mant_done: u32 = label_at(l, 28);
        g.emit(label_tmp(l_b_nz));
        g.emit(movf(at(pa, 3)));
        g.emit(lit(LitOp::Andlw, 0x7F));
        g.emit(on_z(BitOp::Btfss));
        g.emit(goto_tmp(l_a_mant_implicit));
        g.emit(ram_bit(BitOp::Btfsc, at(pa, 2), 7));
        g.emit(goto_tmp(l_a_mant_implicit));
        g.emit(movf(at(pa, 2)));
        g.emit(lit(LitOp::Andlw, 0x7F));
        g.emit(movwf(at(pa, 2)));
        g.emit(goto_tmp(l_a_mant_done));
        g.emit(label_tmp(l_a_mant_implicit));
        g.emit(movf(at(pa, 2)));
        g.emit(lit(LitOp::Andlw, 0x7F));
        g.emit(lit(LitOp::Iorlw, 0x80));
        g.emit(movwf(at(pa, 2)));
        g.emit(label_tmp(l_a_mant_done));
        g.emit(movf(pb));
        g.emit(movwf(bk0));
        g.emit(movf(at(pb, 1)));
        g.emit(movwf(bk1));
        g.emit(movf(at(pb, 2)));
        g.emit(lit(LitOp::Andlw, 0x7F));
        g.emit(movwf(bk2));
        g.emit(movf(at(pb, 3)));
        g.emit(lit(LitOp::Andlw, 0x7F));
        g.emit(on_z(BitOp::Btfss));
        g.emit(goto_tmp(l_b_mant_implicit));
        g.emit(ram_bit(BitOp::Btfsc, at(pb, 2), 7));
        g.emit(goto_tmp(l_b_mant_implicit));
        g.emit(goto_tmp(l_b_mant_done));
        g.emit(label_tmp(l_b_mant_implicit));
        g.emit(movf(at(pb, 2)));
        g.emit(lit(LitOp::Andlw, 0x7F));
        g.emit(lit(LitOp::Iorlw, 0x80));
        g.emit(movwf(bk2));
        g.emit(label_tmp(l_b_mant_done));
        g.emit(clrf(pb));
        g.emit(clrf(at(pb, 1)));
        g.emit(clrf(at(pb, 2)));
        g.emit(clrf(m0));
        g.emit(clrf(m1));
        g.emit(clrf(m2));
        g.emit(clrf(m3));
        g.emit(clrf(low0));
        g.emit(clrf(low1));
        g.emit(clrf(low2));
        g.emit(movlw(0x18));
        g.emit(movwf(cnt));
    }

    fn emit_mulf_loop(&self, g: &mut Emitter, pa: u32, pb: u32, scr: u32, l: u32)
        ensures
            final(g)@ == self.mulf_loop(old(g)@, pa, pb, scr, l),
    {
        reveal(Gen::mulf_loop);
        let bk0: u32 = at(scr, 3);
        let bk1: u32 = at(scr, 4);
        let bk2: u32 = at(scr, 5);
        let cnt: u32 = at(scr, 6);
        let m0: u32 = at(scr, 7);
        let m1: u32 = at(scr, 8);
        let m2: u32 = at(scr, 9);
        let m3: u32 = at(scr, 10);
        let low0: u32 = at(scr, 11);
        let low1: u32 = at(scr, 12);
        let low2: u32 = at(scr, 13);
        let l_loop: u32 = label_at(l, 0);
        let l_skip: u32 = label_at(l, 1);
        let l_carry_in: u32 = label_at(l, 11);
        let l_no_carry: u32 = label_at(l, 12);
        g.emit(label_tmp(l_loop));
        g.emit(on_c(BitOp::Bcf));
        g.emit(f_op(Op::Rlf, bk0));
        g.emit(f_op(Op::Rlf, bk1));
        g.emit(f_op(Op::Rlf, bk2));
        g.emit(on_c(BitOp::Btfss));
        g.emit(goto_tmp(l_skip));
        g.emit(movf(pb));
        g.emit(f_op(Op::Addwf, low0));
        g.emit(movf(at(pb, 1)));
        g.emit(on_c(BitOp::Btfsc));
        g.emit(w_op(Op::Incfsz, at(pb, 1)));
        g.emit(f_op(Op::Addwf, low1));
        g.emit(movf(at(pb, 2)));
        g.emit(on_c(BitOp::Btfsc));
        g.emit(w_op(Op::Incfsz, at(pb, 2)));
        g.emit(f_op(Op::Addwf, low2));
        g.emit(ram_bit(BitOp::Btfsc, low2, 7));
        g.emit(goto_tmp(l_carry_in));
        g.emit(goto_tmp(l_no_carry));
        g.emit(label_tmp(l_carry_in));
        g.emit(ram_bit(BitOp::Bcf, low2, 7));
        g.emit(f_op(Op::Incf, m0));
        g.emit(on_z(BitOp::Btfsc));
        g.emit(f_op(Op::Incf, m1));
        g.emit(on_z(BitOp::Btfsc));
        g.emit(f_op(Op::Incf, m2));
        g.emit(on_z(BitOp::Btfsc));
        g.emit(f_op(Op::Incf, m3));
        g.emit(label_tmp(l_no_carry));
        g.emit(movf(pa));
        g.emit(f_op(Op::Addwf, m0));
        g.emit(movf(at(pa, 1)));
        g.emit(on_c(BitOp::Btfsc));
        g.emit(w_op(Op::Incfsz, at(pa, 1)));
        g.emit(f_op(Op::Addwf, m1));
        g.emit(movf(at(pa, 2)));
        g.emit(on_c(BitOp::Btfsc));
        g.emit(w_op(Op::Incfsz, at(pa, 2)));
        g.emit(f_op(Op::Addwf, m2));
        g.emit(movlw(0x00));
        g.emit(on_c(BitOp::Btfsc));
        g.emit(lit(LitOp::Addlw, 0x01));
        g.emit(f_op(Op::Addwf, m3));
        g.emit(label_tmp(l_skip));
        g.emit(on_c(BitOp::Bcf));
        g.emit(f_op(Op::Rrf, at(pb, 2)));
        g.emit(f_op(Op::Rrf, at(pb, 1)));
        g.emit(f_op(Op::Rrf, pb));
        g.emit(ram_bit(BitOp::Btfsc, pa, 0));
        g.emit(ram_bit(BitOp::Bsf, at(pb, 2), 6));
        g.emit(on_c(BitOp::Bcf));
        g.emit(f_op(Op::Rrf, at(pa, 2)));
        g.emit(f_op(Op::Rrf, at(pa, 1)));
        g.emit(f_op(Op::Rrf, pa));
        g.emit(f_op(Op::Decfsz, cnt));
        g.emit(goto_tmp(l_loop));
    }

    fn emit_mulf_unify(&self, g: &mut Emitter, scr: u32, l: u32)
        ensures
            final(g)@ == self.mulf_unify(old(g)@, scr, l),
    {
        reveal(Gen::mulf_unify);
        let e: u32 = at(scr, 1);
        let m0: u32 = at(scr, 7);
        let m1: u32 = at(scr, 8);
        let m2: u32 = at(scr, 9);
        let m3: u32 = at(scr, 10);
        let low0: u32 = at(scr, 11);
        let low1: u32 = at(scr, 12);
        let low2: u32 = at(scr, 13);
        let l_renorm: u32 = label_at(l, 2);
        let l_norm_check: u32 = label_at(l, 3);
        g.emit(ram_bit(BitOp::Btfsc, m3, 0));
        g.emit(goto_tmp(l_renorm));
        g.emit(on_c(BitOp::Bcf));
        g.emit(f_op(Op::Rlf, low0));
        g.emit(f_op(Op::Rlf, low1));
        g.emit(f_op(Op::Rlf, low2));
        g.emit(goto_tmp(l_norm_check));
        g.emit(label_tmp(l_renorm));
        g.emit(on_c(BitOp::Bcf));
        g.emit(ram_bit(BitOp::Btfsc, m3, 0));
        g.emit(on_c(BitOp::Bsf));
        g.emit(f_op(Op::Rrf, m2));
        g.emit(f_op(Op::Rrf, m1));
        g.emit(f_op(Op::Rrf, m0));
        g.emit(ram_bit(BitOp::Bcf, low2, 7));
        g.emit(on_c(BitOp::Btfsc));
        g.emit(ram_bit(BitOp::Bsf, low2, 7));
        g.emit(movlw(0x01));
        g.emit(f_op(Op::Addwf, e));
    }

    fn emit_mulf_normalize(&self, g: &mut Emitter, scr: u32, l: u32)
        ensures
            final(g)@ == self.mulf_normalize(old(g)@, scr, l),
    {
        reveal(Gen::mulf_normalize);
        let e: u32 = at(scr, 1);
        let m0: u32 = at(scr, 7);
        let m1: u32 = at(scr, 8);
        let m2: u32 = at(scr, 9);
        let m3: u32 = at(scr, 10);
        let low0: u32 = at(scr, 11);
        let low1: u32 = at(scr, 12);
        let low2: u32 = at(scr, 13);
        let l_norm_check: u32 = label_at(l, 3);
        let l_norm_left: u32 = label_at(l, 4);
        let l_norm_left_shift: u32 = label_at(l, 5);
        let l_norm_right: u32 = label_at(l, 6);
        let l_extract: u32 = label_at(l, 7);
        g.emit(label_tmp(l_norm_check));
        g.emit(ram_bit(BitOp::Btfsc, at(e, 1), 7));
        g.emit(goto_tmp(l_norm_right));
        g.emit(movf(at(e, 1)));
        g.emit(on_z(BitOp::Btfss));
        g.emit(goto_tmp(l_norm_left));
        g.emit(movf(e));
        g.emit(on_z(BitOp::Btfsc));
        g.emit(goto_tmp(l_norm_right));
        g.emit(goto_tmp(l_norm_left));
        g.emit(label_tmp(l_norm_left));
        g.emit(ram_bit(BitOp::Btfsc, m2, 7));
        g.emit(goto_tmp(l_extract));
        g.emit(movf(at(e, 1)));
        g.emit(on_z(BitOp::Btfss));
        g.emit(goto_tmp(l_norm_left_shift));
        g.emit(movf(e));
        g.emit(lit(LitOp::Sublw, 0x01));
        g.emit(on_z(BitOp::Btfsc));
        g.emit(goto_tmp(l_extract));
        g.emit(label_tmp(l_norm_left_shift));
        g.emit(on_c(BitOp::Bcf));
        g.emit(f_op(Op::Rlf, low0));
        g.emit(f_op(Op::Rlf, low1));
        g.emit(f_op(Op::Rlf, low2));
        g.emit(f_op(Op::Rlf, m0));
        g.emit(f_op(Op::Rlf, m1));
        g.emit(f_op(Op::Rlf, m2));
        g.emit(movlw(0x01));
        g.emit(f_op(Op::Subwf, e));
        g.emit(on_c(BitOp::Btfsc));
        g.emit(goto_tmp(l_norm_check));
        g.emit(movlw(0x01));
        g.emit(f_op(Op::Subwf, at(e, 1)));
        g.emit(goto_tmp(l_norm_check));
        g.emit(label_tmp(l_norm_right));
        g.emit(ram_bit(BitOp::Btfsc, low0, 0));
        g.emit(ram_bit(BitOp::Bsf, m3, 1));
        g.emit(on_c(BitOp::Bcf));
        g.emit(f_op(Op::Rrf, m2));
        g.emit(f_op(Op::Rrf, m1));
        g.emit(f_op(Op::Rrf, m0));
        g.emit(f_op(Op::Rrf, low2));
        g.emit(f_op(Op::Rrf, low1));
        g.emit(f_op(Op::Rrf, low0));
        g.emit(f_op(Op::Incf, e));
        g.emit(on_z(BitOp::Btfsc));
        g.emit(f_op(Op::Incf, at(e, 1)));
        g.emit(goto_tmp(l_norm_check));
    }

    fn emit_mulf_round(&self, g: &mut Emitter, scr: u32, l: u32)
        ensures
            final(g)@ == self.mulf_round(old(g)@, scr, l),
    {
        reveal(Gen::mulf_round);
        let sign: u32 = scr;
        let e: u32 = at(scr, 1);
        let m0: u32 = at(scr, 7);
        let m1: u32 = at(scr, 8);
        let m2: u32 = at(scr, 9);
        let m3: u32 = at(scr, 10);
        let low0: u32 = at(scr, 11);
        let low1: u32 = at(scr, 12);
        let low2: u32 = at(scr, 13);
        let l_extract: u32 = label_at(l, 7);
        let l_den_conv: u32 = label_at(l, 8);
        let l_round_up: u32 = label_at(l, 9);
        let l_assemble: u32 = label_at(l, 10);
        g.emit(label_tmp(l_extract));
        g.emit(ram_bit(BitOp::Btfss, low2, 7));
        g.emit(goto_tmp(l_den_conv));
        g.emit(movlw(0x7F));
        g.emit(w_op(Op::Andwf, low2));
        g.emit(w_op(Op::Iorwf, low1));
        g.emit(w_op(Op::Iorwf, low0));
        g.emit(on_z(BitOp::Btfss));
        g.emit(goto_tmp(l_round_up));
        g.emit(ram_bit(BitOp::Btfsc, m3, 1));
        g.emit(goto_tmp(l_round_up));
        g.emit(ram_bit(BitOp::Btfsc, m0, 0));
        g.emit(goto_tmp(l_round_up));
        g.emit(goto_tmp(l_den_conv));
        g.emit(label_tmp(l_round_up));
        self.emit_round_up(g, m0, m1, m2, e);
        g.emit(label_tmp(l_den_conv));
        g.emit(ram_bit(BitOp::Btfsc, m2, 7));
        g.emit(goto_tmp(l_assemble));
        g.emit(movf(at(e, 1)));
        g.emit(on_z(BitOp::Btfss));
        g.emit(goto_tmp(l_assemble));
        g.emit(movf(e));
        g.emit(lit(LitOp::Sublw, 0x01));
        g.emit(on_z(BitOp::Btfss));
        g.emit(goto_tmp(l_assemble));
        g.emit(clrf(e));
        g.emit(label_tmp(l_assemble));
        self.emit_assemble(g, sign, e, m0, m1, m2);
    }

    fn emit_mulf_zero(&self, g: &mut Emitter, scr: u32, l: u32)
        ensures
            final(g)@ == self.mulf_zero(old(g)@, scr, l),
    {
        reveal(Gen::mulf_zero);
        let sign: u32 = scr;
        let r: u32 = self.retval;
        let l_zero: u32 = label_at(l, 29);
        g.emit(label_tmp(l_zero));
        g.emit(clrf(r));
        g.emit(clrf(at(r, 1)));
        g.emit(clrf(at(r, 2)));
        g.emit(clrf(at(r, 3)));
        g.emit(ram_bit(BitOp::Btfsc, sign, 7));
        g.emit(ram_bit(BitOp::Bsf, at(r, 3), 7));
        g.emit(Line::Return);
    }

    pub fn emit_mulf(&self, g: &mut Emitter, pa: u32, pb: u32, scr: u32)
        ensures
            final(g)@ == self.mulf(old(g)@, pa, pb, scr),
    {
        reveal(Gen::mulf);
        let l: u32 = g.reserve(32);
        self.emit_mulf_exponent(g, pa, pb, scr, l);
        self.emit_mulf_specials(g, pa, pb, scr, l);
        self.emit_mulf_zeros(g, pa, pb, scr, l);
        self.emit_mulf_mantissas(g, pa, pb, scr, l);
        self.emit_mulf_loop(g, pa, pb, scr, l);
        self.emit_mulf_unify(g, scr, l);
        self.emit_mulf_normalize(g, scr, l);
        self.emit_mulf_round(g, scr, l);
        self.emit_mulf_zero(g, scr, l);
    }

    fn emit_divf_exponent(&self, g: &mut Emitter, pa: u32, pb: u32, scr: u32, l: u32)
        ensures
            final(g)@ == self.divf_exponent(old(g)@, pa, pb, scr, l),
    {
        reveal(Gen::divf_exponent);
        let sign: u32 = scr;
        let e: u32 = at(scr, 1);
        let rem3: u32 = at(scr, 6);
        let spare: u32 = at(scr, 11);
        let l_ehi_b: u32 = label_at(l, 21);
        let l_ehi_done: u32 = label_at(l, 22);
        g.emit(movf(at(pa, 3)));
        g.emit(w_op(Op::Xorwf, at(pb, 3)));
        g.emit(lit(LitOp::Andlw, 0x80));
        g.emit(movwf(sign));
        g.emit(movf(at(pa, 3)));
        g.emit(lit(LitOp::Andlw, 0x7F));
        g.emit(movwf(spare));
        g.emit(on_c(BitOp::Bcf));
        g.emit(f_op(Op::Rlf, spare));
        g.emit(ram_bit(BitOp::Btfsc, at(pa, 2), 7));
        g.emit(ram_bit(BitOp::Bsf, spare, 0));
        g.emit(movf(at(pb, 3)));
        g.emit(lit(LitOp::Andlw, 0x7F));
        g.emit(movwf(e));
        g.emit(on_c(BitOp::Bcf));
        g.emit(f_op(Op::Rlf, e));
        g.emit(ram_bit(BitOp::Btfsc, at(pb, 2), 7));
        g.emit(ram_bit(BitOp::Bsf, e, 0));
        g.emit(movf(e));
        g.emit(w_op(Op::Subwf, spare));
        g.emit(movwf(spare));
        g.emit(clrf(rem3));
        g.emit(on_c(BitOp::Btfss));
        g.emit(ram_bit(BitOp::Bsf, rem3, 0));
        g.emit(lit(LitOp::Addlw, 0x7F));
        g.emit(movwf(e));
        g.emit(movlw(0x00));
        g.emit(on_c(BitOp::Btfss));
        g.emit(goto_tmp(l_ehi_b));
        g.emit(ram_bit(BitOp::Btfsc, rem3, 0));
        g.emit(goto_tmp(l_ehi_done));
        g.emit(movlw(0x01));
        g.emit(goto_tmp(l_ehi_done));
        g.emit(label_tmp(l_ehi_b));
        g.emit(ram_bit(BitOp::Btfss, rem3, 0));
        g.emit(goto_tmp(l_ehi_done));
        g.emit(movlw(0xFF));
        g.emit(label_tmp(l_ehi_done));
        g.emit(movwf(at(e, 1)));
    }

    fn emit_divf_specials(&self, g: &mut Emitter, pa: u32, pb: u32, scr: u32, l: u32)
        ensures
            final(g)@ == self.divf_specials(old(g)@, pa, pb, scr, l),
    {
        reveal(Gen::divf_specials);
        let spare: u32 = at(scr, 11);
        let l_zero: u32 = label_at(l, 0);
        let l_inf: u32 = label_at(l, 1);
        let l_nan: u32 = label_at(l, 2);
        let l_a_not_ff: u32 = label_at(l, 23);
        let l_a_inf: u32 = label_at(l, 24);
        let l_b_not_ff: u32 = label_at(l, 25);
        let l_b_inf: u32 = label_at(l, 26);
        let l_a_inf_b_finite: u32 = label_at(l, 27);
        let l_b_inf_a_finite: u32 = label_at(l, 28);
        g.emit(movf(at(pa, 3)));
        g.emit(lit(LitOp::Andlw, 0x7F));
        g.emit(lit(LitOp::Xorlw, 0x7F));
        g.emit(on_z(BitOp::Btfss));
        g.emit(goto_tmp(l_a_not_ff));
        g.emit(ram_bit(BitOp::Btfss, at(pa, 2), 7));
        g.emit(goto_tmp(l_a_not_ff));
        g.emit(movf(pa));
        g.emit(w_op(Op::Iorwf, at(pa, 1)));
        g.emit(movwf(spare));
        g.emit(movf(at(pa, 2)));
        g.emit(lit(LitOp::Andlw, 0x7F));
        g.emit(w_op(Op::Iorwf, spare));
        g.emit(on_z(BitOp::Btfsc));
        g.emit(goto_tmp(l_a_inf));
        g.emit(goto_tmp(l_nan));
        g.emit(label_tmp(l_a_not_ff));
        g.emit(movf(at(pb, 3)));
        g.emit(lit(LitOp::Andlw, 0x7F));
        g.emit(lit(LitOp::Xorlw, 0x7F));
        g.emit(on_z(BitOp::Btfss));
        g.emit(goto_tmp(l_b_not_ff));
        g.emit(ram_bit(BitOp::Btfss, at(pb, 2), 7));
        g.emit(goto_tmp(l_b_not_ff));
        g.emit(movf(pb));
        g.emit(w_op(Op::Iorwf, at(pb, 1)));
        g.emit(movwf(spare));
        g.emit(movf(at(pb, 2)));
        g.emit(lit(LitOp::Andlw, 0x7F));
        g.emit(w_op(Op::Iorwf, spare));
        g.emit(on_z(BitOp::Btfsc));
        g.emit(goto_tmp(l_b_inf));
        g.emit(goto_tmp(l_nan));
        g.emit(label_tmp(l_a_inf));
        g.emit(movf(at(pb, 3)));
        g.emit(lit(LitOp::Andlw, 0x7F));
        g.emit(lit(LitOp::Xorlw, 0x7F));
        g.emit(on_z(BitOp::Btfss));
        g.emit(goto_tmp(l_a_inf_b_finite));
        g.emit(ram_bit(BitOp::Btfss, at(pb, 2), 7));
        g.emit(goto_tmp(l_a_inf_b_finite));
        g.emit(goto_tmp(l_nan));
        g.emit(label_tmp(l_a_inf_b_finite));
        g.emit(goto_tmp(l_inf));
        g.emit(label_tmp(l_b_inf));
        g.emit(movf(at(pa, 3)));
        g.emit(lit(LitOp::Andlw, 0x7F));
        g.emit(on_z(BitOp::Btfss));
        g.emit(goto_tmp(l_b_inf_a_finite));
        g.emit(ram_bit(BitOp::Btfsc, at(pa, 2), 7));
        g.emit(goto_tmp(l_b_inf_a_finite));
        g.emit(goto_tmp(l_zero));
        g.emit(label_tmp(l_b_inf_a_finite));
        g.emit(goto_tmp(l_zero));
        g.emit(label_tmp(l_b_not_ff));
    }

    fn emit_divf_zeros(&self, g: &mut Emitter, pa: u32, pb: u32, scr: u32, l: u32)
        ensures
            final(g)@ == self.divf_zeros(old(g)@, pa, pb, scr, l),
    {
        reveal(Gen::divf_zeros);
        let sign: u32 = scr;
        let spare: u32 = at(scr, 11);
        let r: u32 = self.retval;
        let l_zero: u32 = label_at(l, 0);
        let l_inf: u32 = label_at(l, 1);
        let l_nan: u32 = label_at(l, 2);
        let l_a_nz: u32 = label_at(l, 29);
        let l_b_nz: u32 = label_at(l, 34);
        g.emit(movf(at(pa, 3)));
        g.emit(lit(LitOp::Andlw, 0x7F));
        g.emit(on_z(BitOp::Btfss));
        g.emit(goto_tmp(l_a_nz));
        g.emit(ram_bit(BitOp::Btfsc, at(pa, 2), 7));
        g.emit(goto_tmp(l_a_nz));
        g.emit(movf(pa));
        g.emit(w_op(Op::Iorwf, at(pa, 1)));
        g.emit(movwf(spare));
        g.emit(movf(at(pa, 2)));
        g.emit(lit(LitOp::Andlw, 0x7F));
        g.emit(w_op(Op::Iorwf, spare));
        g.emit(on_z(BitOp::Btfss));
        g.emit(goto_tmp(l_a_nz));
        g.emit(movf(at(pb, 3)));
        g.emit(lit(LitOp::Andlw, 0x7F));
        g.emit(on_z(BitOp::Btfss));
        g.emit(goto_tmp(l_zero));
        g.emit(ram_bit(BitOp::Btfsc, at(pb, 2), 7));
        g.emit(goto_tmp(l_zero));
        g.emit(movf(pb));
        g.emit(w_op(Op::Iorwf, at(pb, 1)));
        g.emit(movwf(spare));
        g.emit(movf(at(pb, 2)));
        g.emit(lit(LitOp::Andlw, 0x7F));
        g.emit(w_op(Op::Iorwf, spare));
        g.emit(on_z(BitOp::Btfss));
        g.emit(goto_tmp(l_zero));
        g.emit(goto_tmp(l_nan));
        g.emit(label_tmp(l_a_nz));
        g.emit(movf(at(pb, 3)));
        g.emit(lit(LitOp::Andlw, 0x7F));
        g.emit(on_z(BitOp::Btfss));
        g.emit(goto_tmp(l_b_nz));
        g.emit(ram_bit(BitOp::Btfsc, at(pb, 2), 7));
        g.emit(goto_tmp(l_b_nz));
        g.emit(movf(pb));
        g.emit(w_op(Op::Iorwf, at(pb, 1)));
        g.emit(movwf(spare));
        g.emit(movf(at(pb, 2)));
        g.emit(lit(LitOp::Andlw, 0x7F));
        g.emit(w_op(Op::Iorwf, spare));
        g.emit(on_z(BitOp::Btfss));
        g.emit(goto_tmp(l_b_nz));
        g.emit(goto_tmp(l_inf));
        g.emit(label_tmp(l_nan));
        self.emit_quiet_nan(g, sign);
        g.emit(label_tmp(l_inf));
        self.emit_infinity(g, sign);
        g.emit(label_tmp(l_zero));
        g.emit(clrf(r));
        g.emit(clrf(at(r, 1)));
        g.emit(clrf(at(r, 2)));
        g.emit(clrf(at(r, 3)));
        g.emit(ram_bit(BitOp::Btfsc, sign, 7));
        g.emit(ram_bit(BitOp::Bsf, at(r, 3), 7));
        g.emit(Line::Return);
    }

    fn emit_divf_bias(&self, g: &mut Emitter, pa: u32, pb: u32, scr: u32, l: u32)
        ensures
            final(g)@ == self.divf_bias(old(g)@, pa, pb, scr, l),
    {
        reveal(Gen::divf_bias);
        let e: u32 = at(scr, 1);
        let l_b_nz: u32 = label_at(l, 34);
        let l_exp_a_done: u32 = label_at(l, 35);
        let l_exp_b_done: u32 = label_at(l, 36);
        g.emit(label_tmp(l_b_nz));
        g.emit(movf(at(pa, 3)));
        g.emit(lit(LitOp::Andlw, 0x7F));
        g.emit(on_z(BitOp::Btfss));
        g.emit(goto_tmp(l_exp_a_done));
        g.emit(ram_bit(BitOp::Btfsc, at(pa, 2), 7));
        g.emit(goto_tmp(l_exp_a_done));
        g.emit(f_op(Op::Incf, e));
        g.emit(on_z(BitOp::Btfsc));
        g.emit(f_op(Op::Incf, at(e, 1)));
        g.emit(label_tmp(l_exp_a_done));
        g.emit(movf(at(pb, 3)));
        g.emit(lit(LitOp::Andlw, 0x7F));
        g.emit(on_z(BitOp::Btfss));
        g.emit(goto_tmp(l_exp_b_done));
        g.emit(ram_bit(BitOp::Btfsc, at(pb, 2), 7));
        g.emit(goto_tmp(l_exp_b_done));
        g.emit(movlw(0x01));
        g.emit(f_op(Op::Subwf, e));
        g.emit(on_c(BitOp::Btfsc));
        g.emit(goto_tmp(l_exp_b_done));
        g.emit(movlw(0x01));
        g.emit(f_op(Op::Subwf, at(e, 1)));
        g.emit(label_tmp(l_exp_b_done));
    }

    fn emit_divf_mantissas(&self, g: &mut Emitter, pa: u32, pb: u32, scr: u32, l: u32)
        ensures
            final(g)@ == self.divf_mantissas(old(g)@, pa, pb, scr, l),
    {
        reveal(Gen::divf_mantissas);
        let e: u32 = at(scr, 1);
        let rem3: u32 = at(scr, 6);
        let den0: u32 = at(scr, 7);
        let den1: u32 = at(scr, 8);
        let den2: u32 = at(scr, 9);
        let cnt: u32 = at(scr, 10);
        let l_norm_a: u32 = label_at(l, 17);
        let l_norm_a_done: u32 = label_at(l, 18);
        let l_norm_b: u32 = label_at(l, 19);
        let l_norm_b_done: u32 = label_at(l, 20);
        let l_a_imp: u32 = label_at(l, 30);
        let l_a_ready: u32 = label_at(l, 31);
        let l_b_imp: u32 = label_at(l, 32);
        let l_b_ready: u32 = label_at(l, 33);
        let l_e_sub_done: u32 = label_at(l, 37);
        g.emit(movf(at(pa, 3)));
        g.emit(lit(LitOp::Andlw, 0x7F));
        g.emit(on_z(BitOp::Btfss));
        g.emit(goto_tmp(l_a_imp));
        g.emit(ram_bit(BitOp::Btfsc, at(pa, 2), 7));
        g.emit(goto_tmp(l_a_imp));
        g.emit(goto_tmp(l_a_ready));
        g.emit(label_tmp(l_a_imp));
        g.emit(ram_bit(BitOp::Bsf, at(pa, 2), 7));
        g.emit(label_tmp(l_a_ready));
        g.emit(clrf(rem3));
        g.emit(label_tmp(l_norm_a));
        g.emit(ram_bit(BitOp::Btfsc, at(pa, 2), 7));
        g.emit(goto_tmp(l_norm_a_done));
        g.emit(on_c(BitOp::Bcf));
        g.emit(f_op(Op::Rlf, pa));
        g.emit(f_op(Op::Rlf, at(pa, 1)));
        g.emit(f_op(Op::Rlf, at(pa, 2)));
        g.emit(f_op(Op::Incf, rem3));
        g.emit(goto_tmp(l_norm_a));
        g.emit(label_tmp(l_norm_a_done));
        g.emit(movf(at(pb, 3)));
        g.emit(lit(LitOp::Andlw, 0x7F));
        g.emit(on_z(BitOp::Btfss));
        g.emit(goto_tmp(l_b_imp));
        g.emit(ram_bit(BitOp::Btfsc, at(pb, 2), 7));
        g.emit(goto_tmp(l_b_imp));
        g.emit(goto_tmp(l_b_ready));
        g.emit(label_tmp(l_b_imp));
        g.emit(ram_bit(BitOp::Bsf, at(pb, 2), 7));
        g.emit(label_tmp(l_b_ready));
        g.emit(clrf(cnt));
        g.emit(label_tmp(l_norm_b));
        g.emit(ram_bit(BitOp::Btfsc, at(pb, 2), 7));
        g.emit(goto_tmp(l_norm_b_done));
        g.emit(on_c(BitOp::Bcf));
        g.emit(f_op(Op::Rlf, pb));
        g.emit(f_op(Op::Rlf, at(pb, 1)));
        g.emit(f_op(Op::Rlf, at(pb, 2)));
        g.emit(f_op(Op::Incf, cnt));
        g.emit(goto_tmp(l_norm_b));
        g.emit(label_tmp(l_norm_b_done));
        g.emit(movf(rem3));
        g.emit(f_op(Op::Subwf, e));
        g.emit(on_c(BitOp::Btfsc));
        g.emit(goto_tmp(l_e_sub_done));
        g.emit(movlw(0x01));
        g.emit(f_op(Op::Subwf, at(e, 1)));
        g.emit(label_tmp(l_e_sub_done));
        g.emit(movf(cnt));
        g.emit(f_op(Op::Addwf, e));
        g.emit(on_c(BitOp::Btfsc));
        g.emit(f_op(Op::Incf, at(e, 1)));
        g.emit(movf(pb));
        g.emit(movwf(den0));
        g.emit(movf(at(pb, 1)));
        g.emit(movwf(den1));
        g.emit(movf(at(pb, 2)));
        g.emit(movwf(den2));
    }

    fn emit_divf_integer(&self, g: &mut Emitter, pa: u32, scr: u32, l: u32)
        ensures
            final(g)@ == self.divf_integer(old(g)@, pa, scr, l),
    {
        reveal(Gen::divf_integer);
        let rem0: u32 = at(scr, 3);
        let rem1: u32 = at(scr, 4);
        let rem2: u32 = at(scr, 5);
        let rem3: u32 = at(scr, 6);
        let cnt: u32 = at(scr, 10);
        let spare: u32 = at(scr, 11);
        let l_loop: u32 = label_at(l, 3);
        let l_restore: u32 = label_at(l, 4);
        let l_next: u32 = label_at(l, 5);
        let l_qsave: u32 = label_at(l, 7);
        g.emit(clrf(rem0));
        g.emit(clrf(rem1));
        g.emit(clrf(rem2));
        g.emit(clrf(rem3));
        g.emit(movlw(0x18));
        g.emit(movwf(cnt));
        g.emit(label_tmp(l_loop));
        g.emit(on_c(BitOp::Bcf));
        g.emit(f_op(Op::Rlf, pa));
        g.emit(f_op(Op::Rlf, at(pa, 1)));
        g.emit(f_op(Op::Rlf, at(pa, 2)));
        g.emit(f_op(Op::Rlf, rem0));
        g.emit(f_op(Op::Rlf, rem1));
        g.emit(f_op(Op::Rlf, rem2));
        g.emit(f_op(Op::Rlf, rem3));
        self.emit_div_step(g, at(scr, 3), at(scr, 7), pa, l_restore, l_next);
        g.emit(f_op(Op::Decfsz, cnt));
        g.emit(goto_tmp(l_loop));
        g.emit(clrf(spare));
        g.emit(movf(pa));
        g.emit(lit(LitOp::Andlw, 0x01));
        g.emit(on_z(BitOp::Btfsc));
        g.emit(goto_tmp(l_qsave));
        g.emit(ram_bit(BitOp::Bsf, spare, 0));
        g.emit(label_tmp(l_qsave));
    }

    fn emit_divf_fraction(&self, g: &mut Emitter, pa: u32, scr: u32, l: u32)
        ensures
            final(g)@ == self.divf_fraction(old(g)@, pa, scr, l),
    {
        reveal(Gen::divf_fraction);
        let rem0: u32 = at(scr, 3);
        let rem1: u32 = at(scr, 4);
        let rem2: u32 = at(scr, 5);
        let rem3: u32 = at(scr, 6);
        let cnt: u32 = at(scr, 10);
        let l_floop: u32 = label_at(l, 8);
        let l_frestore: u32 = label_at(l, 9);
        let l_fnext: u32 = label_at(l, 10);
        g.emit(clrf(pa));
        g.emit(clrf(at(pa, 1)));
        g.emit(clrf(at(pa, 2)));
        g.emit(clrf(at(pa, 3)));
        g.emit(movlw(0x19));
        g.emit(movwf(cnt));
        g.emit(label_tmp(l_floop));
        g.emit(on_c(BitOp::Bcf));
        g.emit(f_op(Op::Rlf, pa));
        g.emit(f_op(Op::Rlf, at(pa, 1)));
        g.emit(f_op(Op::Rlf, at(pa, 2)));
        g.emit(f_op(Op::Rlf, at(pa, 3)));
        g.emit(on_c(BitOp::Bcf));
        g.emit(f_op(Op::Rlf, rem0));
        g.emit(f_op(Op::Rlf, rem1));
        g.emit(f_op(Op::Rlf, rem2));
        g.emit(f_op(Op::Rlf, rem3));
        self.emit_div_step(g, at(scr, 3), at(scr, 7), pa, l_frestore, l_fnext);
        g.emit(f_op(Op::Decfsz, cnt));
        g.emit(goto_tmp(l_floop));
    }

    fn emit_divf_split(&self, g: &mut Emitter, pa: u32, scr: u32, l: u32)
        ensures
            final(g)@ == self.divf_split(old(g)@, pa, scr, l),
    {
        reveal(Gen::divf_split);
        let e: u32 = at(scr, 1);
        let rem0: u32 = at(scr, 3);
        let rem1: u32 = at(scr, 4);
        let rem2: u32 = at(scr, 5);
        let rem3: u32 = at(scr, 6);
        let spare: u32 = at(scr, 11);
        let l_ge1: u32 = label_at(l, 6);
        let l_round: u32 = label_at(l, 11);
        g.emit(ram_bit(BitOp::Btfsc, spare, 0));
        g.emit(goto_tmp(l_ge1));
        g.emit(movlw(0x01));
        g.emit(f_op(Op::Subwf, e));
        g.emit(on_c(BitOp::Bcf));
        g.emit(ram_bit(BitOp::Btfsc, at(pa, 3), 0));
        g.emit(on_c(BitOp::Bsf));
        g.emit(f_op(Op::Rrf, at(pa, 2)));
        g.emit(f_op(Op::Rrf, at(pa, 1)));
        g.emit(f_op(Op::Rrf, pa));
        g.emit(clrf(spare));
        g.emit(on_c(BitOp::Btfsc));
        g.emit(ram_bit(BitOp::Bsf, spare, 0));
        g.emit(movf(rem0));
        g.emit(w_op(Op::Iorwf, rem1));
        g.emit(w_op(Op::Iorwf, rem2));
        g.emit(w_op(Op::Iorwf, rem3));
        g.emit(on_z(BitOp::Btfsc));
        g.emit(goto_tmp(l_round));
        g.emit(ram_bit(BitOp::Bsf, spare, 1));
        g.emit(goto_tmp(l_round));
        g.emit(label_tmp(l_ge1));
        g.emit(on_c(BitOp::Bcf));
        g.emit(ram_bit(BitOp::Btfsc, at(pa, 3), 0));
        g.emit(on_c(BitOp::Bsf));
        g.emit(f_op(Op::Rrf, at(pa, 2)));
        g.emit(f_op(Op::Rrf, at(pa, 1)));
        g.emit(f_op(Op::Rrf, pa));
        g.emit(clrf(spare));
        g.emit(on_c(BitOp::Btfsc));
        g.emit(ram_bit(BitOp::Bsf, spare, 1));
        g.emit(on_c(BitOp::Bcf));
        g.emit(f_op(Op::Rrf, at(pa, 2)));
        g.emit(f_op(Op::Rrf, at(pa, 1)));
        g.emit(f_op(Op::Rrf, pa));
        g.emit(on_c(BitOp::Btfsc));
        g.emit(ram_bit(BitOp::Bsf, spare, 0));
        g.emit(ram_bit(BitOp::Bsf, at(pa, 2), 7));
        g.emit(movf(rem0));
        g.emit(w_op(Op::Iorwf, rem1));
        g.emit(w_op(Op::Iorwf, rem2));
        g.emit(w_op(Op::Iorwf, rem3));
        g.emit(on_z(BitOp::Btfsc));
        g.emit(goto_tmp(l_round));
        g.emit(ram_bit(BitOp::Bsf, spare, 1));
    }

    fn emit_divf_round(&self, g: &mut Emitter, pa: u32, scr: u32, l: u32)
        ensures
            final(g)@ == self.divf_round(old(g)@, pa, scr, l),
    {
        reveal(Gen::divf_round);
        let sign: u32 = scr;
        let e: u32 = at(scr, 1);
        let spare: u32 = at(scr, 11);
        let l_round: u32 = label_at(l, 11);
        let l_round_test: u32 = label_at(l, 12);
        let l_round_up: u32 = label_at(l, 13);
        let l_assemble: u32 = label_at(l, 14);
        let l_den_conv: u32 = label_at(l, 15);
        let l_den_shift: u32 = label_at(l, 16);
        g.emit(label_tmp(l_round));
        g.emit(ram_bit(BitOp::Btfsc, at(e, 1), 7));
        g.emit(goto_tmp(l_den_shift));
        g.emit(movf(e));
        g.emit(on_z(BitOp::Btfss));
        g.emit(goto_tmp(l_round_test));
        g.emit(goto_tmp(l_den_shift));
        g.emit(label_tmp(l_den_shift));
        g.emit(ram_bit(BitOp::Btfsc, spare, 0));
        g.emit(ram_bit(BitOp::Bsf, spare, 1));
        g.emit(on_c(BitOp::Bcf));
        g.emit(f_op(Op::Rrf, at(pa, 2)));
        g.emit(f_op(Op::Rrf, at(pa, 1)));
        g.emit(f_op(Op::Rrf, pa));
        g.emit(ram_bit(BitOp::Bcf, spare, 0));
        g.emit(on_c(BitOp::Btfsc));
        g.emit(ram_bit(BitOp::Bsf, spare, 0));
        g.emit(f_op(Op::Incf, e));
        g.emit(on_z(BitOp::Btfsc));
        g.emit(f_op(Op::Incf, at(e, 1)));
        g.emit(goto_tmp(l_round));
        g.emit(label_tmp(l_round_test));
        g.emit(ram_bit(BitOp::Btfss, spare, 0));
        g.emit(goto_tmp(l_den_conv));
        g.emit(ram_bit(BitOp::Btfsc, spare, 1));
        g.emit(goto_tmp(l_round_up));
        g.emit(ram_bit(BitOp::Btfsc, pa, 0));
        g.emit(goto_tmp(l_round_up));
        g.emit(goto_tmp(l_den_conv));
        g.emit(label_tmp(l_round_up));
        self.emit_round_up(g, pa, at(pa, 1), at(pa, 2), e);
        g.emit(label_tmp(l_den_conv));
        g.emit(ram_bit(BitOp::Btfsc, at(pa, 2), 7));
        g.emit(goto_tmp(l_assemble));
        g.emit(movf(at(e, 1)));
        g.emit(on_z(BitOp::Btfss));
        g.emit(goto_tmp(l_assemble));
        g.emit(movf(e));
        g.emit(lit(LitOp::Sublw, 0x01));
        g.emit(on_z(BitOp::Btfss));
        g.emit(goto_tmp(l_assemble));
        g.emit(clrf(e));
        g.emit(label_tmp(l_assemble));
        self.emit_assemble(g, sign, e, pa, at(pa, 1), at(pa, 2));
    }

    pub fn emit_divf(&self, g: &mut Emitter, pa: u32, pb: u32, scr: u32)
        ensures
            final(g)@ == self.divf(old(g)@, pa, pb, scr),
    {
        reveal(Gen::divf);
        let l: u32 = g.reserve(38);
        self.emit_divf_exponent(g, pa, pb, scr, l);
        self.emit_divf_specials(g, pa, pb, scr, l);
        self.emit_divf_zeros(g, pa, pb, scr, l);
        self.emit_divf_bias(g, pa, pb, scr, l);
        self.emit_divf_mantissas(g, pa, pb, scr, l);
        self.emit_divf_integer(g, pa, scr, l);
        self.emit_divf_fraction(g, pa, scr, l);
        self.emit_divf_split(g, pa, scr, l);
        self.emit_divf_round(g, pa, scr, l);
    }

    fn emit_utof_zero(&self, g: &mut Emitter, val: u32, scr: u32, signed: bool, l: u32)
        ensures
            final(g)@ == self.utof_zero(old(g)@, val, scr, signed, l),
    {
        let sign: u32 = at(scr, 5);
        let r: u32 = self.retval;
        let l_nz: u32 = label_at(l, 1);
        g.emit(movf(val));
        g.emit(w_op(Op::Iorwf, at(val, 1)));
        g.emit(w_op(Op::Iorwf, at(val, 2)));
        g.emit(w_op(Op::Iorwf, at(val, 3)));
        g.emit(on_z(BitOp::Btfss));
        g.emit(goto_tmp(l_nz));
        g.emit(clrf(r));
        g.emit(clrf(at(r, 1)));
        g.emit(clrf(at(r, 2)));
        g.emit(clrf(at(r, 3)));
        if signed {
            g.emit(ram_bit(BitOp::Btfsc, sign, 7));
            g.emit(ram_bit(BitOp::Bsf, at(r, 3), 7));
        }
        g.emit(Line::Return);
        g.emit(label_tmp(l_nz));
        if !signed {
            g.emit(clrf(sign));
        }
    }

    fn emit_utof_scale(&self, g: &mut Emitter, val: u32, scr: u32, l: u32)
        ensures
            final(g)@ == self.utof_scale(old(g)@, val, scr, l),
    {
        let cnt: u32 = scr;
        let e: u32 = at(scr, 1);
        let guard: u32 = at(scr, 3);
        let stick: u32 = at(scr, 4);
        let l_zero: u32 = label_at(l, 0);
        let l_loop: u32 = label_at(l, 2);
        g.emit(clrf(cnt));
        g.emit(label_tmp(l_loop));
        g.emit(ram_bit(BitOp::Btfsc, at(val, 3), 7));
        g.emit(goto_tmp(l_zero));
        g.emit(on_c(BitOp::Bcf));
        g.emit(f_op(Op::Rlf, val));
        g.emit(f_op(Op::Rlf, at(val, 1)));
        g.emit(f_op(Op::Rlf, at(val, 2)));
        g.emit(f_op(Op::Rlf, at(val, 3)));
        g.emit(f_op(Op::Incf, cnt));
        g.emit(goto_tmp(l_loop));
        g.emit(label_tmp(l_zero));
        g.emit(movf(cnt));
        g.emit(lit(LitOp::Sublw, 0x9E));
        g.emit(movwf(e));
        g.emit(clrf(at(e, 1)));
        g.emit(movf(val));
        g.emit(lit(LitOp::Andlw, 0x80));
        g.emit(movwf(guard));
        g.emit(movf(val));
        g.emit(lit(LitOp::Andlw, 0x7F));
        g.emit(movwf(stick));
    }

    fn emit_utof_round(&self, g: &mut Emitter, val: u32, scr: u32, l: u32)
        ensures
            final(g)@ == self.utof_round(old(g)@, val, scr, l),
    {
        let e: u32 = at(scr, 1);
        let guard: u32 = at(scr, 3);
        let stick: u32 = at(scr, 4);
        let sign: u32 = at(scr, 5);
        let l_round_up: u32 = label_at(l, 3);
        let l_assemble: u32 = label_at(l, 4);
        g.emit(ram_bit(BitOp::Btfss, guard, 7));
        g.emit(goto_tmp(l_assemble));
        g.emit(movf(stick));
        g.emit(on_z(BitOp::Btfss));
        g.emit(goto_tmp(l_round_up));
        g.emit(ram_bit(BitOp::Btfsc, at(val, 1), 0));
        g.emit(goto_tmp(l_round_up));
        g.emit(goto_tmp(l_assemble));
        g.emit(label_tmp(l_round_up));
        self.emit_round_up(g, at(val, 1), at(val, 2), at(val, 3), e);
        g.emit(label_tmp(l_assemble));
        self.emit_assemble(g, sign, e, at(val, 1), at(val, 2), at(val, 3));
    }

    pub fn emit_utof(&self, g: &mut Emitter, val: u32, scr: u32, signed: bool)
        ensures
            final(g)@ == self.utof(old(g)@, val, scr, signed),
    {
        let l: u32 = g.reserve(5);
        self.emit_utof_zero(g, val, scr, signed, l);
        self.emit_utof_scale(g, val, scr, l);
        self.emit_utof_round(g, val, scr, l);
    }

    fn emit_ftoi_unpack(&self, g: &mut Emitter, val: u32, scr: u32, signed: bool, l: u32)
        ensures
            final(g)@ == self.ftoi_unpack(old(g)@, val, scr, signed, l),
    {
        let e: u32 = scr;
        let m0: u32 = at(scr, 2);
        let m1: u32 = at(scr, 3);
        let m2: u32 = at(scr, 4);
        let sign: u32 = at(scr, 5);
        let m3: u32 = at(scr, 6);
        let l_nz: u32 = label_at(l, 0);
        let l_store2: u32 = label_at(l, 6);
        g.emit(movf(at(val, 3)));
        g.emit(lit(LitOp::Andlw, 0x7F));
        g.emit(movwf(e));
        g.emit(on_c(BitOp::Bcf));
        g.emit(f_op(Op::Rlf, e));
        g.emit(ram_bit(BitOp::Btfsc, at(val, 2), 7));
        g.emit(ram_bit(BitOp::Bsf, e, 0));
        if signed {
            g.emit(movf(at(val, 3)));
            g.emit(lit(LitOp::Andlw, 0x80));
            g.emit(movwf(sign));
        }
        g.emit(movf(e));
        g.emit(on_z(BitOp::Btfss));
        g.emit(goto_tmp(l_nz));
        g.emit(clrf(m0));
        g.emit(clrf(m1));
        g.emit(clrf(m2));
        g.emit(clrf(m3));
        g.emit(goto_tmp(l_store2));
        g.emit(label_tmp(l_nz));
        g.emit(movf(val));
        g.emit(movwf(m0));
        g.emit(movf(at(val, 1)));
        g.emit(movwf(m1));
        g.emit(movf(at(val, 2)));
        g.emit(lit(LitOp::Andlw, 0x7F));
        g.emit(lit(LitOp::Iorlw, 0x80));
        g.emit(movwf(m2));
        g.emit(clrf(m3));
    }

    fn emit_ftoi_right(&self, g: &mut Emitter, scr: u32, l: u32)
        ensures
            final(g)@ == self.ftoi_right(old(g)@, scr, l),
    {
        let e: u32 = scr;
        let cnt: u32 = at(scr, 1);
        let m0: u32 = at(scr, 2);
        let m1: u32 = at(scr, 3);
        let m2: u32 = at(scr, 4);
        let l_left: u32 = label_at(l, 1);
        let l_rdone: u32 = label_at(l, 2);
        let l_rloop: u32 = label_at(l, 3);
        let l_store2: u32 = label_at(l, 6);
        g.emit(movf(e));
        g.emit(lit(LitOp::Sublw, 0x96));
        g.emit(on_c(BitOp::Btfss));
        g.emit(goto_tmp(l_left));
        g.emit(movwf(cnt));
        g.emit(movlw(0x1F));
        g.emit(w_op(Op::Subwf, cnt));
        g.emit(on_c(BitOp::Btfss));
        g.emit(goto_tmp(l_rdone));
        g.emit(movlw(0x1F));
        g.emit(movwf(cnt));
        g.emit(label_tmp(l_rdone));
        g.emit(movf(cnt));
        g.emit(on_z(BitOp::Btfss));
        g.emit(goto_tmp(l_rloop));
        g.emit(goto_tmp(l_store2));
        g.emit(label_tmp(l_rloop));
        g.emit(on_c(BitOp::Bcf));
        g.emit(f_op(Op::Rrf, m2));
        g.emit(f_op(Op::Rrf, m1));
        g.emit(f_op(Op::Rrf, m0));
        g.emit(f_op(Op::Decfsz, cnt));
        g.emit(goto_tmp(l_rloop));
        g.emit(goto_tmp(l_store2));
    }

    fn emit_ftoi_left(&self, g: &mut Emitter, scr: u32, signed: bool, l: u32)
        ensures
            final(g)@ == self.ftoi_left(old(g)@, scr, signed, l),
    {
        let cnt: u32 = at(scr, 1);
        let m0: u32 = at(scr, 2);
        let m1: u32 = at(scr, 3);
        let m2: u32 = at(scr, 4);
        let sign: u32 = at(scr, 5);
        let m3: u32 = at(scr, 6);
        let l_left: u32 = label_at(l, 1);
        let l_lloop: u32 = label_at(l, 4);
        let l_posclamp: u32 = label_at(l, 5);
        let l_store2: u32 = label_at(l, 6);
        g.emit(label_tmp(l_left));
        g.emit(lit(LitOp::Sublw, 0x00));
        g.emit(movwf(cnt));
        if signed {
            g.emit(movlw(0x08));
        } else {
            g.emit(movlw(0x09));
        }
        g.emit(w_op(Op::Subwf, cnt));
        g.emit(on_c(BitOp::Btfss));
        g.emit(goto_tmp(l_lloop));
        if signed {
            g.emit(ram_bit(BitOp::Btfss, sign, 7));
            g.emit(goto_tmp(l_posclamp));
            g.emit(clrf(m0));
            g.emit(clrf(m1));
            g.emit(clrf(m2));
            g.emit(movlw(0x80));
            g.emit(movwf(m3));
            g.emit(goto_tmp(l_store2));
            g.emit(label_tmp(l_posclamp));
            g.emit(movlw(0xFF));
            g.emit(movwf(m0));
            g.emit(movwf(m1));
            g.emit(movwf(m2));
            g.emit(movlw(0x7F));
            g.emit(movwf(m3));
        } else {
            g.emit(movlw(0xFF));
            g.emit(movwf(m0));
            g.emit(movwf(m1));
            g.emit(movwf(m2));
            g.emit(movwf(m3));
        }
        g.emit(goto_tmp(l_store2));
        g.emit(label_tmp(l_lloop));
        g.emit(on_c(BitOp::Bcf));
        g.emit(f_op(Op::Rlf, m0));
        g.emit(f_op(Op::Rlf, m1));
        g.emit(f_op(Op::Rlf, m2));
        g.emit(f_op(Op::Rlf, m3));
        g.emit(f_op(Op::Decfsz, cnt));
        g.emit(goto_tmp(l_lloop));
    }

    fn emit_ftoi_store(&self, g: &mut Emitter, scr: u32, signed: bool, l: u32)
        ensures
            final(g)@ == self.ftoi_store(old(g)@, scr, signed, l),
    {
        let m0: u32 = at(scr, 2);
        let m1: u32 = at(scr, 3);
        let m2: u32 = at(scr, 4);
        let sign: u32 = at(scr, 5);
        let m3: u32 = at(scr, 6);
        let r: u32 = self.retval;
        let l_store2: u32 = label_at(l, 6);
        let l_store: u32 = label_at(l, 7);
        g.emit(label_tmp(l_store2));
        if signed {
            g.emit(ram_bit(BitOp::Btfss, sign, 7));
            g.emit(goto_tmp(l_store));
            g.emit(f_op(Op::Comf, m0));
            g.emit(f_op(Op::Comf, m1));
            g.emit(f_op(Op::Comf, m2));
            g.emit(f_op(Op::Comf, m3));
            g.emit(f_op(Op::Incf, m0));
            g.emit(on_z(BitOp::Btfsc));
            g.emit(f_op(Op::Incf, m1));
            g.emit(on_z(BitOp::Btfsc));
            g.emit(f_op(Op::Incf, m2));
            g.emit(on_z(BitOp::Btfsc));
            g.emit(f_op(Op::Incf, m3));
            g.emit(label_tmp(l_store));
        }
        g.emit(movf(m0));
        g.emit(movwf(r));
        g.emit(movf(m1));
        g.emit(movwf(at(r, 1)));
        g.emit(movf(m2));
        g.emit(movwf(at(r, 2)));
        g.emit(movf(m3));
        g.emit(movwf(at(r, 3)));
        g.emit(Line::Return);
    }

    pub fn emit_ftoi(&self, g: &mut Emitter, val: u32, scr: u32, signed: bool)
        ensures
            final(g)@ == self.ftoi(old(g)@, val, scr, signed),
    {
        let l: u32 = g.reserve(8);
        self.emit_ftoi_unpack(g, val, scr, signed, l);
        self.emit_ftoi_right(g, scr, l);
        self.emit_ftoi_left(g, scr, signed, l);
        self.emit_ftoi_store(g, scr, signed, l);
    }

    fn emit_orderf_nans(&self, g: &mut Emitter, pa: u32, pb: u32, l: u32)
        ensures
            final(g)@ == self.orderf_nans(old(g)@, pa, pb, l),
    {
        let l_nan_a_done: u32 = label_at(l, 0);
        let l_nan_b_done: u32 = label_at(l, 1);
        let l_ret3: u32 = label_at(l, 2);
        g.emit(movf(at(pa, 3)));
        g.emit(lit(LitOp::Andlw, 0x7F));
        g.emit(lit(LitOp::Sublw, 0x7F));
        g.emit(on_z(BitOp::Btfss));
        g.emit(goto_tmp(l_nan_a_done));
        g.emit(ram_bit(BitOp::Btfss, at(pa, 2), 7));
        g.emit(goto_tmp(l_nan_a_done));
        g.emit(movf(at(pa, 2)));
        g.emit(lit(LitOp::Andlw, 0x7F));
        g.emit(w_op(Op::Iorwf, at(pa, 1)));
        g.emit(w_op(Op::Iorwf, pa));
        g.emit(on_z(BitOp::Btfss));
        g.emit(goto_tmp(l_ret3));
        g.emit(label_tmp(l_nan_a_done));
        g.emit(movf(at(pb, 3)));
        g.emit(lit(LitOp::Andlw, 0x7F));
        g.emit(lit(LitOp::Sublw, 0x7F));
        g.emit(on_z(BitOp::Btfss));
        g.emit(goto_tmp(l_nan_b_done));
        g.emit(ram_bit(BitOp::Btfss, at(pb, 2), 7));
        g.emit(goto_tmp(l_nan_b_done));
        g.emit(movf(at(pb, 2)));
        g.emit(lit(LitOp::Andlw, 0x7F));
        g.emit(w_op(Op::Iorwf, at(pb, 1)));
        g.emit(w_op(Op::Iorwf, pb));
        g.emit(on_z(BitOp::Btfss));
        g.emit(goto_tmp(l_ret3));
        g.emit(label_tmp(l_nan_b_done));
    }

    fn emit_orderf_zeros(&self, g: &mut Emitter, pa: u32, pb: u32, l: u32)
        ensures
            final(g)@ == self.orderf_zeros(old(g)@, pa, pb, l),
    {
        let l_az_done: u32 = label_at(l, 3);
        let l_ret0: u32 = label_at(l, 4);
        let l_sign_diff: u32 = label_at(l, 5);
        g.emit(movf(at(pa, 3)));
        g.emit(lit(LitOp::Andlw, 0x7F));
        g.emit(on_z(BitOp::Btfss));
        g.emit(goto_tmp(l_az_done));
        g.emit(ram_bit(BitOp::Btfsc, at(pa, 2), 7));
        g.emit(goto_tmp(l_az_done));
        g.emit(movf(at(pb, 3)));
        g.emit(lit(LitOp::Andlw, 0x7F));
        g.emit(on_z(BitOp::Btfss));
        g.emit(goto_tmp(l_az_done));
        g.emit(ram_bit(BitOp::Btfsc, at(pb, 2), 7));
        g.emit(goto_tmp(l_az_done));
        g.emit(goto_tmp(l_ret0));
        g.emit(label_tmp(l_az_done));
        g.emit(movf(at(pa, 3)));
        g.emit(w_op(Op::Xorwf, at(pb, 3)));
        g.emit(lit(LitOp::Andlw, 0x80));
        g.emit(on_z(BitOp::Btfss));
        g.emit(goto_tmp(l_sign_diff));
    }

    fn emit_orderf_magnitudes(&self, g: &mut Emitter, pa: u32, pb: u32, scr: u32, l: u32)
        ensures
            final(g)@ == self.orderf_magnitudes(old(g)@, pa, pb, scr, l),
    {
        let tmp0: u32 = scr;
        let tmp1: u32 = at(scr, 1);
        let l_ret0: u32 = label_at(l, 4);
        let l_ret1: u32 = label_at(l, 6);
        let l_ret2: u32 = label_at(l, 7);
        let l_mag_lt: u32 = label_at(l, 8);
        g.emit(movf(at(pa, 3)));
        g.emit(lit(LitOp::Andlw, 0x80));
        g.emit(movwf(tmp1));
        g.emit(ram_bit(BitOp::Bcf, at(pa, 3), 7));
        g.emit(ram_bit(BitOp::Bcf, at(pb, 3), 7));
        g.emit(movf(pa));
        g.emit(w_op(Op::Xorwf, pb));
        g.emit(movwf(tmp0));
        g.emit(movf(at(pa, 1)));
        g.emit(w_op(Op::Xorwf, at(pb, 1)));
        g.emit(w_op(Op::Iorwf, tmp0));
        g.emit(movwf(tmp0));
        g.emit(movf(at(pa, 2)));
        g.emit(w_op(Op::Xorwf, at(pb, 2)));
        g.emit(w_op(Op::Iorwf, tmp0));
        g.emit(movwf(tmp0));
        g.emit(movf(at(pa, 3)));
        g.emit(w_op(Op::Xorwf, at(pb, 3)));
        g.emit(w_op(Op::Iorwf, tmp0));
        g.emit(movwf(tmp0));
        g.emit(movf(pb));
        g.emit(w_op(Op::Subwf, pa));
        g.emit(movf(at(pb, 1)));
        g.emit(on_c(BitOp::Btfss));
        g.emit(w_op(Op::Incfsz, at(pb, 1)));
        g.emit(w_op(Op::Subwf, at(pa, 1)));
        g.emit(movf(at(pb, 2)));
        g.emit(on_c(BitOp::Btfss));
        g.emit(w_op(Op::Incfsz, at(pb, 2)));
        g.emit(w_op(Op::Subwf, at(pa, 2)));
        g.emit(movf(at(pb, 3)));
        g.emit(on_c(BitOp::Btfss));
        g.emit(w_op(Op::Incfsz, at(pb, 3)));
        g.emit(w_op(Op::Subwf, at(pa, 3)));
        g.emit(movf(tmp0));
        g.emit(on_z(BitOp::Btfsc));
        g.emit(goto_tmp(l_ret0));
        g.emit(on_c(BitOp::Btfss));
        g.emit(goto_tmp(l_mag_lt));
        g.emit(ram_bit(BitOp::Btfss, tmp1, 7));
        g.emit(goto_tmp(l_ret2));
        g.emit(goto_tmp(l_ret1));
        g.emit(label_tmp(l_mag_lt));
        g.emit(ram_bit(BitOp::Btfss, tmp1, 7));
        g.emit(goto_tmp(l_ret1));
        g.emit(goto_tmp(l_ret2));
    }

    fn emit_orderf_results(&self, g: &mut Emitter, pa: u32, l: u32)
        ensures
            final(g)@ == self.orderf_results(old(g)@, pa, l),
    {
        let r: u32 = self.retval;
        let l_ret3: u32 = label_at(l, 2);
        let l_ret0: u32 = label_at(l, 4);
        let l_sign_diff: u32 = label_at(l, 5);
        let l_ret1: u32 = label_at(l, 6);
        let l_ret2: u32 = label_at(l, 7);
        g.emit(label_tmp(l_sign_diff));
        g.emit(ram_bit(BitOp::Btfss, at(pa, 3), 7));
        g.emit(goto_tmp(l_ret2));
        g.emit(goto_tmp(l_ret1));
        g.emit(label_tmp(l_ret0));
        g.emit(clrf(r));
        g.emit(Line::Return);
        g.emit(label_tmp(l_ret1));
        g.emit(movlw(0x01));
        g.emit(movwf(r));
        g.emit(Line::Return);
        g.emit(label_tmp(l_ret2));
        g.emit(movlw(0x02));
        g.emit(movwf(r));
        g.emit(Line::Return);
        g.emit(label_tmp(l_ret3));
        g.emit(movlw(0x03));
        g.emit(movwf(r));
        g.emit(Line::Return);
    }

    pub fn emit_orderf(&self, g: &mut Emitter, pa: u32, pb: u32, scr: u32)
        ensures
            final(g)@ == self.orderf(old(g)@, pa, pb, scr),
    {
        let l: u32 = g.reserve(9);
        self.emit_orderf_nans(g, pa, pb, l);
        self.emit_orderf_zeros(g, pa, pb, l);
        self.emit_orderf_magnitudes(g, pa, pb, scr, l);
        self.emit_orderf_results(g, pa, l);
    }
}

} // verus!
