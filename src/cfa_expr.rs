//! LEB128 integers and the simple DWARF expressions that give a frame base
//! as a constant offset from the CFA.
use vstd::arithmetic::div_mod::lemma_fundamental_div_mod_converse_mod;
use vstd::arithmetic::power2::{lemma2_to64, lemma2_to64_rest, lemma_pow2_adds, lemma_pow2_strictly_increases, pow2};
use vstd::bits::lemma_u64_shl_is_mul;
use vstd::prelude::*;
use vstd::slice::slice_subrange;

verus! {

/// The 7-bit groups of the first `n` bytes, least significant first.
pub open spec fn groups_value(data: Seq<u8>, n: nat) -> int
    decreases n,
{
    if n == 0 {
        0
    } else {
        groups_value(data, (n - 1) as nat) + (data[n - 1] % 128) * pow2((7 * (n - 1)) as nat)
    }
}

/// The index of the first byte from `i` on without the continuation bit, or -1.
pub open spec fn last_byte_from(data: Seq<u8>, i: int) -> int
    decreases data.len() - i,
{
    if i < 0 || i >= data.len() {
        -1
    } else if data[i] < 128 {
        i
    } else {
        last_byte_from(data, i + 1)
    }
}

/// The unsigned LEB128 number at the start of `data` and its length in
/// bytes: it must end within ten bytes; bits beyond the 64th are dropped.
pub open spec fn uleb128(data: Seq<u8>) -> Option<(u64, usize)> {
    let t = last_byte_from(data, 0);
    if t < 0 || t > 9 {
        None
    } else {
        Some(((groups_value(data, (t + 1) as nat) % (pow2(64) as int)) as u64, (t + 1) as usize))
    }
}

proof fn lemma_last_byte_bounds(data: Seq<u8>, i: int)
    requires
        0 <= i,
    ensures
        last_byte_from(data, i) == -1 || last_byte_from(data, i) >= i,
    decreases data.len() - i,
{
    if i < data.len() && data[i] >= 128 {
        lemma_last_byte_bounds(data, i + 1);
    }
}

proof fn lemma_or_is_add(a: u64, b: u64, s: u64)
    requires
        s < 64,
        a < (1u64 << s),
        b == (b >> s) << s,
    ensures
        (a | b) == a + b,
{
    assert(a < (1u64 << s) && b == (b >> s) << s && s < 64 ==> (a | b) == a + b) by (bit_vector);
}

proof fn lemma_shl_bounds(x: u64, i: u64)
    requires
        x < 128,
        i <= 8,
    ensures
        (x << (7 * i)) == x * pow2((7 * i) as nat),
        (1u64 << (7 * i)) == pow2((7 * i) as nat),
        pow2((7 * i + 7) as nat) == pow2((7 * i) as nat) * 128,
        ((x << (7 * i)) >> (7 * i)) << (7 * i) == (x << (7 * i)),
{
    lemma2_to64();
    lemma2_to64_rest();
    let s = (7 * i) as u64;
    assert(s as nat == (7 * i) as nat);
    lemma_pow2_adds(s as nat, 7);
    if i < 8 {
        lemma_pow2_strictly_increases(s as nat, 56);
    }
    assert(x * pow2(s as nat) <= 127 * pow2(56)) by (nonlinear_arith)
        requires x < 128, pow2(s as nat) <= pow2(56);
    lemma_u64_shl_is_mul(x, s);
    lemma_u64_shl_is_mul(1, s);
    assert(((x << s) >> s) << s == (x << s)) by (bit_vector)
        requires x < 128, s <= 56;
}

/// Decodes an unsigned LEB128 number: its value and how many bytes it took.
pub fn decode_uleb128(data: &[u8]) -> (r: Option<(u64, usize)>)
    ensures
        r == uleb128(data@),
{
    let mut result: u64 = 0;
    let mut shift: u64 = 0;
    let mut i: usize = 0;
    proof {
        lemma2_to64();
        lemma2_to64_rest();
    }
    while i < data.len()
        invariant
            i <= 9,
            i <= data@.len(),
            shift == 7 * i,
            result == groups_value(data@, i as nat),
            result < pow2((7 * i) as nat),
            pow2(63) == 0x8000_0000_0000_0000,
            pow2(64) == 0x1_0000_0000_0000_0000,
            last_byte_from(data@, 0) == last_byte_from(data@, i as int),
        decreases data@.len() - i,
    {
        let byte = data[i];
        let x = (byte & 0x7f) as u64;
        assert(byte & 0x7f == byte % 128) by (bit_vector);
        let ghost old_result = result;
        if i < 9 {
            proof {
                lemma_shl_bounds(x, i as u64);
                lemma_or_is_add(result, x << shift, shift);
            }
            result = result | (x << shift);
            assert(result < pow2((7 * (i + 1)) as nat)) by (nonlinear_arith)
                requires result == old_result + x * pow2((7 * i) as nat), old_result < pow2((7 * i) as nat),
                    x < 128, pow2((7 * (i + 1)) as nat) == pow2((7 * i) as nat) * 128;
        } else {
            proof {
                assert((x << 63) == ((x & 1) << 63)) by (bit_vector);
                assert(x & 1 == x % 2) by (bit_vector);
                lemma_u64_shl_is_mul(x & 1, 63);
                lemma_u64_shl_is_mul(1, 63);
                assert(((x << 63) >> 63) << 63 == (x << 63)) by (bit_vector);
                lemma_or_is_add(result, x << shift, shift);
                lemma_pow2_strictly_increases(63, 64);
            }
            result = result | (x << shift);
        }
        i = i + 1;
        if byte & 0x80 == 0 {
            assert(byte < 128) by (bit_vector)
                requires byte & 0x80 == 0;
            proof {
                if i == 10 {
                    let total = groups_value(data@, 10);
                    assert(total == old_result + x * pow2(63));
                    lemma_fundamental_div_mod_converse_mod(
                        total,
                        pow2(64) as int,
                        (x / 2) as int,
                        old_result + (x % 2) * pow2(63),
                    );
                }
            }
            return Some((result, i));
        }
        assert(byte >= 128) by (bit_vector)
            requires byte & 0x80 != 0;
        shift = shift + 7;
        if shift >= 64 {
            proof {
                lemma_last_byte_bounds(data@, i as int);
            }
            return None;
        }
    }
    None
}

/// How many bytes the signed decoder takes: through the first byte without
/// the continuation bit if that is among the first ten, or all of `data`
/// if it has fewer than ten bytes and no such byte; -1 otherwise.
pub open spec fn sleb_len(data: Seq<u8>) -> int {
    let t = last_byte_from(data, 0);
    if 0 <= t <= 9 {
        t + 1
    } else if t > 9 || data.len() >= 10 {
        -1
    } else {
        data.len() as int
    }
}

/// The signed LEB128 number at the start of `data` and its length: the
/// groups of the bytes taken, sign-extended from the last one's bit 6 when
/// fewer than 64 bits were read, as a 64-bit two's-complement value.
pub open spec fn sleb128(data: Seq<u8>) -> Option<(i64, usize)> {
    let m = sleb_len(data);
    if m < 0 {
        None
    } else {
        let g = groups_value(data, m as nat);
        let v = if 1 <= m <= 9 && data[m - 1] % 128 >= 64 {
            g - pow2((7 * m) as nat)
        } else {
            let b = g % (pow2(64) as int);
            if b >= pow2(63) {
                b - pow2(64)
            } else {
                b
            }
        };
        Some((v as i64, m as usize))
    }
}

/// Decodes a signed LEB128 number: its value and how many bytes it took.
pub fn decode_sleb128(data: &[u8]) -> (r: Option<(i64, usize)>)
    ensures
        r == sleb128(data@),
{
    let mut bits: u64 = 0;
    let mut shift: u64 = 0;
    let mut i: usize = 0;
    let mut byte: u8 = 0;
    let mut done = false;
    proof {
        lemma2_to64();
        lemma2_to64_rest();
    }
    while !done && i < data.len()
        invariant
            i <= 10,
            i <= data@.len(),
            shift == 7 * i,
            !done ==> i <= 9,
            !done ==> bits == groups_value(data@, i as nat) && bits < pow2((7 * i) as nat),
            done ==> 1 <= i && bits == groups_value(data@, i as nat) % (pow2(64) as int) && byte < 128,
            done ==> last_byte_from(data@, 0) == i - 1 && byte == data@[i - 1],
            !done ==> last_byte_from(data@, 0) == last_byte_from(data@, i as int),
            !done && i > 0 ==> byte == data@[i - 1],
            i == 0 ==> byte == 0,
            done && i <= 9 ==> bits < pow2((7 * i) as nat) && bits == groups_value(data@, i as nat),
            pow2(63) == 0x8000_0000_0000_0000,
            pow2(64) == 0x1_0000_0000_0000_0000,
        decreases data@.len() - i, if done { 0int } else { 1int },
    {
        byte = data[i];
        let x = (byte & 0x7f) as u64;
        assert(byte & 0x7f == byte % 128) by (bit_vector);
        let ghost old_bits = bits;
        if i < 9 {
            proof {
                lemma_shl_bounds(x, i as u64);
                lemma_or_is_add(bits, x << shift, shift);
            }
            bits = bits | (x << shift);
            assert(bits < pow2((7 * (i + 1)) as nat)) by (nonlinear_arith)
                requires bits == old_bits + x * pow2((7 * i) as nat), old_bits < pow2((7 * i) as nat),
                    x < 128, pow2((7 * (i + 1)) as nat) == pow2((7 * i) as nat) * 128;
            proof {
                lemma_pow2_strictly_increases((7 * (i + 1)) as nat, 64);
                let total = groups_value(data@, (i + 1) as nat);
                lemma_fundamental_div_mod_converse_mod(total, pow2(64) as int, 0, total);
            }
        } else {
            proof {
                assert((x << 63) == ((x & 1) << 63)) by (bit_vector);
                assert(x & 1 == x % 2) by (bit_vector);
                lemma_u64_shl_is_mul(x & 1, 63);
                lemma_u64_shl_is_mul(1, 63);
                assert(((x << 63) >> 63) << 63 == (x << 63)) by (bit_vector);
                lemma_or_is_add(bits, x << shift, shift);
                lemma_pow2_strictly_increases(63, 64);
                let total = groups_value(data@, 10);
                assert(total == old_bits + x * pow2(63));
                lemma_fundamental_div_mod_converse_mod(total, pow2(64) as int, (x / 2) as int, old_bits + (x % 2) * pow2(63));
            }
            bits = bits | (x << shift);
        }
        i = i + 1;
        shift = shift + 7;
        if byte & 0x80 == 0 {
            assert(byte < 128) by (bit_vector)
                requires byte & 0x80 == 0;
            done = true;
        } else {
            assert(byte >= 128) by (bit_vector)
                requires byte & 0x80 != 0;
            if shift >= 64 {
                proof {
                    lemma_last_byte_bounds(data@, i as int);
                }
                return None;
            }
        }
    }
    proof {
        if !done {
            assert(last_byte_from(data@, i as int) == -1);
        }
    }
    let ghost g = groups_value(data@, i as nat);
    let ghost m = i as int;
    assert(sleb_len(data@) == m);
    if shift < 64 && byte & 0x40 != 0 {
        assert(byte % 128 >= 64) by (bit_vector)
            requires byte & 0x40 != 0;
        let s = shift;
        proof {
            lemma_u64_shl_is_mul(1, s);
            assert(i <= 9);
            assert(bits < pow2((7 * i) as nat));
            assert(bits == g);
            assert((!0u64 << s) == ((!0u64 << s) >> s) << s) by (bit_vector)
                requires s < 64;
            assert((!0u64 << s) == 0xFFFF_FFFF_FFFF_FFFF - ((1u64 << s) - 1)) by (bit_vector)
                requires s < 64;
            lemma_or_is_add(bits, !0u64 << s, s);
        }
        bits = bits | (!0u64 << s);
        assert(bits == g + pow2(64) - pow2(s as nat));
        proof {
            if s < 63 {
                lemma_pow2_strictly_increases(s as nat, 63);
            }
        }
        assert(bits > 0x7fff_ffff_ffff_ffff);
    } else {
        proof {
            if 1 <= m && byte % 128 >= 64 {
                assert(byte & 0x40 != 0) by (bit_vector)
                    requires byte % 128 >= 64;
            }
            if m <= 9 {
                lemma_pow2_strictly_increases((7 * i) as nat, 64);
                lemma_fundamental_div_mod_converse_mod(g, pow2(64) as int, 0, g);
                if i < 9 {
                    lemma_pow2_strictly_increases((7 * i) as nat, 63);
                }
            }
        }
    }
    let v: i64 = if bits <= 0x7fff_ffff_ffff_ffff {
        bits as i64
    } else {
        -((0xffff_ffff_ffff_ffffu64 - bits) as i64) - 1
    };
    assert(bits <= 0x7fff_ffff_ffff_ffff ==> v == bits);
    assert(bits > 0x7fff_ffff_ffff_ffff ==> v == bits - 0x1_0000_0000_0000_0000);
    proof {
        if shift < 64 && byte & 0x40 != 0 {
            assert(byte % 128 >= 64) by (bit_vector)
                requires byte & 0x40 != 0;
            assert(1 <= m <= 9 && data@[m - 1] % 128 >= 64);
            assert(v == g - pow2((7 * m) as nat));
        } else {
            assert(!(1 <= m <= 9 && data@[m - 1] % 128 >= 64));
            assert(bits == g % (pow2(64) as int));
        }
    }
    assert(v == (if 1 <= m <= 9 && data@[m - 1] % 128 >= 64 {
        g - pow2((7 * m) as nat)
    } else {
        let b = g % (pow2(64) as int);
        if b >= pow2(63) {
            b - pow2(64)
        } else {
            b
        }
    }));
    Some((v, i))
}

/// `DW_OP_call_frame_cfa`.
pub const DW_OP_CALL_FRAME_CFA: u8 = 0x9c;

/// `DW_OP_plus_uconst`.
pub const DW_OP_PLUS_UCONST: u8 = 0x23;

/// `DW_OP_fbreg`.
pub const DW_OP_FBREG: u8 = 0x91;

/// The constant offset that a frame base expression gives: `0` for the CFA
/// alone, `n` for the CFA plus the unsigned constant `n` (taken as a signed
/// 64-bit value), `n` for the frame base register plus the signed `n`;
/// none for any other expression.
pub open spec fn simple_cfa_offset(expr: Seq<u8>) -> Option<i64> {
    if expr.len() == 0 {
        None
    } else if expr[0] == DW_OP_CALL_FRAME_CFA {
        if expr.len() == 1 {
            Some(0)
        } else if expr[1] == DW_OP_PLUS_UCONST {
            match uleb128(expr.skip(2)) {
                Some((v, _)) => Some(v as i64),
                None => None,
            }
        } else {
            None
        }
    } else if expr[0] == DW_OP_FBREG {
        match sleb128(expr.skip(1)) {
            Some((v, _)) => Some(v),
            None => None,
        }
    } else {
        None
    }
}

/// The constant offset that the frame base expression `expr` gives, if it
/// is one of the simple forms (see `simple_cfa_offset`).
pub fn parse_simple_cfa_expression(expr: &[u8]) -> (r: Option<i64>)
    ensures
        r == simple_cfa_offset(expr@),
{
    if expr.len() == 0 {
        return None;
    }
    if expr[0] == DW_OP_CALL_FRAME_CFA {
        if expr.len() == 1 {
            Some(0)
        } else if expr[1] == DW_OP_PLUS_UCONST {
            let rest = slice_subrange(expr, 2, expr.len());
            assert(rest@ =~= expr@.skip(2));
            match decode_uleb128(rest) {
                Some((offset, _)) => Some(offset as i64),
                None => None,
            }
        } else {
            None
        }
    } else if expr[0] == DW_OP_FBREG {
        let rest = slice_subrange(expr, 1, expr.len());
        assert(rest@ =~= expr@.skip(1));
        match decode_sleb128(rest) {
            Some((offset, _)) => Some(offset),
            None => None,
        }
    } else {
        None
    }
}

} // verus!
