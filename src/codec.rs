//! Variable-length integers of the pack and delta formats.
use vstd::arithmetic::power2::*;
use vstd::prelude::*;

verus! {

/// The low seven bits of each byte from `i` on, the first group weighted by
/// `2^shift` and each next one by 128 times more, up to and including the first
/// byte whose top bit is clear.
pub open spec fn varint_groups(s: Seq<u8>, i: int, shift: nat) -> int
    decreases s.len() - i,
{
    if i < 0 || i >= s.len() {
        0
    } else {
        (s[i] % 128) * pow2(shift) + if s[i] >= 128 {
            varint_groups(s, i + 1, shift + 7)
        } else {
            0
        }
    }
}

/// Whether a byte with its top bit clear occurs at `i` or later.
pub open spec fn varint_closed(s: Seq<u8>, i: int) -> bool
    decreases s.len() - i,
{
    if i < 0 || i >= s.len() {
        false
    } else if s[i] < 128 {
        true
    } else {
        varint_closed(s, i + 1)
    }
}

/// Number of bytes from `i` up to and including the first byte whose top bit is clear.
pub open spec fn varint_run(s: Seq<u8>, i: int) -> nat
    decreases s.len() - i,
{
    if i < 0 || i >= s.len() {
        0
    } else if s[i] < 128 {
        1
    } else {
        1 + varint_run(s, i + 1)
    }
}

/// The integer encoded at `p`: the first byte gives its low `shift` bits, every
/// byte after it while the continuation bit is set gives seven more.
pub open spec fn varint_value(s: Seq<u8>, p: int, shift: nat) -> int {
    s[p] as int % pow2(shift) as int + if s[p] >= 128 {
        varint_groups(s, p + 1, shift)
    } else {
        0
    }
}

/// First byte, value and the position after the encoding at `p`; `None` where the
/// input ends before a byte with a clear top bit.
pub open spec fn varint_decode(s: Seq<u8>, p: int, shift: nat) -> Option<(u8, int, int)> {
    if 0 <= p < s.len() && varint_closed(s, p) {
        Some((s[p], varint_value(s, p, shift), p + varint_run(s, p)))
    } else {
        None
    }
}

/// An encoding that is closed ends right after the first byte from `i` on whose
/// top bit is clear: every byte before it has the top bit set.
pub proof fn lemma_varint_run_ends_at_clear_byte(s: Seq<u8>, i: int)
    requires
        0 <= i,
        varint_closed(s, i),
    ensures
        varint_run(s, i) >= 1,
        i + varint_run(s, i) <= s.len(),
        s[i + varint_run(s, i) - 1] < 128,
        forall|k: int| i <= k < i + varint_run(s, i) - 1 ==> s[k] >= 128,
    decreases s.len() - i,
{
    if s[i] >= 128 {
        lemma_varint_run_ends_at_clear_byte(s, i + 1);
    }
}

/// A value as a `u64`: exact where it fits, else `u64::MAX`.
pub open spec fn saturated(v: int) -> u64 {
    if v <= 0xffff_ffff_ffff_ffff {
        v as u64
    } else {
        0xffff_ffff_ffff_ffff
    }
}

proof fn lemma_groups_nonneg(s: Seq<u8>, i: int, shift: nat)
    ensures
        varint_groups(s, i, shift) >= 0,
        0 <= i < s.len() ==> varint_groups(s, i, shift) >= (s[i] % 128) * pow2(shift),
    decreases s.len() - i,
{
    if 0 <= i < s.len() {
        lemma_groups_nonneg(s, i + 1, shift + 7);
        assert((s[i] % 128) * pow2(shift) >= 0) by (nonlinear_arith);
    }
}

/// Reads the integer that starts at `*pos` and moves `*pos` past it, up to and
/// including the first byte whose top bit is clear. The value is exact where it
/// fits in 64 bits and `u64::MAX` beyond. `None` (position left where it was)
/// where the input ends before such a byte.
pub fn read_variable_length_int(input: &[u8], pos: &mut usize, shift_start: u32) -> (r: Option<
    (u8, u64),
>)
    ensures
        match varint_decode(input@, *old(pos) as int, shift_start as nat) {
            Some((b, v, q)) => r == Some((b, saturated(v))) && *final(pos) as int == q,
            None => r is None && *final(pos) == *old(pos),
        },
        r is Some ==> *old(pos) < *final(pos) <= input.len(),
{
    let start: usize = *pos;
    if start >= input.len() {
        return None;
    }
    let ghost s = input@;
    let ghost shift0 = shift_start as nat;
    let first: u8 = input[start];
    let mut mult: u128 = 1;
    let mut k: u32 = 0;
    proof {
        lemma2_to64();
    }
    while k < shift_start && k < 64
        invariant
            k <= shift_start,
            k <= 64,
            mult == pow2(k as nat),
            mult <= 0x1_0000_0000_0000_0000,
        decreases shift_start - k,
    {
        proof {
            lemma2_to64();
            lemma_pow2_unfold((k + 1) as nat);
            if k + 1 < 64 {
                lemma_pow2_strictly_increases((k + 1) as nat, 64);
            }
        }
        mult = mult * 2;
        k = k + 1;
    }
    proof {
        if k < shift_start {
            lemma_pow2_strictly_increases(k as nat, shift0);
        }
        lemma_pow2_pos(k as nat);
    }
    let low: u128 = if mult >= 256 {
        proof {
            vstd::arithmetic::div_mod::lemma_small_mod(first as nat, pow2(shift0));
        }
        first as u128
    } else {
        (first as u128) % mult
    };
    let mut acc: u128 = low;
    let mut sat: bool = false;
    let mut i: usize = start;
    let mut byte: u8 = first;
    let ghost mut shift: nat = shift0;
    while byte >= 128
        invariant
            s == input@,
            *pos == start,
            *old(pos) == start,
            shift0 == shift_start as nat,
            start <= i < input.len(),
            byte == s[i as int],
            first == s[start as int],
            acc <= 0xffff_ffff_ffff_ffff,
            mult < 0x1_0000_0000_0000_0000 ==> mult == pow2(shift),
            mult >= 0x1_0000_0000_0000_0000 ==> pow2(shift) >= mult && mult <= 0x80_0000_0000_0000_0000,
            !sat ==> varint_value(s, start as int, shift0) == acc + if byte >= 128 {
                varint_groups(s, i + 1, shift)
            } else {
                0
            },
            sat ==> varint_value(s, start as int, shift0) > 0xffff_ffff_ffff_ffff,
            varint_closed(s, start as int) == varint_closed(s, i as int),
            varint_run(s, start as int) == (i - start) + varint_run(s, i as int),
        decreases input.len() - i,
    {
        if i + 1 >= input.len() {
            assert(!varint_closed(s, i + 1));
            return None;
        }
        i = i + 1;
        byte = input[i];
        let chunk: u128 = (byte % 128) as u128;
        assert(varint_groups(s, i as int, shift) == chunk * pow2(shift) + if byte >= 128 {
            varint_groups(s, i + 1, shift + 7)
        } else {
            0
        });
        assert(chunk == 0 ==> chunk * pow2(shift) == 0) by (nonlinear_arith);
        proof {
            lemma_groups_nonneg(s, i + 1, shift + 7);
            lemma_groups_nonneg(s, i as int, shift);
        }
        if !sat && chunk != 0 {
            if mult >= 0x1_0000_0000_0000_0000 {
                assert(chunk * pow2(shift) >= pow2(shift)) by (nonlinear_arith)
                    requires
                        chunk >= 1,
                ;
                sat = true;
            } else {
                assert(chunk * mult <= 127 * 0x1_0000_0000_0000_0000) by (nonlinear_arith)
                    requires
                        chunk <= 127,
                        mult <= 0x1_0000_0000_0000_0000,
                ;
                let next: u128 = acc + chunk * mult;
                if next > 0xffff_ffff_ffff_ffff {
                    sat = true;
                } else {
                    acc = next;
                }
            }
        }
        proof {
            lemma2_to64();
            lemma_pow2_adds(shift, 7);
        }
        if mult < 0x1_0000_0000_0000_0000 {
            mult = mult * 128;
        }
        proof {
            shift = shift + 7;
            if mult >= 0x1_0000_0000_0000_0000 {
                lemma_pow2_strictly_increases((shift - 7) as nat, shift);
            }
        }
    }
    *pos = i + 1;
    let value: u64 = if sat {
        0xffff_ffff_ffff_ffff
    } else {
        acc as u64
    };
    Some((first, value))
}

/// How many of the flag bits `i..7` of `h` (taken from bit 0 of `h` up) are set.
pub open spec fn flag_count(h: nat, i: nat) -> nat
    decreases 7 - i,
{
    if i >= 7 {
        0
    } else {
        (h % 2) as nat + flag_count(h / 2, i + 1)
    }
}

/// The value assembled from one byte per set flag bit, read in order from `p`;
/// the byte for bit `i` is weighted by `256^i`.
pub open spec fn packed_value(s: Seq<u8>, p: int, h: nat, i: nat) -> int
    decreases 7 - i,
{
    if i >= 7 {
        0
    } else if h % 2 == 1 {
        s[p] * pow2(8 * i) + packed_value(s, p + 1, h / 2, i + 1)
    } else {
        packed_value(s, p, h / 2, i + 1)
    }
}

/// Reads the operand bytes flagged by bits 0 to 6 of `header`, little-endian:
/// bits 0-3 give an offset in the low 32 bits, bits 4-6 a size above them.
/// On `None` (too few bytes) the position is left where it was.
pub fn read_packed_int_56le(input: &[u8], pos: &mut usize, header: u64) -> (r: Option<u64>)
    ensures
        *old(pos) + flag_count(header as nat, 0) <= input.len() ==> r is Some && r->0 as int
            == packed_value(input@, *old(pos) as int, header as nat, 0) && r->0
            < 0x100_0000_0000_0000 && *final(pos) == *old(pos) + flag_count(header as nat, 0),
        *old(pos) + flag_count(header as nat, 0) > input.len() ==> r is None && *final(pos)
            == *old(pos),
{
    let ghost s = input@;
    let start: usize = *pos;
    if start > input.len() {
        return None;
    }
    let mut p: usize = start;
    let mut h: u64 = header;
    let mut i: u64 = 0;
    let mut mult: u64 = 1;
    let mut acc: u64 = 0;
    proof {
        lemma2_to64();
    }
    while i < 7
        invariant
            s == input@,
            *pos == start,
            i <= 7,
            start <= p <= input.len(),
            mult == pow2((8 * i) as nat),
            mult <= 0x100_0000_0000_0000,
            acc < mult,
            flag_count(header as nat, 0) == (p - start) + flag_count(h as nat, i as nat),
            p + flag_count(h as nat, i as nat) <= input.len() ==> packed_value(
                s,
                start as int,
                header as nat,
                0,
            ) == acc + packed_value(s, p as int, h as nat, i as nat),
        decreases 7 - i,
    {
        proof {
            lemma2_to64();
            lemma_pow2_adds((8 * i) as nat, 8);
            lemma_pow2_adds(32, 16);
            if i < 6 {
                lemma_pow2_strictly_increases((8 * i) as nat, 48);
            }
        }
        assert(mult <= 0x1_0000_0000_0000);
        if h % 2 == 1 {
            if p >= input.len() {
                assert(flag_count(h as nat, i as nat) >= 1);
                assert(start + flag_count(header as nat, 0) > input.len());
                return None;
            }
            let b: u64 = input[p] as u64;
            assert(acc + b * mult < 256 * mult) by (nonlinear_arith)
                requires
                    acc < mult,
                    b <= 255,
            ;
            acc = acc + b * mult;
            p = p + 1;
        }
        h = h / 2;
        assert(mult * 256 <= 0x100_0000_0000_0000) by (nonlinear_arith)
            requires
                mult <= 0x1_0000_0000_0000,
        ;
        mult = mult * 256;
        i = i + 1;
    }
    assert(mult <= 0x100_0000_0000_0000);
    *pos = p;
    Some(acc)
}


/// Continuation groups carrying `v`: seven bits per byte, lowest first, with the
/// top bit set on every byte but the last.
pub open spec fn group_encoding(v: nat) -> Seq<u8>
    decreases v,
{
    if v < 128 {
        seq![v as u8]
    } else {
        seq![(128 + v % 128) as u8] + group_encoding(v / 128)
    }
}

/// The encoding of `v` whose first byte holds `tag` above the low `shift` bits of
/// `v`, followed by the continuation groups of the rest of `v` if any.
pub open spec fn varint_encoding(tag: nat, v: nat, shift: nat) -> Seq<u8> {
    let low = v % pow2(shift);
    let high = v / pow2(shift);
    if high == 0 {
        seq![(tag * pow2(shift) + low) as u8]
    } else {
        seq![(128 + tag * pow2(shift) + low) as u8] + group_encoding(high)
    }
}

proof fn lemma_groups_decode(s: Seq<u8>, i: int, w: nat, sh: nat)
    requires
        0 <= i,
        i + group_encoding(w).len() <= s.len(),
        s.subrange(i, i + group_encoding(w).len()) == group_encoding(w),
    ensures
        varint_groups(s, i, sh) == w * pow2(sh),
        varint_closed(s, i),
        varint_run(s, i) == group_encoding(w).len(),
    decreases w,
{
    let g = group_encoding(w);
    assert(s[i] == g[0]) by {
        assert(s.subrange(i, i + g.len())[0] == s[i]);
    }
    if w < 128 {
        assert(s[i] == w);
        assert((w % 128) as nat == w);
    } else {
        let t = group_encoding(w / 128);
        assert(g == seq![(128 + w % 128) as u8] + t);
        assert(s.subrange(i + 1, i + 1 + t.len()) =~= t) by {
            assert forall|k: int| 0 <= k < t.len() implies s.subrange(i + 1, i + 1 + t.len())[k]
                == t[k] by {
                assert(s.subrange(i, i + g.len())[k + 1] == s[i + 1 + k]);
                assert(g[k + 1] == t[k]);
            }
        }
        lemma_groups_decode(s, i + 1, w / 128, sh + 7);
        assert(s[i] % 128 == w % 128);
        lemma2_to64();
        lemma_pow2_adds(sh, 7);
        let a = (w % 128) as int;
        let b = (w / 128) as int;
        let ps = pow2(sh) as int;
        assert(w == 128 * b + a);
        assert(a * ps + b * (ps * 128) == (128 * b + a) * ps) by (nonlinear_arith);
    }
}

/// Decoding the encoding of any value, whatever follows it,
/// gives back its first byte and exactly that value, and ends right after the
/// first byte whose top bit is clear.
pub proof fn lemma_varint_round_trip(tag: nat, v: nat, shift: nat, rest: Seq<u8>)
    requires
        shift <= 7,
        tag < pow2((7 - shift) as nat),
    ensures
        varint_decode(varint_encoding(tag, v, shift) + rest, 0, shift) == Some(
            (
                varint_encoding(tag, v, shift)[0],
                v as int,
                varint_encoding(tag, v, shift).len() as int,
            ),
        ),
{
    let e = varint_encoding(tag, v, shift);
    let s = e + rest;
    let ps = pow2(shift) as int;
    let q = pow2((7 - shift) as nat) as int;
    let low = (v % pow2(shift)) as int;
    let high = (v / pow2(shift)) as int;
    lemma2_to64();
    lemma_pow2_pos(shift);
    lemma_pow2_adds((7 - shift) as nat, shift);
    assert(q * ps == 128);
    vstd::arithmetic::div_mod::lemma_fundamental_div_mod(v as int, ps);
    assert(v == ps * high + low);
    assert(v == high * ps + low) by (nonlinear_arith)
        requires
            v == ps * high + low,
    ;
    vstd::arithmetic::div_mod::lemma_mod_bound(v as int, ps);
    assert(tag * ps + low < 128) by (nonlinear_arith)
        requires
            tag < q,
            0 <= low < ps,
            q * ps == 128,
    ;
    assert(tag * ps >= 0) by (nonlinear_arith)
        requires
            ps > 0,
    ;
    let c: int = if high == 0 {
        0
    } else {
        1
    };
    let f = c * 128 + tag * ps + low;
    assert(s[0] == e[0]);
    assert(e[0] == f);
    assert(f == (c * q + tag) * ps + low) by (nonlinear_arith)
        requires
            f == c * 128 + tag * ps + low,
            q * ps == 128,
    ;
    vstd::arithmetic::div_mod::lemma_fundamental_div_mod_converse(f, ps, c * q + tag, low);
    if high == 0 {
        assert(varint_run(s, 0) == 1);
    } else {
        let g = group_encoding(high as nat);
        assert(e == seq![f as u8] + g);
        assert(s.subrange(1, 1 + g.len() as int) =~= g) by {
            assert forall|k: int| 0 <= k < g.len() implies s.subrange(1, 1 + g.len() as int)[k] == g[k] by {
                assert(s[1 + k] == e[1 + k]);
            }
        }
        lemma_groups_decode(s, 1, high as nat, shift);
    }
}

} // verus!
