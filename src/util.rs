use vstd::prelude::*;

verus! {

/// Big-endian value of four bytes.
pub open spec fn be_value(a: Seq<u8>) -> int {
    a[0] * 0x1000000 + a[1] * 0x10000 + a[2] * 0x100 + a[3]
}

/// Little-endian value of four bytes.
pub open spec fn le_value(a: Seq<u8>) -> int {
    a[3] * 0x1000000 + a[2] * 0x10000 + a[1] * 0x100 + a[0]
}

pub fn as_u32_be(array: &[u8; 4]) -> (r: u32)
    ensures
        r == be_value(array@),
{
    let a0 = array[0] as u32;
    let a1 = array[1] as u32;
    let a2 = array[2] as u32;
    let a3 = array[3] as u32;
    assert(a0 * 0x1000000 <= 255 * 0x1000000) by (nonlinear_arith)
        requires
            a0 <= 255,
    ;
    assert(a1 * 0x10000 <= 255 * 0x10000) by (nonlinear_arith)
        requires
            a1 <= 255,
    ;
    a0 * 0x1000000 + a1 * 0x10000 + a2 * 0x100 + a3
}

pub fn as_u32_le(array: &[u8; 4]) -> (r: u32)
    ensures
        r == le_value(array@),
{
    let a0 = array[0] as u32;
    let a1 = array[1] as u32;
    let a2 = array[2] as u32;
    let a3 = array[3] as u32;
    assert(a3 * 0x1000000 <= 255 * 0x1000000) by (nonlinear_arith)
        requires
            a3 <= 255,
    ;
    assert(a2 * 0x10000 <= 255 * 0x10000) by (nonlinear_arith)
        requires
            a2 <= 255,
    ;
    a3 * 0x1000000 + a2 * 0x10000 + a1 * 0x100 + a0
}

/// Value of one ASCII hex digit, either case.
pub open spec fn hex_digit_value(c: u8) -> Option<u8> {
    if 0x30 <= c <= 0x39 {
        Some((c - 0x30) as u8)
    } else if 0x61 <= c <= 0x66 {
        Some((c - 0x61 + 10) as u8)
    } else if 0x41 <= c <= 0x46 {
        Some((c - 0x41 + 10) as u8)
    } else {
        None
    }
}

/// The bytes that a string of hex digit pairs stands for; `None` for an odd
/// length or a character that is no hex digit.
pub open spec fn hex_decoded(s: Seq<u8>) -> Option<Seq<u8>>
    decreases s.len(),
{
    if s.len() == 0 {
        Some(Seq::empty())
    } else if s.len() == 1 {
        None
    } else {
        match (hex_digit_value(s[0]), hex_digit_value(s[1]), hex_decoded(s.subrange(2, s.len() as int))) {
            (Some(h), Some(l), Some(rest)) => Some(seq![(h * 16 + l) as u8] + rest),
            _ => None,
        }
    }
}

/// Lowercase hex digit for a value below 16.
pub open spec fn hex_char(v: int) -> char {
    if v < 10 {
        ((v + 0x30) as u8) as char
    } else {
        ((v - 10 + 0x61) as u8) as char
    }
}

/// Lowercase hex text of a byte sequence: two digits per byte, high nibble first.
pub open spec fn hex_text(b: Seq<u8>) -> Seq<char>
    decreases b.len(),
{
    if b.len() == 0 {
        Seq::empty()
    } else {
        seq![hex_char(b[0] as int / 16), hex_char(b[0] as int % 16)] + hex_text(b.subrange(1, b.len() as int))
    }
}

/// Hex text has two characters per byte.
pub proof fn lemma_hex_text_len(b: Seq<u8>)
    ensures
        hex_text(b).len() == 2 * b.len(),
    decreases b.len(),
{
    if b.len() > 0 {
        lemma_hex_text_len(b.subrange(1, b.len() as int));
    }
}

/// Relies on hex::decode: pairs of hex digits of either case become bytes; an odd
/// length or any other character is an error.
#[verifier::external_body]
pub(crate) fn hex_decode(data: &[u8]) -> (r: Option<Vec<u8>>)
    ensures
        match r {
            Some(v) => hex_decoded(data@) == Some(v@),
            None => hex_decoded(data@) is None,
        },
{
    hex::decode(data).ok()
}

/// Relies on hex::encode: two lowercase digits per byte, high nibble first.
#[verifier::external_body]
pub(crate) fn hex_encode(data: &[u8]) -> (r: String)
    ensures
        r@ == hex_text(data@),
{
    hex::encode(data)
}

/// What a header of hex digits gives: its bytes, left-padded with zeros to four.
pub open spec fn padded_hex(data: Seq<u8>) -> Option<Seq<u8>> {
    match hex_decoded(data) {
        Some(b) => if b.len() <= 4 {
            Some(Seq::new((4 - b.len()) as nat, |i: int| 0u8) + b)
        } else {
            None
        },
        None => None,
    }
}

/// Decodes hex text of at most eight digits into four big-endian bytes, keeping
/// leading zero bytes.
pub fn ascii_hex_to_bytes(data: &Vec<u8>) -> (r: Option<Vec<u8>>)
    ensures
        match r {
            Some(v) => padded_hex(data@) == Some(v@),
            None => padded_hex(data@) is None,
        },
{
    let decoded = match hex_decode(data.as_slice()) {
        Some(d) => d,
        None => return None,
    };
    if decoded.len() > 4 {
        return None;
    }
    let start: usize = 4 - decoded.len();
    let mut out: Vec<u8> = Vec::new();
    let mut i: usize = 0;
    while i < start
        invariant
            i <= start,
            start <= 4,
            out@ == Seq::new(i as nat, |k: int| 0u8),
        decreases start - i,
    {
        out.push(0u8);
        assert(out@ =~= Seq::new((i + 1) as nat, |k: int| 0u8));
        i = i + 1;
    }
    let mut j: usize = 0;
    while j < decoded.len()
        invariant
            j <= decoded.len(),
            out@ == Seq::new(start as nat, |k: int| 0u8) + decoded@.subrange(0, j as int),
        decreases decoded.len() - j,
    {
        out.push(decoded[j]);
        assert(decoded@.subrange(0, j + 1) =~= decoded@.subrange(0, j as int).push(decoded@[j as int]));
        j = j + 1;
    }
    assert(decoded@.subrange(0, decoded.len() as int) =~= decoded@);
    Some(out)
}


/// A fresh vector holding `s[a..b]`.
pub fn copy_range(s: &[u8], a: usize, b: usize) -> (r: Vec<u8>)
    requires
        a <= b <= s.len(),
    ensures
        r@ == s@.subrange(a as int, b as int),
{
    let mut out: Vec<u8> = Vec::new();
    let mut i: usize = a;
    while i < b
        invariant
            a <= i <= b,
            b <= s.len(),
            out@ == s@.subrange(a as int, i as int),
        decreases b - i,
    {
        out.push(s[i]);
        assert(s@.subrange(a as int, i + 1) =~= s@.subrange(a as int, i as int).push(s@[i as int]));
        i = i + 1;
    }
    out
}

/// Appends all of `s` to `out`.
pub fn append_all(out: &mut Vec<u8>, s: &[u8])
    ensures
        final(out)@ == old(out)@ + s@,
{
    let ghost start = out@;
    let mut i: usize = 0;
    while i < s.len()
        invariant
            i <= s.len(),
            out@ == start + s@.subrange(0, i as int),
        decreases s.len() - i,
    {
        out.push(s[i]);
        assert(s@.subrange(0, i + 1) =~= s@.subrange(0, i as int).push(s@[i as int]));
        i = i + 1;
    }
    assert(s@.subrange(0, s.len() as int) =~= s@);
}


/// Appends `s[a..b]` to `out`.
pub fn append_range(out: &mut Vec<u8>, s: &[u8], a: usize, b: usize)
    requires
        a <= b <= s.len(),
    ensures
        final(out)@ == old(out)@ + s@.subrange(a as int, b as int),
{
    let ghost start = out@;
    let mut i: usize = a;
    while i < b
        invariant
            a <= i <= b,
            b <= s.len(),
            out@ == start + s@.subrange(a as int, i as int),
        decreases b - i,
    {
        out.push(s[i]);
        assert(s@.subrange(a as int, i + 1) =~= s@.subrange(a as int, i as int).push(s@[i as int]));
        i = i + 1;
    }
}


/// The 20 bytes of `s` from `p` on, as an array.
pub fn array20_at(s: &[u8], p: usize) -> (r: [u8; 20])
    requires
        p + 20 <= s.len(),
    ensures
        r@ == s@.subrange(p as int, p + 20),
{
    let mut out: [u8; 20] = [0u8; 20];
    let mut k: usize = 0;
    while k < 20
        invariant
            k <= 20,
            p + 20 <= s.len(),
            forall|x: int| 0 <= x < k ==> out@[x] == s@[p + x],
        decreases 20 - k,
    {
        out[k] = s[p + k];
        k = k + 1;
    }
    assert(out@ =~= s@.subrange(p as int, p + 20));
    out
}

} // verus!
