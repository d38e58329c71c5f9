//! Rebuilding an object from a base object and delta instructions.
use crate::codec::{
    flag_count, packed_value, read_packed_int_56le, read_variable_length_int, varint_decode,
};
use crate::util::append_range;
use vstd::prelude::*;

verus! {

/// Size of a copy whose size bytes are all absent.
pub const GIT_MAX_COPY: u64 = 0x10000;

/// `pre` in front of an optional result.
pub open spec fn prepend(pre: Seq<u8>, o: Option<Seq<u8>>) -> Option<Seq<u8>> {
    match o {
        Some(x) => Some(pre + x),
        None => None,
    }
}

/// Output of the instructions of `d` from `p` to its end. An instruction byte
/// below 0x80 inserts that many literal bytes that follow it; any other copies
/// a range of the base, its offset and size read as flagged by its low seven
/// bits (a size of 0 means 0x10000). Where the base is unavailable (`None`),
/// copies produce nothing. `None` where an instruction is cut short or a copy
/// leaves the base.
pub open spec fn delta_output(base: Option<Seq<u8>>, d: Seq<u8>, p: int) -> Option<Seq<u8>>
    decreases d.len() - p,
{
    if p < 0 || p >= d.len() {
        Some(Seq::empty())
    } else if d[p] < 128 {
        let n = d[p] as int;
        if p + 1 + n > d.len() {
            None
        } else {
            prepend(d.subrange(p + 1, p + 1 + n), delta_output(base, d, p + 1 + n))
        }
    } else {
        let q = p + 1 + flag_count(d[p] as nat, 0);
        if q > d.len() {
            None
        } else {
            let v = packed_value(d, p + 1, d[p] as nat, 0);
            let off = v % 0x1_0000_0000;
            let size = if v / 0x1_0000_0000 == 0 {
                0x10000
            } else {
                v / 0x1_0000_0000
            };
            match base {
                Some(b) => if off + size > b.len() {
                    None
                } else {
                    prepend(b.subrange(off, off + size), delta_output(base, d, q))
                },
                None => delta_output(base, d, q),
            }
        }
    }
}

/// The object that delta `d` rebuilds from `base`: two size integers (source,
/// target) and then the instructions.
pub open spec fn delta_result(base: Option<Seq<u8>>, d: Seq<u8>) -> Option<Seq<u8>> {
    match varint_decode(d, 0, 7) {
        Some((_, _, p1)) => match varint_decode(d, p1, 7) {
            Some((_, _, p2)) => delta_output(base, d, p2),
            None => None,
        },
        None => None,
    }
}

/// The view of an optional byte slice.
pub open spec fn base_view(base: Option<&[u8]>) -> Option<Seq<u8>> {
    match base {
        Some(b) => Some(b@),
        None => None,
    }
}

/// Applies delta instructions to `base`; with no base, copies are skipped and
/// only the inserted bytes remain.
pub fn apply_delta(base: Option<&[u8]>, delta: &[u8]) -> (r: Option<Vec<u8>>)
    ensures
        match delta_result(base_view(base), delta@) {
            Some(out) => r is Some && r->0@ == out,
            None => r is None,
        },
{
    let ghost d = delta@;
    let ghost bv = base_view(base);
    let mut pos: usize = 0;
    if read_variable_length_int(delta, &mut pos, 7).is_none() {
        return None;
    }
    if read_variable_length_int(delta, &mut pos, 7).is_none() {
        return None;
    }
    let ghost p2 = pos as int;
    assert(delta_result(bv, d) == delta_output(bv, d, p2));
    let mut out: Vec<u8> = Vec::new();
    while pos < delta.len()
        invariant
            d == delta@,
            bv == base_view(base),
            pos <= delta.len(),
            delta_result(bv, d) == delta_output(bv, d, p2),
            delta_output(bv, d, p2) == prepend(out@, delta_output(bv, d, pos as int)),
        decreases delta.len() - pos,
    {
        let ghost before = out@;
        let ghost p = pos as int;
        let op: u8 = delta[pos];
        pos = pos + 1;
        if op < 128 {
            let n: usize = op as usize;
            if n > delta.len() - pos {
                assert(delta_output(bv, d, p) is None);
                return None;
            }
            append_range(&mut out, delta, pos, pos + n);
            pos = pos + n;
            proof {
                match delta_output(bv, d, pos as int) {
                    Some(x) => assert(before + (d.subrange(p + 1, pos as int) + x) =~= out@ + x),
                    None => {},
                }
            }
        } else {
            let value = match read_packed_int_56le(delta, &mut pos, op as u64) {
                Some(v) => v,
                None => {
                    assert(delta_output(bv, d, p) is None);
                    return None;
                },
            };
            let offset: u64 = value % 0x1_0000_0000;
            let size0: u64 = value / 0x1_0000_0000;
            let size: u64 = if size0 == 0 {
                GIT_MAX_COPY
            } else {
                size0
            };
            assert(size <= 0x100_0000) by {
                assert(value < 0x100_0000_0000_0000);
            }
            match base {
                Some(b) => {
                    if offset + size > b.len() as u64 {
                        return None;
                    }
                    append_range(&mut out, b, offset as usize, (offset + size) as usize);
                    proof {
                        match delta_output(bv, d, pos as int) {
                            Some(x) => assert(before + (b@.subrange(
                                offset as int,
                                offset + size,
                            ) + x) =~= out@ + x),
                            None => {},
                        }
                    }
                },
                None => {},
            }
        }
    }
    assert(out@ + Seq::<u8>::empty() =~= out@);
    Some(out)
}

} // verus!
