//! Little-endian integers in byte sequences.
use vstd::prelude::*;

verus! {

/// The value of the four bytes of `b` that start at `at`, least significant first.
#[verifier::opaque]
pub open spec fn u32_le(b: Seq<u8>, at: int) -> int {
    b[at] + 256 * b[at + 1] + 65536 * b[at + 2] + 16777216 * b[at + 3]
}

/// The value of the eight bytes of `b` that start at `at`, least significant first.
pub open spec fn u64_le(b: Seq<u8>, at: int) -> int {
    u32_le(b, at) + 4294967296 * u32_le(b, at + 4)
}

/// The value of the sixteen bytes of `b` that start at `at`, least significant first.
pub open spec fn u128_le(b: Seq<u8>, at: int) -> int {
    u64_le(b, at) + 18446744073709551616 * u64_le(b, at + 8)
}

/// The four bytes of `v`, least significant first.
pub open spec fn u32_bytes(v: u32) -> Seq<u8> {
    seq![
        (v % 256) as u8,
        ((v / 256) % 256) as u8,
        ((v / 65536) % 256) as u8,
        (v / 16777216) as u8,
    ]
}

/// The eight bytes of `v`, least significant first.
pub open spec fn u64_bytes(v: u64) -> Seq<u8> {
    u32_bytes((v % 4294967296) as u32) + u32_bytes((v / 4294967296) as u32)
}

/// The sixteen bytes of `v`, least significant first.
pub open spec fn u128_bytes(v: u128) -> Seq<u8> {
    u64_bytes((v % 18446744073709551616) as u64) + u64_bytes((v / 18446744073709551616) as u64)
}

pub fn read_u32_le(b: &[u8], at: usize) -> (r: u32)
    requires
        at + 4 <= b@.len(),
    ensures
        r == u32_le(b@, at as int),
{
    proof {
        reveal(u32_le);
    }
    let b0 = b[at] as u32;
    let b1 = b[at + 1] as u32;
    let b2 = b[at + 2] as u32;
    let b3 = b[at + 3] as u32;
    b0 + 256 * b1 + 65536 * b2 + 16777216 * b3
}

pub fn read_u64_le(b: &[u8], at: usize) -> (r: u64)
    requires
        at + 8 <= b@.len(),
    ensures
        r == u64_le(b@, at as int),
{
    let _n = b.len();
    let lo = read_u32_le(b, at) as u64;
    let hi = read_u32_le(b, at + 4) as u64;
    lo + 4294967296 * hi
}

pub fn read_u128_le(b: &[u8], at: usize) -> (r: u128)
    requires
        at + 16 <= b@.len(),
    ensures
        r == u128_le(b@, at as int),
{
    let _n = b.len();
    let lo = read_u64_le(b, at) as u128;
    let hi = read_u64_le(b, at + 8) as u128;
    lo + 18446744073709551616 * hi
}

pub fn write_u32_le(out: &mut Vec<u8>, v: u32)
    ensures
        final(out)@ == old(out)@ + u32_bytes(v),
{
    out.push((v % 256) as u8);
    out.push(((v / 256) % 256) as u8);
    out.push(((v / 65536) % 256) as u8);
    out.push((v / 16777216) as u8);
    assert(final(out)@ =~= old(out)@ + u32_bytes(v));
}

pub fn write_u64_le(out: &mut Vec<u8>, v: u64)
    ensures
        final(out)@ == old(out)@ + u64_bytes(v),
{
    write_u32_le(out, (v % 4294967296) as u32);
    write_u32_le(out, (v / 4294967296) as u32);
    assert(final(out)@ =~= old(out)@ + u64_bytes(v));
}

pub fn write_u128_le(out: &mut Vec<u8>, v: u128)
    ensures
        final(out)@ == old(out)@ + u128_bytes(v),
{
    write_u64_le(out, (v % 18446744073709551616) as u64);
    write_u64_le(out, (v / 18446744073709551616) as u64);
    assert(final(out)@ =~= old(out)@ + u128_bytes(v));
}

/// Reading back the bytes of an integer gives the integer.
pub proof fn lemma_u32_round_trip(v: u32, pre: Seq<u8>, post: Seq<u8>)
    ensures
        u32_le(pre + u32_bytes(v) + post, pre.len() as int) == v,
{
    reveal(u32_le);
    let s = pre + u32_bytes(v) + post;
    let at = pre.len() as int;
    assert(s[at] == (v % 256) as u8);
    assert(s[at + 1] == ((v / 256) % 256) as u8);
    assert(s[at + 2] == ((v / 65536) % 256) as u8);
    assert(s[at + 3] == (v / 16777216) as u8);
}

/// Writing the integer read from four bytes gives those bytes back.
pub proof fn lemma_u32_bytes_of_le(b: Seq<u8>, at: int)
    requires
        0 <= at,
        at + 4 <= b.len(),
    ensures
        0 <= u32_le(b, at) <= u32::MAX,
        u32_bytes(u32_le(b, at) as u32) == b.subrange(at, at + 4),
{
    reveal(u32_le);
    let v = u32_le(b, at);
    let b0 = b[at] as int;
    let b1 = b[at + 1] as int;
    let b2 = b[at + 2] as int;
    let b3 = b[at + 3] as int;
    assert(v % 256 == b0 && (v / 256) % 256 == b1 && (v / 65536) % 256 == b2 && v / 16777216 == b3)
        by (nonlinear_arith)
        requires
            v == b0 + 256 * b1 + 65536 * b2 + 16777216 * b3,
            0 <= b0 < 256,
            0 <= b1 < 256,
            0 <= b2 < 256,
            0 <= b3 < 256,
    ;
    assert(u32_bytes(v as u32) =~= b.subrange(at, at + 4));
}

/// Four bytes of `p` that are those of `v` read as `v`.
pub proof fn lemma_u32_at(p: Seq<u8>, at: int, v: u32)
    requires
        0 <= at,
        at + 4 <= p.len(),
        p.subrange(at, at + 4) == u32_bytes(v),
    ensures
        u32_le(p, at) == v,
{
    reveal(u32_le);
    let e = Seq::<u8>::empty();
    lemma_u32_round_trip(v, e, e);
    assert(e + u32_bytes(v) + e =~= u32_bytes(v));
    assert(p[at] == u32_bytes(v)[0]);
    assert(p[at + 1] == u32_bytes(v)[1]);
    assert(p[at + 2] == u32_bytes(v)[2]);
    assert(p[at + 3] == u32_bytes(v)[3]);
}

/// Eight bytes of `p` that are those of `v` read as `v`.
pub proof fn lemma_u64_at(p: Seq<u8>, at: int, v: u64)
    requires
        0 <= at,
        at + 8 <= p.len(),
        p.subrange(at, at + 8) == u64_bytes(v),
    ensures
        u64_le(p, at) == v,
{
    let lo = (v % 4294967296) as u32;
    let hi = (v / 4294967296) as u32;
    assert(p.subrange(at, at + 4) =~= u32_bytes(lo)) by {
        assert forall|k: int| 0 <= k < 4 implies p.subrange(at, at + 4)[k] == u32_bytes(lo)[k] by {
            assert(p.subrange(at, at + 8)[k] == u64_bytes(v)[k]);
        }
    }
    assert(p.subrange(at + 4, at + 8) =~= u32_bytes(hi)) by {
        assert forall|k: int| 0 <= k < 4 implies p.subrange(at + 4, at + 8)[k] == u32_bytes(hi)[k] by {
            assert(p.subrange(at, at + 8)[k + 4] == u64_bytes(v)[k + 4]);
        }
    }
    lemma_u32_at(p, at, lo);
    lemma_u32_at(p, at + 4, hi);
}

/// Sixteen bytes of `p` that are those of `v` read as `v`.
pub proof fn lemma_u128_at(p: Seq<u8>, at: int, v: u128)
    requires
        0 <= at,
        at + 16 <= p.len(),
        p.subrange(at, at + 16) == u128_bytes(v),
    ensures
        u128_le(p, at) == v,
{
    let lo = (v % 18446744073709551616) as u64;
    let hi = (v / 18446744073709551616) as u64;
    assert(p.subrange(at, at + 8) =~= u64_bytes(lo)) by {
        assert forall|k: int| 0 <= k < 8 implies p.subrange(at, at + 8)[k] == u64_bytes(lo)[k] by {
            assert(p.subrange(at, at + 16)[k] == u128_bytes(v)[k]);
        }
    }
    assert(p.subrange(at + 8, at + 16) =~= u64_bytes(hi)) by {
        assert forall|k: int| 0 <= k < 8 implies p.subrange(at + 8, at + 16)[k] == u64_bytes(hi)[k] by {
            assert(p.subrange(at, at + 16)[k + 8] == u128_bytes(v)[k + 8]);
        }
    }
    lemma_u64_at(p, at, lo);
    lemma_u64_at(p, at + 8, hi);
}

/// Four bytes hold a value that fits in 32 bits.
pub proof fn lemma_u32_le_bounds(b: Seq<u8>, at: int)
    ensures
        0 <= u32_le(b, at) <= u32::MAX,
{
    reveal(u32_le);
}

} // verus!
