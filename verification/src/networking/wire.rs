//! Integers in little endian, and payloads framed by their length.
use crate::error::Result;
use vstd::prelude::*;

verus! {

/// The number that bytes stand for, the least significant byte first.
pub open spec fn le_value(bytes: Seq<u8>) -> nat
    decreases bytes.len(),
{
    if bytes.len() == 0 {
        0
    } else {
        bytes[0] as nat + 256 * le_value(bytes.drop_first())
    }
}

/// 256 to the power of `n`.
pub open spec fn pow256(n: nat) -> nat
    decreases n,
{
    if n == 0 {
        1
    } else {
        256 * pow256((n - 1) as nat)
    }
}

proof fn lemma_le_value_push(bytes: Seq<u8>, b: u8)
    ensures
        le_value(bytes.push(b)) == le_value(bytes) + b * pow256(bytes.len()),
    decreases bytes.len(),
{
    let longer = bytes.push(b);
    if bytes.len() == 0 {
        assert(longer.drop_first() =~= bytes);
        assert(le_value(longer) == b as nat + 256 * le_value(bytes));
        assert(b * pow256(0) == b) by (nonlinear_arith)
            requires
                pow256(0) == 1,
        ;
    } else {
        assert(longer.drop_first() =~= bytes.drop_first().push(b));
        lemma_le_value_push(bytes.drop_first(), b);
        let p = pow256((bytes.len() - 1) as nat) as int;
        assert(256 * (b * p) == b * (256 * p)) by (nonlinear_arith);
    }
}

/// A number fits in as many bytes as it was read from.
pub proof fn lemma_le_value_bound(bytes: Seq<u8>)
    ensures
        le_value(bytes) < pow256(bytes.len()),
    decreases bytes.len(),
{
    if bytes.len() > 0 {
        lemma_le_value_bound(bytes.drop_first());
    }
}

/// The bytes are determined by the number and how many there are.
pub proof fn law_le_value_injective(a: Seq<u8>, b: Seq<u8>)
    requires
        a.len() == b.len(),
        le_value(a) == le_value(b),
    ensures
        a == b,
    decreases a.len(),
{
    if a.len() > 0 {
        let x = le_value(a.drop_first()) as int;
        let y = le_value(b.drop_first()) as int;
        assert(a[0] as int + 256 * x == b[0] as int + 256 * y);
        assert(a[0] == b[0] && x == y);
        law_le_value_injective(a.drop_first(), b.drop_first());
        assert(a =~= seq![a[0]] + a.drop_first());
        assert(b =~= seq![b[0]] + b.drop_first());
    } else {
        assert(a =~= b);
    }
}

/// The `len` bytes that a number is written in, the least significant byte first.
pub open spec fn le_bytes(n: nat, len: nat) -> Seq<u8>
    decreases len,
{
    if len == 0 {
        Seq::empty()
    } else {
        seq![(n % 256) as u8] + le_bytes(n / 256, (len - 1) as nat)
    }
}

/// Reading gives back the number that was written, if it fits.
pub proof fn law_write_then_read(n: nat, len: nat)
    requires
        n < pow256(len),
    ensures
        le_bytes(n, len).len() == len,
        le_value(le_bytes(n, len)) == n,
    decreases len,
{
    if len > 0 {
        let rest = le_bytes(n / 256, (len - 1) as nat);
        law_write_then_read(n / 256, (len - 1) as nat);
        assert(le_bytes(n, len).drop_first() =~= rest);
    }
}

/// Writing gives back the bytes that a number was read from.
pub proof fn law_read_then_write(bytes: Seq<u8>)
    ensures
        le_bytes(le_value(bytes), bytes.len()) == bytes,
    decreases bytes.len(),
{
    lemma_le_value_bound(bytes);
    law_write_then_read(le_value(bytes), bytes.len());
    law_le_value_injective(le_bytes(le_value(bytes), bytes.len()), bytes);
}

proof fn lemma_pow256_values()
    ensures
        pow256(0) == 1,
        pow256(1) == 0x100,
        pow256(2) == 0x1_0000,
        pow256(3) == 0x100_0000,
        pow256(4) == 0x1_0000_0000,
        pow256(5) == 0x100_0000_0000,
        pow256(6) == 0x1_0000_0000_0000,
        pow256(7) == 0x100_0000_0000_0000,
        pow256(8) == 0x1_0000_0000_0000_0000,
{
    reveal_with_fuel(pow256, 9);
}

/// What eight bytes stand for fits in a `u64`.
pub proof fn lemma_header_fits(header: Seq<u8>)
    requires
        header.len() == 8,
    ensures
        le_value(header) <= u64::MAX,
        pow256(8) == u64::MAX + 1,
{
    lemma_le_value_bound(header);
    lemma_pow256_values();
}

/// Writes a number in little endian.
pub fn u64_to_little_endian(n: u64, buf: &mut [u8; 8]) -> (r: Result<()>)
    ensures
        r is Ok,
        final(buf)@ == le_bytes(n as nat, 8),
{
    let mut n_mut: u64 = n;
    let mut i: usize = 0;
    assert(buf@.take(0) =~= Seq::<u8>::empty());
    assert(n * pow256(0) == n) by (nonlinear_arith)
        requires
            pow256(0) == 1,
    ;
    while i < 8
        invariant
            i <= 8,
            buf@.len() == 8,
            n == le_value(buf@.take(i as int)) + n_mut * pow256(i as nat),
        decreases 8 - i,
    {
        let ghost before = buf@.take(i as int);
        let ghost high = n_mut as int / 256;
        let ghost low = n_mut as int % 256;
        assert((n_mut & 0xff) == n_mut % 256) by (bit_vector);
        assert((n_mut >> 8) == n_mut / 256) by (bit_vector);
        let b = (n_mut & 0xff) as u8;
        buf[i] = b;
        n_mut = n_mut >> 8;
        i = i + 1;
        proof {
            assert(buf@.take(i as int) =~= before.push(b));
            lemma_le_value_push(before, b);
            let p = pow256((i - 1) as nat) as int;
            assert(pow256(i as nat) == 256 * p);
            assert((high * 256 + low) * p == high * (256 * p) + low * p) by (nonlinear_arith);
        }
    }
    proof {
        assert(buf@.take(8) =~= buf@);
        lemma_pow256_values();
        let low = le_value(buf@) as int;
        assert(n_mut == 0) by (nonlinear_arith)
            requires
                n == low + n_mut * 0x1_0000_0000_0000_0000,
                low >= 0,
                n_mut >= 0,
                n < 0x1_0000_0000_0000_0000,
        ;
        law_read_then_write(buf@);
    }
    Ok(())
}

/// Reads a number in little endian.
pub fn little_endian_to_u64(buf: &[u8; 8]) -> (n: u64)
    ensures
        n == le_value(buf@),
{
    let mut n: u64 = 0;
    let mut i: usize = 0;
    assert(buf@.take(0) =~= Seq::<u8>::empty());
    while i < 8
        invariant
            i <= 8,
            n == le_value(buf@.take(i as int)),
        decreases 8 - i,
    {
        let ghost before = buf@.take(i as int);
        let b = buf[i] as u64;
        let s = (i * 8) as u64;
        proof {
            lemma_le_value_bound(before);
            lemma_pow256_values();
            assert(before.push(buf@[i as int]) =~= buf@.take(i + 1));
            lemma_le_value_push(before, buf@[i as int]);
            assert((1u64 << 0) == 1 && (1u64 << 8) == 0x100 && (1u64 << 16) == 0x1_0000 && (1u64
                << 24) == 0x100_0000 && (1u64 << 32) == 0x1_0000_0000 && (1u64 << 40)
                == 0x100_0000_0000 && (1u64 << 48) == 0x1_0000_0000_0000 && (1u64 << 56)
                == 0x100_0000_0000_0000) by (bit_vector);
            assert(i == 0 || i == 1 || i == 2 || i == 3 || i == 4 || i == 5 || i == 6 || i == 7);
            assert((1u64 << s) == pow256(i as nat));
            assert((n | (b << s)) == n + b * (1u64 << s)) by (bit_vector)
                requires
                    b < 256,
                    s == 0 || s == 8 || s == 16 || s == 24 || s == 32 || s == 40 || s == 48 || s
                        == 56,
                    n < (1u64 << s),
            ;
        }
        n = n | (b << s);
        i = i + 1;
    }
    assert(buf@.take(8) =~= buf@);
    n
}

/// The length of a frame's header.
pub const HEADER_LEN: usize = 8;

/// A payload behind its length.
pub open spec fn frame(payload: Seq<u8>) -> Seq<u8> {
    le_bytes(payload.len(), HEADER_LEN as nat) + payload
}

/// What is sent for a payload: its length in little endian, then the payload.
pub fn encode_frame(raw_data: &Vec<u8>) -> (r: Result<Vec<u8>>)
    ensures
        r matches Ok(bytes) && bytes@ == frame(raw_data@),
{
    let size = raw_data.len();
    let mut buf: [u8; 8] = [0; 8];
    match u64_to_little_endian(size as u64, &mut buf) {
        Ok(_) => {},
        Err(e) => return Err(e),
    }
    let mut bytes: Vec<u8> = Vec::new();
    bytes.extend_from_slice(&buf);
    bytes.extend_from_slice(raw_data.as_slice());
    assert(bytes@ =~= frame(raw_data@));
    Ok(bytes)
}

/// Eight bytes stand for the sum of their values, each counting 256 times as much as the one before
/// it.
pub proof fn law_header_value(h: Seq<u8>)
    requires
        h.len() == 8,
    ensures
        le_value(h) == h[0] + 0x100 * h[1] + 0x1_0000 * h[2] + 0x100_0000 * h[3] + 0x1_0000_0000
            * h[4] + 0x100_0000_0000 * h[5] + 0x1_0000_0000_0000 * h[6] + 0x100_0000_0000_0000
            * h[7],
{
    reveal_with_fuel(le_value, 9);
    let t1 = h.drop_first();
    let t2 = t1.drop_first();
    let t3 = t2.drop_first();
    let t4 = t3.drop_first();
    let t5 = t4.drop_first();
    let t6 = t5.drop_first();
    let t7 = t6.drop_first();
    let t8 = t7.drop_first();
    assert(t8.len() == 0);
    assert(le_value(t7) == h[7]);
    assert(le_value(t6) == h[6] + 256 * le_value(t7));
    assert(le_value(t5) == h[5] + 256 * le_value(t6));
    assert(le_value(t4) == h[4] + 256 * le_value(t5));
    assert(le_value(t3) == h[3] + 256 * le_value(t4));
    assert(le_value(t2) == h[2] + 256 * le_value(t3));
    assert(le_value(t1) == h[1] + 256 * le_value(t2));
}

/// A number of 64 bits is written in eight bytes that add up to it, each counting 256 times as much
/// as the one before it.
pub proof fn law_header_written(n: u64, h: Seq<u8>)
    requires
        h == le_bytes(n as nat, 8),
    ensures
        h.len() == 8,
        n == h[0] + 0x100 * h[1] + 0x1_0000 * h[2] + 0x100_0000 * h[3] + 0x1_0000_0000
            * h[4] + 0x100_0000_0000 * h[5] + 0x1_0000_0000_0000 * h[6] + 0x100_0000_0000_0000
            * h[7],
{
    lemma_pow256_values();
    law_write_then_read(n as nat, 8);
    law_header_value(h);
}

/// A frame is eight bytes that add up to the length of the payload, and then the payload.
pub proof fn law_frame(payload: Seq<u8>)
    requires
        payload.len() <= u64::MAX,
    ensures
        ({
            let f = frame(payload);
            &&& f.len() == 8 + payload.len()
            &&& payload.len() == f[0] + 0x100 * f[1] + 0x1_0000 * f[2] + 0x100_0000 * f[3] + 0x1_0000_0000
                * f[4] + 0x100_0000_0000 * f[5] + 0x1_0000_0000_0000 * f[6] + 0x100_0000_0000_0000
                * f[7]
            &&& f.skip(8) == payload
        }),
{
    law_header_written(payload.len() as u64, le_bytes(payload.len(), 8));
    assert(frame(payload).skip(8) =~= payload);
}

} // verus!
