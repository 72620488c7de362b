//! The binary encoding that layers are stored in: numbers of a fixed width,
//! most significant byte first; a run of bytes behind its length as a 64-bit
//! number; a flag as one byte, 0 or 1.
//!
//! Each decoder takes what it needs from the front of its input and hands
//! back the rest.

use vstd::prelude::*;
use vstd::slice::slice_subrange;

verus! {

/// 256 to the power of `width`.
pub open spec fn pow256(width: nat) -> nat
    decreases width,
{
    if width == 0 {
        1
    } else {
        256 * pow256((width - 1) as nat)
    }
}

/// The `width` least significant bytes of `n`, most significant first.
pub open spec fn be_bytes(n: nat, width: nat) -> Seq<u8>
    decreases width,
{
    if width == 0 {
        Seq::<u8>::empty()
    } else {
        be_bytes(n / 256, (width - 1) as nat).push((n % 256) as u8)
    }
}

/// The number that bytes denote, most significant first.
pub open spec fn be_value(s: Seq<u8>) -> nat
    decreases s.len(),
{
    if s.len() == 0 {
        0
    } else {
        be_value(s.drop_last()) * 256 + s.last() as nat
    }
}

/// A 32-bit number, encoded.
pub open spec fn enc_u32(v: u32) -> Seq<u8> {
    be_bytes(v as nat, 4)
}

/// A 64-bit number, encoded.
pub open spec fn enc_u64(v: u64) -> Seq<u8> {
    be_bytes(v as nat, 8)
}

/// A flag, encoded.
pub open spec fn enc_bool(b: bool) -> Seq<u8> {
    seq![if b { 1u8 } else { 0u8 }]
}

/// A run of bytes, encoded behind its length.
pub open spec fn enc_bytes(b: Seq<u8>) -> Seq<u8> {
    enc_u64(b.len() as u64) + b
}

/// Decodes a 32-bit number from the front of `s`.
pub open spec fn dec_u32(s: Seq<u8>) -> Option<(u32, Seq<u8>)> {
    if s.len() >= 4 {
        Some((be_value(s.take(4)) as u32, s.skip(4)))
    } else {
        None
    }
}

/// Decodes a 64-bit number from the front of `s`.
pub open spec fn dec_u64(s: Seq<u8>) -> Option<(u64, Seq<u8>)> {
    if s.len() >= 8 {
        Some((be_value(s.take(8)) as u64, s.skip(8)))
    } else {
        None
    }
}

/// Decodes a flag from the front of `s`: a byte that is 0 or 1.
pub open spec fn dec_bool(s: Seq<u8>) -> Option<(bool, Seq<u8>)> {
    if s.len() >= 1 && s[0] <= 1 {
        Some((s[0] == 1, s.skip(1)))
    } else {
        None
    }
}

/// Decodes a run of bytes from the front of `s`: a length, then as many
/// bytes.
pub open spec fn dec_bytes(s: Seq<u8>) -> Option<(Seq<u8>, Seq<u8>)> {
    match dec_u64(s) {
        Some((len, rest)) => if len <= rest.len() {
            Some((rest.take(len as int), rest.skip(len as int)))
        } else {
            None
        },
        None => None,
    }
}

/// The powers of 256 that the widths in use need.
pub proof fn lemma_pow256_values()
    ensures
        pow256(0) == 1,
        pow256(1) == 0x100,
        pow256(2) == 0x1_0000,
        pow256(3) == 0x100_0000,
        pow256(4) == 0x1_0000_0000,
        pow256(5) == 0x100_0000_0000,
        pow256(6) == 0x1_0000_0000_0000,
        pow256(7) == 0x100_0000_0000_0000,
        pow256(8) == 0x1_0000_0000_0000_0000,
{
    reveal_with_fuel(pow256, 10);
}

/// An encoding of a width has that many bytes.
pub proof fn lemma_be_bytes_len(n: nat, width: nat)
    ensures
        be_bytes(n, width).len() == width,
    decreases width,
{
    if width > 0 {
        lemma_be_bytes_len(n / 256, (width - 1) as nat);
    }
}

/// A number that fits in a width is read back from its encoding.
pub proof fn lemma_be_roundtrip(n: nat, width: nat)
    requires
        n < pow256(width),
    ensures
        be_value(be_bytes(n, width)) == n,
    decreases width,
{
    if width > 0 {
        let s = be_bytes(n, width);
        assert(n / 256 < pow256((width - 1) as nat));
        lemma_be_roundtrip(n / 256, (width - 1) as nat);
        assert(s.drop_last() =~= be_bytes(n / 256, (width - 1) as nat));
        assert(s.last() == (n % 256) as u8);
    }
}

/// What bytes denote is below 256 to the power of their number.
pub proof fn lemma_be_value_bound(s: Seq<u8>)
    ensures
        be_value(s) < pow256(s.len()),
    decreases s.len(),
{
    if s.len() > 0 {
        lemma_be_value_bound(s.drop_last());
    }
}

/// A 32-bit number is decoded from what follows by its encoding.
pub proof fn lemma_u32_roundtrip(v: u32, rest: Seq<u8>)
    ensures
        dec_u32(enc_u32(v) + rest) == Some((v, rest)),
{
    lemma_pow256_values();
    lemma_be_bytes_len(v as nat, 4);
    lemma_be_roundtrip(v as nat, 4);
    let s = enc_u32(v) + rest;
    assert(s.take(4) =~= enc_u32(v));
    assert(s.skip(4) =~= rest);
}

/// A 64-bit number is decoded from what follows by its encoding.
pub proof fn lemma_u64_roundtrip(v: u64, rest: Seq<u8>)
    ensures
        dec_u64(enc_u64(v) + rest) == Some((v, rest)),
{
    lemma_pow256_values();
    lemma_be_bytes_len(v as nat, 8);
    lemma_be_roundtrip(v as nat, 8);
    let s = enc_u64(v) + rest;
    assert(s.take(8) =~= enc_u64(v));
    assert(s.skip(8) =~= rest);
}

/// A flag is decoded from what follows by its encoding.
pub proof fn lemma_bool_roundtrip(b: bool, rest: Seq<u8>)
    ensures
        dec_bool(enc_bool(b) + rest) == Some((b, rest)),
{
    let s = enc_bool(b) + rest;
    assert(s.skip(1) =~= rest);
}

/// A run of bytes whose length fits in 64 bits is decoded from what follows
/// by its encoding.
pub proof fn lemma_bytes_roundtrip(b: Seq<u8>, rest: Seq<u8>)
    requires
        b.len() <= u64::MAX,
    ensures
        dec_bytes(enc_bytes(b) + rest) == Some((b, rest)),
{
    let s = enc_bytes(b) + rest;
    assert(s =~= enc_u64(b.len() as u64) + (b + rest));
    lemma_u64_roundtrip(b.len() as u64, b + rest);
    assert((b + rest).take(b.len() as int) =~= b);
    assert((b + rest).skip(b.len() as int) =~= rest);
}

/// Appends the `width` least significant bytes of `n`, most significant
/// first.
pub fn put_be(out: &mut Vec<u8>, n: u64, width: u32)
    ensures
        final(out)@ == old(out)@ + be_bytes(n as nat, width as nat),
    decreases width,
{
    if width > 0 {
        put_be(out, n / 256, width - 1);
        out.push((n % 256) as u8);
    }
    assert(final(out)@ =~= old(out)@ + be_bytes(n as nat, width as nat));
}

/// Appends a 32-bit number.
pub fn put_u32(out: &mut Vec<u8>, v: u32)
    ensures
        final(out)@ == old(out)@ + enc_u32(v),
{
    put_be(out, v as u64, 4);
}

/// Appends a 64-bit number.
pub fn put_u64(out: &mut Vec<u8>, v: u64)
    ensures
        final(out)@ == old(out)@ + enc_u64(v),
{
    put_be(out, v, 8);
}

/// Appends a flag.
pub fn put_bool(out: &mut Vec<u8>, b: bool)
    ensures
        final(out)@ == old(out)@ + enc_bool(b),
{
    out.push(if b { 1u8 } else { 0u8 });
    assert(final(out)@ =~= old(out)@ + enc_bool(b));
}

/// Appends a run of bytes behind its length.
pub fn put_bytes(out: &mut Vec<u8>, b: &[u8])
    ensures
        final(out)@ == old(out)@ + enc_bytes(b@),
{
    put_u64(out, b.len() as u64);
    out.extend_from_slice(b);
    assert(final(out)@ =~= old(out)@ + enc_bytes(b@));
}

/// The number that `buf[pos..pos + width]` denotes.
pub fn get_be(buf: &[u8], pos: usize, width: usize) -> (v: u64)
    requires
        width <= 8,
        pos + width <= buf.len(),
    ensures
        v == be_value(buf@.subrange(pos as int, pos + width)),
{
    let mut acc: u64 = 0;
    let mut i: usize = 0;
    proof {
        lemma_pow256_values();
    }
    while i < width
        invariant
            i <= width <= 8,
            pos + width <= buf.len(),
            acc == be_value(buf@.subrange(pos as int, pos + i)),
            acc < pow256(i as nat),
        decreases width - i,
    {
        proof {
            lemma_pow256_values();
            let longer = buf@.subrange(pos as int, pos + i + 1);
            assert(longer.drop_last() =~= buf@.subrange(pos as int, pos + i));
            assert(longer.last() == buf@[pos + i]);
            lemma_be_value_bound(longer);
            assert(pow256((i + 1) as nat) <= pow256(8)) by {
                reveal_with_fuel(pow256, 10);
            }
        }
        acc = acc * 256 + buf[pos + i] as u64;
        i = i + 1;
    }
    acc
}

/// Reads a 32-bit number at `pos`.
pub fn get_u32(buf: &[u8], pos: usize) -> (r: Option<(u32, usize)>)
    requires
        pos <= buf.len(),
    ensures
        match dec_u32(buf@.skip(pos as int)) {
            Some((v, rest)) => r matches Some((got, next)) && got == v && pos <= next <= buf.len()
                && rest == buf@.skip(next as int),
            None => r is None,
        },
{
    if buf.len() - pos < 4 {
        return None;
    }
    let v = get_be(buf, pos, 4);
    proof {
        lemma_pow256_values();
        lemma_be_value_bound(buf@.subrange(pos as int, pos + 4));
        assert(buf@.skip(pos as int).take(4) =~= buf@.subrange(pos as int, pos + 4));
        assert(buf@.skip(pos as int).skip(4) =~= buf@.skip(pos + 4));
    }
    Some((v as u32, pos + 4))
}

/// Reads a 64-bit number at `pos`.
pub fn get_u64(buf: &[u8], pos: usize) -> (r: Option<(u64, usize)>)
    requires
        pos <= buf.len(),
    ensures
        match dec_u64(buf@.skip(pos as int)) {
            Some((v, rest)) => r matches Some((got, next)) && got == v && pos <= next <= buf.len()
                && rest == buf@.skip(next as int),
            None => r is None,
        },
{
    if buf.len() - pos < 8 {
        return None;
    }
    let v = get_be(buf, pos, 8);
    proof {
        lemma_pow256_values();
        lemma_be_value_bound(buf@.subrange(pos as int, pos + 8));
        assert(buf@.skip(pos as int).take(8) =~= buf@.subrange(pos as int, pos + 8));
        assert(buf@.skip(pos as int).skip(8) =~= buf@.skip(pos + 8));
    }
    Some((v, pos + 8))
}

/// Reads a flag at `pos`.
pub fn get_bool(buf: &[u8], pos: usize) -> (r: Option<(bool, usize)>)
    requires
        pos <= buf.len(),
    ensures
        match dec_bool(buf@.skip(pos as int)) {
            Some((v, rest)) => r matches Some((got, next)) && got == v && pos <= next <= buf.len()
                && rest == buf@.skip(next as int),
            None => r is None,
        },
{
    if pos >= buf.len() {
        return None;
    }
    let b = buf[pos];
    proof {
        assert(buf@.skip(pos as int)[0] == b);
        assert(buf@.skip(pos as int).skip(1) =~= buf@.skip(pos + 1));
    }
    if b > 1 {
        return None;
    }
    Some((b == 1, pos + 1))
}

/// Reads a run of bytes at `pos`: hands back the run and where it ends.
pub fn get_bytes(buf: &[u8], pos: usize) -> (r: Option<(&[u8], usize)>)
    requires
        pos <= buf.len(),
    ensures
        match dec_bytes(buf@.skip(pos as int)) {
            Some((v, rest)) => r matches Some((got, next)) && got@ == v && pos <= next <= buf.len()
                && rest == buf@.skip(next as int),
            None => r is None,
        },
{
    match get_u64(buf, pos) {
        None => None,
        Some((len, start)) => {
            if len > (buf.len() - start) as u64 {
                return None;
            }
            let end = start + len as usize;
            let run = slice_subrange(buf, start, end);
            proof {
                assert(buf@.skip(start as int).take(len as int) =~= buf@.subrange(
                    start as int,
                    end as int,
                ));
                assert(buf@.skip(start as int).skip(len as int) =~= buf@.skip(end as int));
            }
            Some((run, end))
        },
    }
}

} // verus!
