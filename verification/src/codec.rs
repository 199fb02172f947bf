//! The variable-length integer code that the interchange format is built
//! from.
//!
//! Integers are written base-128, least significant group first, with the
//! high bit of a byte marking that another byte follows. The decoder accepts
//! exactly the canonical encodings: it rejects padded forms, so every value
//! has one representation and the code is prefix-free.

use vstd::prelude::*;

verus! {

/// The canonical base-128 encoding of `x`, least significant group first.
pub open spec fn varint_spec(x: u64) -> Seq<u8>
    decreases x,
{
    if x < 128 {
        seq![x as u8]
    } else {
        seq![(128 + x % 128) as u8] + varint_spec(x / 128)
    }
}

/// Parses a canonical varint at `pos`, with `k` bytes of budget; returns the
/// value and the position after it.
pub open spec fn parse_varint_k(s: Seq<u8>, pos: int, k: nat) -> Option<(u64, int)>
    decreases k,
{
    if k == 0 || pos < 0 || pos >= s.len() {
        None
    } else {
        let b = s[pos];
        if b < 128 {
            Some((b as u64, pos + 1))
        } else {
            match parse_varint_k(s, pos + 1, (k - 1) as nat) {
                None => None,
                Some((hi, end)) => {
                    if hi == 0 {
                        None
                    } else if hi <= (u64::MAX - ((b - 128) as u64)) / 128 {
                        Some(((hi * 128 + ((b - 128) as u64)) as u64, end))
                    } else {
                        None
                    }
                },
            }
        }
    }
}

/// Ten bytes cover every `u64`.
pub open spec fn parse_varint(s: Seq<u8>, pos: int) -> Option<(u64, int)> {
    parse_varint_k(s, pos, 10)
}

/// `128^k`.
pub open spec fn pow128(k: nat) -> int
    decreases k,
{
    if k == 0 {
        1
    } else {
        128 * pow128((k - 1) as nat)
    }
}

/// An encoding never takes more bytes than its value has base-128 digits.
pub proof fn lemma_varint_len(x: u64, k: nat)
    requires
        k >= 1,
        x < pow128(k),
    ensures
        1 <= varint_spec(x).len() <= k,
    decreases k,
{
    if x >= 128 {
        assert(x / 128 < pow128((k - 1) as nat)) by (nonlinear_arith)
            requires
                x < pow128(k),
                pow128(k) == 128 * pow128((k - 1) as nat),
                x >= 128,
        ;
        lemma_varint_len(x / 128, (k - 1) as nat);
    }
}

/// Every `u64` fits in ten bytes.
pub proof fn lemma_varint_len10(x: u64)
    ensures
        1 <= varint_spec(x).len() <= 10,
{
    assert(pow128(0) == 1);
    assert(pow128(1) == 128);
    assert(pow128(2) == 0x4000);
    assert(pow128(3) == 0x20_0000);
    assert(pow128(4) == 0x1000_0000);
    assert(pow128(5) == 0x8_0000_0000);
    assert(pow128(6) == 0x400_0000_0000);
    assert(pow128(7) == 0x2_0000_0000_0000);
    assert(pow128(8) == 0x100_0000_0000_0000);
    assert(pow128(9) == 0x8000_0000_0000_0000);
    assert(pow128(10) == 0x40_0000_0000_0000_0000);
    lemma_varint_len(x, 10);
}

/// Parsing inverts encoding: wherever a buffer holds the encoding of `x`,
/// the parser returns exactly `x` and stops right after it. With injectivity
/// this makes the code uniquely decodable.
pub proof fn lemma_varint_parse_at(s: Seq<u8>, pos: int, x: u64, k: nat)
    requires
        0 <= pos,
        pos + varint_spec(x).len() <= s.len(),
        s.subrange(pos, pos + varint_spec(x).len()) == varint_spec(x),
        varint_spec(x).len() <= k,
    ensures
        parse_varint_k(s, pos, k) == Some((x, pos + varint_spec(x).len())),
    decreases x,
{
    let v = varint_spec(x);
    assert(s[pos] == v[0]);
    if x < 128 {
        assert(v.len() == 1);
        assert(s[pos] == x as u8);
    } else {
        let b = (128 + x % 128) as u8;
        assert(v[0] == b);
        assert(b >= 128);
        let tail = varint_spec(x / 128);
        assert(v == seq![b] + tail);
        assert(s.subrange(pos + 1, pos + 1 + tail.len()) =~= tail) by {
            assert forall|i: int| 0 <= i < tail.len() implies s.subrange(
                pos + 1,
                pos + 1 + tail.len(),
            )[i] == tail[i] by {
                assert(s[pos + 1 + i] == v[1 + i]);
                assert(v[1 + i] == tail[i]);
            }
        }
        lemma_varint_parse_at(s, pos + 1, x / 128, (k - 1) as nat);
        let hi = x / 128;
        assert(hi >= 1);
        assert(hi <= (u64::MAX - ((b - 128) as u64)) / 128 && hi * 128 + ((b - 128) as u64) == x)
            by (nonlinear_arith)
            requires
                hi == x / 128,
                b == (128 + x % 128) as u8,
                x >= 128,
        ;
    }
}

/// Appends the canonical encoding of `x` to `buf`.
pub fn write_u64(buf: &mut Vec<u8>, x: u64)
    ensures
        final(buf)@ == old(buf)@ + varint_spec(x),
{
    let mut v = x;
    while v >= 128
        invariant
            old(buf)@ + varint_spec(x) == buf@ + varint_spec(v),
        decreases v,
    {
        let ghost pre = buf@;
        buf.push((128 + (v % 128) as u8));
        proof {
            assert(varint_spec(v) == seq![(128 + v % 128) as u8] + varint_spec(v / 128));
            assert(pre + varint_spec(v) =~= buf@ + varint_spec(v / 128));
            lemma_varint_len10(v);
        }
        v = v / 128;
    }
    let ghost pre = buf@;
    buf.push(v as u8);
    proof {
        assert(varint_spec(v) == seq![v as u8]);
        assert(pre + varint_spec(v) =~= buf@);
    }
}

/// Reads a canonical varint at `pos`, with `fuel` bytes of budget.
fn read_u64_k(buf: &Vec<u8>, pos: usize, fuel: u64) -> (r: Option<(u64, usize)>)
    ensures
        match r {
            Some(p) => parse_varint_k(buf@, pos as int, fuel as nat) == Some((p.0, p.1 as int))
                && pos < p.1 <= buf@.len(),
            None => parse_varint_k(buf@, pos as int, fuel as nat) is None,
        },
    decreases fuel,
{
    if fuel == 0 || pos >= buf.len() {
        return None;
    }
    let b = buf[pos];
    if b < 128 {
        Some((b as u64, pos + 1))
    } else {
        match read_u64_k(buf, pos + 1, fuel - 1) {
            None => None,
            Some(p) => {
                let hi = p.0;
                let low = (b - 128) as u64;
                if hi == 0 {
                    None
                } else if hi <= (u64::MAX - low) / 128 {
                    Some((hi * 128 + low, p.1))
                } else {
                    None
                }
            },
        }
    }
}

/// Reads a canonical varint at `pos`, returning the value and the position
/// after it.
pub fn read_u64(buf: &Vec<u8>, pos: usize) -> (r: Option<(u64, usize)>)
    ensures
        match r {
            Some(p) => parse_varint(buf@, pos as int) == Some((p.0, p.1 as int)) && pos < p.1
                <= buf@.len(),
            None => parse_varint(buf@, pos as int) is None,
        },
{
    read_u64_k(buf, pos, 10)
}

/// The round trip at the heart of the interchange format: what `write_u64`
/// appends, `read_u64` parses back to the same value, wherever it stands in
/// a larger buffer and whatever follows it.
pub proof fn lemma_varint_roundtrip(prefix: Seq<u8>, x: u64, rest: Seq<u8>)
    ensures
        parse_varint(prefix + varint_spec(x) + rest, prefix.len() as int) == Some(
            (x, prefix.len() + varint_spec(x).len() as int),
        ),
{
    let s = prefix + varint_spec(x) + rest;
    lemma_varint_len10(x);
    assert(s.subrange(
        prefix.len() as int,
        prefix.len() + varint_spec(x).len() as int,
    ) =~= varint_spec(x));
    lemma_varint_parse_at(s, prefix.len() as int, x, 10);
}

/// Parsing is sound: whatever the parser consumed is exactly the canonical
/// encoding of the value it returned.
pub proof fn lemma_parse_varint_sound(s: Seq<u8>, pos: int, k: nat, v: u64, p: int)
    requires
        parse_varint_k(s, pos, k) == Some((v, p)),
    ensures
        0 <= pos < p <= s.len(),
        p - pos == varint_spec(v).len(),
        s.subrange(pos, p) == varint_spec(v),
    decreases k,
{
    let b = s[pos];
    if b < 128 {
        assert(s.subrange(pos, p) =~= varint_spec(v));
    } else {
        let rec = parse_varint_k(s, pos + 1, (k - 1) as nat);
        let hi = rec.unwrap().0;
        let low = (b - 128) as u64;
        lemma_parse_varint_sound(s, pos + 1, (k - 1) as nat, hi, p);
        assert(hi >= 1);
        assert(v == hi * 128 + low && v >= 128 && v % 128 == low && v / 128 == hi)
            by (nonlinear_arith)
            requires
                hi >= 1,
                low < 128,
                hi <= (u64::MAX - low) / 128,
                v == ((hi * 128 + low) as u64),
        ;
        assert(varint_spec(v) == seq![(128 + v % 128) as u8] + varint_spec(v / 128));
        assert(s.subrange(pos, p) =~= seq![b] + s.subrange(pos + 1, p));
        assert(s.subrange(pos, p) =~= varint_spec(v));
    }
}

/// The code is injective: distinct values never share an encoding.
pub proof fn lemma_varint_injective(a: u64, b: u64)
    requires
        varint_spec(a) == varint_spec(b),
    ensures
        a == b,
{
    lemma_varint_len10(a);
    lemma_varint_len10(b);
    assert(varint_spec(a).subrange(0, varint_spec(a).len() as int) =~= varint_spec(a));
    lemma_varint_parse_at(varint_spec(a), 0, a, 10);
    assert(varint_spec(b).subrange(0, varint_spec(b).len() as int) =~= varint_spec(b));
    lemma_varint_parse_at(varint_spec(b), 0, b, 10);
}

/// Appends a boolean as one byte, `0` or `1`.
pub fn write_bool(buf: &mut Vec<u8>, b: bool)
    ensures
        final(buf)@ == old(buf)@.push(
            if b {
                1u8
            } else {
                0u8
            },
        ),
{
    buf.push(if b { 1 } else { 0 });
}

/// Reads a boolean byte; anything but `0` or `1` is rejected.
pub fn read_bool(buf: &Vec<u8>, pos: usize) -> (r: Option<(bool, usize)>)
    ensures
        match r {
            Some(p) => pos < buf@.len() && p.1 == pos + 1 && buf@[pos as int] == (if p.0 {
                1u8
            } else {
                0u8
            }),
            None => pos >= buf@.len() || (buf@[pos as int] != 0 && buf@[pos as int] != 1),
        },
{
    if pos >= buf.len() {
        return None;
    }
    let b = buf[pos];
    if b == 0 {
        Some((false, pos + 1))
    } else if b == 1 {
        Some((true, pos + 1))
    } else {
        None
    }
}

} // verus!
