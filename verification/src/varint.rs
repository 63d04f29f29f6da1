use vstd::prelude::*;
use crate::errors::Errors;

verus! {

/// The bytes of the variable-length (base-128) encoding of `n`: seven value
/// bits per byte, least significant group first, high bit set on every byte
/// but the last.
pub open spec fn spec_varint(n: u64) -> Seq<u8>
    decreases n,
{
    if n < 128 {
        seq![n as u8]
    } else {
        seq![(n % 128 + 128) as u8] + spec_varint(n / 128)
    }
}

/// Decoding a variable-length integer that starts at `off`: the value and the
/// number of bytes it occupies, or `None` when the bytes run out or the value
/// would not fit in 64 bits.
pub open spec fn spec_varint_decode(s: Seq<u8>, off: int) -> Option<(u64, int)>
    decreases s.len() - off,
{
    if off < 0 || off >= s.len() {
        None
    } else if s[off] < 128 {
        Some((s[off] as u64, 1))
    } else {
        match spec_varint_decode(s, off + 1) {
            Option::None => None,
            Option::Some((v, k)) => {
                let low = (s[off] - 128) as u64;
                if v <= (u64::MAX - low) / 128 {
                    Some(((low + v * 128) as u64, k + 1))
                } else {
                    None
                }
            },
        }
    }
}

/// A successful decode consumes at least one byte and stays within the buffer.
pub proof fn lemma_varint_decode_bounds(s: Seq<u8>, off: int)
    requires
        spec_varint_decode(s, off) is Some,
    ensures
        1 <= spec_varint_decode(s, off)->Some_0.1,
        off + spec_varint_decode(s, off)->Some_0.1 <= s.len(),
        0 <= off < s.len(),
    decreases s.len() - off,
{
    if !(off < 0 || off >= s.len()) && s[off] >= 128 {
        lemma_varint_decode_bounds(s, off + 1);
    }
}

/// The encoding of any value takes between 1 and 10 bytes.
pub proof fn lemma_varint_len(n: u64)
    ensures
        1 <= spec_varint(n).len() <= 10,
{
    reveal_with_fuel(pow128, 11);
    assert(pow128(10) == 1180591620717411303424);
    lemma_varint_len_bound(n, 10);
}

/// Values below 128^k encode in at most k bytes.
proof fn lemma_varint_len_bound(n: u64, k: nat)
    requires
        1 <= k,
        n < pow128(k),
    ensures
        spec_varint(n).len() <= k,
    decreases k,
{
    if n >= 128 {
        if k == 1 {
            assert(pow128(1) == 128) by {
                reveal_with_fuel(pow128, 2);
            }
        } else {
            assert(pow128(k) == 128 * pow128((k - 1) as nat));
            assert(n / 128 < pow128((k - 1) as nat)) by (nonlinear_arith)
                requires n < 128 * pow128((k - 1) as nat), pow128((k - 1) as nat) >= 0, n >= 128;
            lemma_varint_len_bound(n / 128, (k - 1) as nat);
        }
    }
}

/// 128 raised to the power k.
pub open spec fn pow128(k: nat) -> int
    decreases k,
{
    if k == 0 { 1 } else { 128 * pow128((k - 1) as nat) }
}

/// Decoding an embedded encoding of `n` yields `n` back.
pub proof fn lemma_varint_round_trip(s: Seq<u8>, off: int, n: u64)
    requires
        0 <= off,
        off + spec_varint(n).len() <= s.len(),
        s.subrange(off, off + spec_varint(n).len() as int) == spec_varint(n),
    ensures
        spec_varint_decode(s, off) == Some((n, spec_varint(n).len() as int)),
    decreases n,
{
    let enc = spec_varint(n);
    assert(s[off] == enc[0]);
    if n < 128 {
        assert(enc[0] == n as u8);
    } else {
        let rest = spec_varint(n / 128);
        assert(enc == seq![(n % 128 + 128) as u8] + rest);
        assert(s.subrange(off + 1, off + 1 + rest.len() as int) =~= rest) by {
            assert forall|i: int| 0 <= i < rest.len() implies
                s.subrange(off + 1, off + 1 + rest.len() as int)[i] == rest[i] by {
                assert(s[off + 1 + i] == enc[1 + i]);
                assert(enc[1 + i] == rest[i]);
            }
        }
        lemma_varint_round_trip(s, off + 1, n / 128);
        let low = (s[off] - 128) as u64;
        assert(low == n % 128);
        assert((n / 128) <= (u64::MAX - low) / 128) by (nonlinear_arith)
            requires low == n % 128, n >= 128;
        assert(low + (n / 128) * 128 == n) by (nonlinear_arith)
            requires low == n % 128;
    }
}

/// A decode result depends only on the bytes it consumed: the same bytes in a
/// longer (or different) buffer decode the same way.
pub proof fn lemma_varint_decode_local(s1: Seq<u8>, s2: Seq<u8>, off1: int, off2: int)
    requires
        spec_varint_decode(s1, off1) is Some,
        0 <= off2,
        off2 + spec_varint_decode(s1, off1)->Some_0.1 <= s2.len(),
        s2.subrange(off2, off2 + spec_varint_decode(s1, off1)->Some_0.1)
            == s1.subrange(off1, off1 + spec_varint_decode(s1, off1)->Some_0.1),
    ensures
        spec_varint_decode(s2, off2)
            == Some((spec_varint_decode(s1, off1)->Some_0.0, spec_varint_decode(s1, off1)->Some_0.1)),
    decreases s1.len() - off1,
{
    lemma_varint_decode_bounds(s1, off1);
    let (v, k) = spec_varint_decode(s1, off1)->Some_0;
    assert(s2[off2] == s1.subrange(off1, off1 + k)[0]);
    assert(s2[off2] == s1[off1]);
    if s1[off1] >= 128 {
        let (v1, k1) = spec_varint_decode(s1, off1 + 1)->Some_0;
        assert(s2.subrange(off2 + 1, off2 + 1 + k1) =~= s1.subrange(off1 + 1, off1 + 1 + k1)) by {
            assert forall|i: int| 0 <= i < k1 implies
                #[trigger] s2.subrange(off2 + 1, off2 + 1 + k1)[i]
                    == s1.subrange(off1 + 1, off1 + 1 + k1)[i] by {
                assert(s2[off2 + 1 + i] == s2.subrange(off2, off2 + k)[1 + i]);
                assert(s1[off1 + 1 + i] == s1.subrange(off1, off1 + k)[1 + i]);
            }
        }
        lemma_varint_decode_local(s1, s2, off1 + 1, off2 + 1);
    }
}

/// Decoding is unchanged by dropping a prefix of the buffer, as long as the
/// drop stays before the decode position: the bytes from the position to the
/// end are the same.
pub proof fn lemma_varint_decode_shift(s: Seq<u8>, cstart: int, off: int)
    requires
        0 <= cstart <= off,
        cstart <= s.len(),
    ensures
        spec_varint_decode(s, off)
            == spec_varint_decode(s.subrange(cstart, s.len() as int), off - cstart),
    decreases s.len() - off,
{
    let chunk = s.subrange(cstart, s.len() as int);
    if off < s.len() {
        assert(chunk[off - cstart] == s[off]);
        if s[off] >= 128 {
            lemma_varint_decode_shift(s, cstart, off + 1);
            assert(spec_varint_decode(chunk, off - cstart + 1)
                == spec_varint_decode(s, off + 1));
            match spec_varint_decode(s, off + 1) {
                Option::None => {
                    assert(spec_varint_decode(chunk, off - cstart) is None);
                },
                Option::Some((v, k)) => {
                    let low = (s[off] - 128) as u64;
                    assert(chunk[off - cstart] - 128 == low);
                    if v <= (u64::MAX - low) / 128 {
                        assert(spec_varint_decode(chunk, off - cstart)
                            == Some(((low + v * 128) as u64, k + 1)));
                    } else {
                        assert(spec_varint_decode(chunk, off - cstart) is None);
                    }
                },
            }
        }
    } else {
        assert(off - cstart >= chunk.len());
    }
}

/// Appends the variable-length encoding of `n` to `buf`.
pub fn encode_varint(n: u64, buf: &mut Vec<u8>)
    ensures
        final(buf)@ == old(buf)@ + spec_varint(n),
{
    let ghost prefix = buf@;
    let ghost n0 = n;
    let mut m = n;
    while m >= 128
        invariant
            prefix + spec_varint(n0) == buf@ + spec_varint(m),
            buf@.len() >= prefix.len(),
        decreases m,
    {
        buf.push((m % 128 + 128) as u8);
        m = m / 128;
        assert(prefix + spec_varint(n0) == buf@ + spec_varint(m));
    }
    buf.push(m as u8);
    assert(spec_varint(m) =~= seq![m as u8]);
    assert(buf@ =~= prefix + spec_varint(n0));
}

/// Decodes a variable-length integer starting at `offset`; returns the value
/// and the number of bytes consumed.
pub fn decode_varint(buf: &Vec<u8>, offset: usize) -> (r: Result<(u64, usize), Errors>)
    ensures
        match r {
            Ok((v, k)) => spec_varint_decode(buf@, offset as int) == Some((v, k as int)),
            Err(e) => spec_varint_decode(buf@, offset as int) is None
                && e == Errors::DecodeError,
        },
    decreases buf.len() - offset,
{
    if offset >= buf.len() {
        return Err(Errors::DecodeError);
    }
    let b = buf[offset];
    if b < 128 {
        Ok((b as u64, 1))
    } else {
        match decode_varint(buf, offset + 1) {
            Err(e) => Err(e),
            Ok((v, k)) => {
                let low = (b - 128) as u64;
                if v <= (u64::MAX - low) / 128 {
                    proof {
                        lemma_varint_decode_bounds(buf@, offset + 1);
                    }
                    Ok((low + v * 128, k + 1))
                } else {
                    Err(Errors::DecodeError)
                }
            },
        }
    }
}

/// The number of bytes the variable-length encoding of `n` occupies.
pub fn varint_len(n: u64) -> (r: usize)
    ensures
        r == spec_varint(n).len(),
{
    let mut m = n;
    let mut len: usize = 1;
    while m >= 128
        invariant
            len >= 1,
            len + spec_varint(m).len() == 1 + spec_varint(n).len(),
        decreases m,
    {
        proof {
            lemma_varint_len(n);
            lemma_varint_len(m);
        }
        m = m / 128;
        len = len + 1;
    }
    len
}

} // verus!
