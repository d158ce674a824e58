//! The transform for any group size `N` in `1..=254`.
use vstd::prelude::*;
use crate::arith::block_count;
use crate::arith::encoded_len;
use crate::arith::padding_len;
use crate::arith::lemma_block_count;
use crate::arith::lemma_slot;
use crate::arith::data_pos;

verus! {

/// Why a byte string is not the framed form of any input.
#[derive(Debug, Clone, Copy, PartialEq, Eq, Structural)]
pub enum Error {
    /// The input byte stream is empty.
    EmptyBytes,
    /// The input length is not a multiple of `N + 1`.
    InvalidLength { len: usize, n: u8 },
    /// A control byte before the last one is not 0.
    InvalidDelimiter { pos: usize, val: u8 },
    /// A byte past the data in the last block is not 0xFF.
    InvalidPadding { pos: usize, val: u8 },
    /// The last byte is 0 or greater than `N + 1`.
    InvalidEnding { val: u8 },
}

/// Byte `p` of the framed form of `x`: each block holds `n` payload bytes
/// (the complement of a raw byte, or 0xFF as filler) and a control byte,
/// which is 0 between blocks and one more than the filler count at the end.
pub open spec fn mapped_byte(x: Seq<u8>, n: int, p: int) -> u8 {
    let blk = p / (n + 1);
    let off = p % (n + 1);
    if off == n {
        if p + 1 == encoded_len(x.len() as int, n) {
            (padding_len(x.len() as int, n) + 1) as u8
        } else {
            0
        }
    } else if blk * n + off < x.len() {
        !x[blk * n + off]
    } else {
        0xff
    }
}

/// The framed form of `x` under group size `n`.
pub open spec fn mapped(x: Seq<u8>, n: int) -> Seq<u8> {
    Seq::new(encoded_len(x.len() as int, n) as nat, |p: int| mapped_byte(x, n, p))
}

/// Maps `bytes` to its framed form, whose lexicographic order is the reverse
/// of the inputs' order.
pub fn map<const N: usize>(bytes: &[u8]) -> (r: Vec<u8>)
    requires
        0 < N < 255,
        encoded_len(bytes@.len() as int, N as int) <= usize::MAX,
    ensures
        r@ == mapped(bytes@, N as int),
        r@.len() == encoded_len(bytes@.len() as int, N as int),
{
    let ghost n = N as int;
    let len0 = bytes.len();
    proof {
        lemma_block_count(len0 as int, n);
    }
    let blocks: usize = if len0 == 0 {
        1
    } else {
        (len0 - 1) / N + 1
    };
    proof {
        let b = block_count(len0 as int, n);
        if len0 > 0 {
            assert((b - 1) * n == b * n - n) by (nonlinear_arith);
            vstd::arithmetic::div_mod::lemma_fundamental_div_mod_converse(
                len0 - 1, n, b - 1, (len0 - 1) - (b - 1) * n);
        }
        assert(blocks == b);
    }
    let total: usize = blocks * (N + 1);
    let mut out: Vec<u8> = Vec::with_capacity(total);
    let mut idx: usize = 0;
    let mut off: usize = 0;
    let ghost mut blk: int = 0;
    while idx < len0
        invariant
            0 < N < 255,
            n == N as int,
            len0 == bytes@.len(),
            total == encoded_len(len0 as int, n),
            blocks == block_count(len0 as int, n),
            total == blocks * (n + 1),
            blocks * n >= len0,
            len0 >= 1 ==> (blocks - 1) * n < len0,
            idx <= len0,
            0 <= blk,
            off <= N,
            idx == blk * n + off,
            idx == 0 ==> off == 0 && blk == 0,
            idx > 0 ==> off >= 1,
            out@.len() == blk * (n + 1) + off,
            forall|q: int| 0 <= q < out@.len() ==> out@[q] == mapped_byte(bytes@, n, q),
        decreases len0 - idx,
    {
        if off == N {
            proof {
                lemma_slot(blk, n, n);
                assert((blk + 1) * n == blk * n + n) by (nonlinear_arith);
                assert(blk + 1 < blocks) by (nonlinear_arith)
                    requires (blk + 1) * n < len0, blocks * n >= len0, n >= 1;
                assert((blk + 1) * (n + 1) < blocks * (n + 1)) by (nonlinear_arith)
                    requires blk + 1 < blocks, n >= 1;
                assert(blk * (n + 1) + n + 1 == (blk + 1) * (n + 1)) by (nonlinear_arith);
            }
            out.push(0);
            off = 0;
            proof {
                blk = blk + 1;
                assert(blk * (n + 1) == (blk - 1) * (n + 1) + n + 1) by (nonlinear_arith);
                assert(blk * n == (blk - 1) * n + n) by (nonlinear_arith);
            }
        }
        proof {
            lemma_slot(blk, off as int, n);
        }
        out.push(!bytes[idx]);
        off = off + 1;
        idx = idx + 1;
    }
    proof {
        // The data ends in the last block.
        if len0 > 0 {
            assert(blk < blocks) by (nonlinear_arith)
                requires blocks * n >= len0, len0 == blk * n + off, off >= 1, n >= 1;
            assert(blocks - 1 < blk + 1) by (nonlinear_arith)
                requires (blocks - 1) * n < len0, len0 == blk * n + off, off <= n, n >= 1;
        }
        assert(blocks == blk + 1);
        assert(total == blk * (n + 1) + n + 1) by (nonlinear_arith)
            requires total == blocks * (n + 1), blocks == blk + 1;
        assert(padding_len(len0 as int, n) == n - off) by (nonlinear_arith)
            requires blocks == blk + 1, len0 == blk * n + off,
                padding_len(len0 as int, n) == blocks * n - len0;
    }
    let m: usize = total - 1 - out.len();
    let ghost filled = out@.len();
    while out.len() < total - 1
        invariant
            0 < N < 255,
            n == N as int,
            len0 == bytes@.len(),
            idx == len0,
            total == encoded_len(len0 as int, n),
            total == blk * (n + 1) + n + 1,
            0 <= blk,
            off <= N,
            len0 == blk * n + off,
            filled == blk * (n + 1) + off,
            filled <= out@.len() <= total - 1,
            forall|q: int| 0 <= q < out@.len() ==> out@[q] == mapped_byte(bytes@, n, q),
        decreases total - out@.len(),
    {
        proof {
            lemma_slot(blk, out@.len() - blk * (n + 1), n);
        }
        out.push(0xff);
    }
    proof {
        lemma_slot(blk, n, n);
    }
    out.push((m + 1) as u8);
    assert(out@ =~= mapped(bytes@, n));
    out
}

/// The control byte that ends a framed string.
pub open spec fn ending(y: Seq<u8>) -> u8 {
    y[y.len() - 1]
}

/// Number of raw bytes that a framed string of whole blocks carries.
pub open spec fn unmapped_len(y: Seq<u8>, n: int) -> int {
    (y.len() as int / (n + 1)) * n - (ending(y) - 1)
}

/// Byte `p` breaks the framing: a control byte before the last one that is
/// not 0, or a payload byte past the data that is not 0xFF.
pub open spec fn invalid_at(y: Seq<u8>, n: int, p: int) -> bool {
    let off = p % (n + 1);
    if off == n {
        p + 1 != y.len() && y[p] != 0
    } else {
        (p / (n + 1)) * n + off >= unmapped_len(y, n) && y[p] != 0xff
    }
}

/// `p` is the first position at which the framing breaks.
pub open spec fn first_invalid(y: Seq<u8>, n: int, p: int) -> bool {
    &&& 0 <= p < y.len()
    &&& invalid_at(y, n, p)
    &&& forall|q: int| 0 <= q < p ==> !invalid_at(y, n, q)
}

/// The error reported for a broken byte at position `p`.
pub open spec fn error_at(y: Seq<u8>, n: int, p: int) -> Error {
    if p % (n + 1) == n {
        Error::InvalidDelimiter { pos: p as usize, val: y[p] }
    } else {
        Error::InvalidPadding { pos: p as usize, val: y[p] }
    }
}

/// What decoding `y` under group size `n` yields: the first failure in the
/// order empty input, length, ending byte, then a scan from the front; or
/// the complements of the payload bytes that carry data.
pub open spec fn unmapped(y: Seq<u8>, n: int) -> Result<Seq<u8>, Error> {
    if y.len() == 0 {
        Err(Error::EmptyBytes)
    } else if y.len() as int % (n + 1) != 0 {
        Err(Error::InvalidLength { len: y.len() as usize, n: n as u8 })
    } else if ending(y) == 0 || ending(y) > n + 1 {
        Err(Error::InvalidEnding { val: ending(y) })
    } else if exists|p: int| first_invalid(y, n, p) {
        Err(error_at(y, n, choose|p: int| first_invalid(y, n, p)))
    } else {
        Ok(Seq::new(unmapped_len(y, n) as nat, |i: int| !y[data_pos(i, n)]))
    }
}

/// There is at most one first broken position.
pub proof fn lemma_first_invalid_unique(y: Seq<u8>, n: int, p: int, q: int)
    requires
        first_invalid(y, n, p),
        first_invalid(y, n, q),
    ensures
        p == q,
{
    if p < q {
        assert(!invalid_at(y, n, p));
    } else if q < p {
        assert(!invalid_at(y, n, q));
    }
}

/// Recovers the bytes that `map` framed, or reports the first way in which
/// `bytes` is not a framed string.
pub fn unmap<const N: usize>(bytes: &[u8]) -> (r: Result<Vec<u8>, Error>)
    requires
        0 < N < 255,
    ensures
        match r {
            Ok(v) => unmapped(bytes@, N as int) == Ok::<Seq<u8>, Error>(v@),
            Err(e) => unmapped(bytes@, N as int) == Err::<Seq<u8>, Error>(e),
        },
{
    let ghost n = N as int;
    let ghost y = bytes@;
    if bytes.len() == 0 {
        return Err(Error::EmptyBytes);
    }
    let len0 = bytes.len();
    let chunks = len0 / (N + 1);
    proof {
        vstd::arithmetic::div_mod::lemma_fundamental_div_mod(len0 as int, n + 1);
        let l = len0 as int;
        assert(chunks * (n + 1) <= l) by (nonlinear_arith)
            requires l == (n + 1) * chunks + l % (n + 1), l % (n + 1) >= 0;
    }
    let mapped_len = chunks * (N + 1);
    if mapped_len != len0 {
        return Err(Error::InvalidLength { len: len0, n: N as u8 });
    }
    let last = bytes[mapped_len - 1] as usize;
    if last == 0 || last > N + 1 {
        return Err(Error::InvalidEnding { val: last as u8 });
    }
    let padding = last - 1;
    proof {
        assert(chunks >= 1) by (nonlinear_arith)
            requires chunks * (n + 1) == len0, len0 > 0;
        assert(chunks * n >= n) by (nonlinear_arith)
            requires chunks >= 1, n >= 1;
        assert(chunks * n <= chunks * (n + 1)) by (nonlinear_arith)
            requires chunks >= 1, n >= 1;
        let l = len0 as int;
        assert(l % (n + 1) == 0) by (nonlinear_arith)
            requires l == (n + 1) * chunks + l % (n + 1), chunks * (n + 1) == l;
    }
    let data_len = chunks * N - padding;
    assert(data_len == unmapped_len(y, n));
    let mut out: Vec<u8> = Vec::with_capacity(data_len);
    let mut idx: usize = 0;
    let mut off: usize = 0;
    let ghost mut blk: int = 0;
    while idx < len0
        invariant
            0 < N < 255,
            n == N as int,
            y == bytes@,
            len0 == y.len(),
            len0 == chunks * (n + 1),
            mapped_len == len0,
            len0 as int % (n + 1) == 0,
            1 <= ending(y) <= n + 1,
            data_len == unmapped_len(y, n),
            data_len <= chunks * n,
            idx <= len0,
            0 <= blk,
            off <= N,
            idx == blk * (n + 1) + off,
            out@.len() == if blk * n + off < data_len { blk * n + off } else { data_len as int },
            forall|i: int| 0 <= i < out@.len() ==> out@[i] == !y[data_pos(i, n)],
            forall|q: int| 0 <= q < idx ==> !invalid_at(y, n, q),
        decreases len0 - idx,
    {
        let val = bytes[idx];
        proof {
            lemma_slot(blk, off as int, n);
        }
        if off == N {
            if idx + 1 != mapped_len && val != 0 {
                proof {
                    assert(first_invalid(y, n, idx as int));
                    lemma_first_invalid_unique(y, n, idx as int,
                        choose|p: int| first_invalid(y, n, p));
                }
                return Err(Error::InvalidDelimiter { pos: idx, val });
            }
            off = 0;
            proof {
                blk = blk + 1;
                assert(blk * (n + 1) == (blk - 1) * (n + 1) + n + 1) by (nonlinear_arith);
                assert(blk * n == (blk - 1) * n + n) by (nonlinear_arith);
            }
        } else {
            if out.len() == data_len {
                if val != 0xff {
                    proof {
                        assert(first_invalid(y, n, idx as int));
                        lemma_first_invalid_unique(y, n, idx as int,
                            choose|p: int| first_invalid(y, n, p));
                    }
                    return Err(Error::InvalidPadding { pos: idx, val });
                }
            } else {
                proof {
                    let d = blk * n + off;
                    vstd::arithmetic::div_mod::lemma_fundamental_div_mod_converse(
                        d, n, blk, off as int);
                    assert(data_pos(d, n) == idx);
                }
                out.push(!val);
            }
            off = off + 1;
        }
        idx = idx + 1;
    }
    proof {
        assert(blk * n + off >= data_len) by (nonlinear_arith)
            requires blk * (n + 1) + off == chunks * (n + 1), data_len <= chunks * n,
                0 <= off <= n, n >= 1, blk >= 0;
        assert(!exists|p: int| first_invalid(y, n, p));
    }
    assert(out@ =~= Seq::new(data_len as nat, |i: int| !y[data_pos(i, n)]));
    Ok(out)
}

} // verus!
