//! Arithmetic facts about blocks of `n + 1` framed bytes.
use vstd::prelude::*;
use vstd::arithmetic::div_mod::lemma_fundamental_div_mod;
use vstd::arithmetic::div_mod::lemma_fundamental_div_mod_converse;

verus! {

/// Number of blocks that frame `len` raw bytes: `ceil(max(1, len) / n)`.
pub open spec fn block_count(len: int, n: int) -> int {
    ((if len == 0 { 1 } else { len }) + n - 1) / n
}

/// Length of the framed form of `len` raw bytes.
pub open spec fn encoded_len(len: int, n: int) -> int {
    block_count(len, n) * (n + 1)
}

/// Number of filler bytes in the last block of the framed form.
pub open spec fn padding_len(len: int, n: int) -> int {
    block_count(len, n) * n - len
}

/// Position in the framed form of the raw byte with index `i`.
pub open spec fn data_pos(i: int, n: int) -> int {
    (i / n) * (n + 1) + i % n
}

/// The block count is the least number of `n`-byte groups that hold
/// `max(1, len)` bytes.
pub proof fn lemma_block_count(len: int, n: int)
    requires
        len >= 0,
        n >= 1,
    ensures
        block_count(len, n) >= 1,
        block_count(len, n) * n >= len,
        len >= 1 ==> (block_count(len, n) - 1) * n < len,
        len == 0 ==> block_count(len, n) == 1,
        0 <= padding_len(len, n) <= n,
        len >= 1 ==> padding_len(len, n) < n,
{
    let a = (if len == 0 { 1 } else { len }) + n - 1;
    let b = block_count(len, n);
    lemma_fundamental_div_mod(a, n);
    assert(a == n * b + a % n);
    assert(0 <= a % n < n);
    assert(b * n > a - n) by (nonlinear_arith)
        requires a == n * b + a % n, 0 <= a % n < n;
    assert(b * n <= a) by (nonlinear_arith)
        requires a == n * b + a % n, 0 <= a % n;
    assert(b >= 1) by (nonlinear_arith)
        requires b * n > a - n, a >= n, n >= 1;
    assert((b - 1) * n == b * n - n) by (nonlinear_arith);
    if len == 0 {
        assert(b < 2) by (nonlinear_arith)
            requires b * n <= n, n >= 1;
    }
}

/// Splits a framed position into its block and its offset in the block.
pub proof fn lemma_slot(blk: int, off: int, n: int)
    requires
        n >= 1,
        0 <= off <= n,
    ensures
        (blk * (n + 1) + off) / (n + 1) == blk,
        (blk * (n + 1) + off) % (n + 1) == off,
{
    lemma_fundamental_div_mod_converse(blk * (n + 1) + off, n + 1, blk, off);
}

/// More raw bytes never take fewer blocks.
pub proof fn lemma_block_count_monotone(la: int, lb: int, n: int)
    requires
        0 <= la <= lb,
        n >= 1,
    ensures
        block_count(la, n) <= block_count(lb, n),
{
    vstd::arithmetic::div_mod::lemma_div_is_ordered(
        (if la == 0 { 1 } else { la }) + n - 1,
        (if lb == 0 { 1 } else { lb }) + n - 1,
        n,
    );
}

/// Every position of a framed string of `len` raw bytes lies in one of its
/// blocks, and only the last byte of the last block ends it.
pub proof fn lemma_position(len: int, n: int, p: int)
    requires
        len >= 0,
        n >= 1,
        0 <= p < encoded_len(len, n),
    ensures
        0 <= p / (n + 1) < block_count(len, n),
        0 <= p % (n + 1) <= n,
        p == (p / (n + 1)) * (n + 1) + p % (n + 1),
        (p + 1 == encoded_len(len, n)) == (p / (n + 1) == block_count(len, n) - 1 && p % (n + 1) == n),
{
    let nb = block_count(len, n);
    let blk = p / (n + 1);
    let off = p % (n + 1);
    lemma_fundamental_div_mod(p, n + 1);
    assert(p == blk * (n + 1) + off) by (nonlinear_arith)
        requires p == (n + 1) * blk + off;
    assert(0 <= off <= n);
    assert(0 <= blk < nb) by (nonlinear_arith)
        requires p == blk * (n + 1) + off, 0 <= off <= n, p < nb * (n + 1), p >= 0, n >= 1;
    if p + 1 == encoded_len(len, n) {
        assert((nb - blk) * (n + 1) == off + 1) by (nonlinear_arith)
            requires p == blk * (n + 1) + off, p + 1 == nb * (n + 1);
        assert(nb - blk == 1) by (nonlinear_arith)
            requires (nb - blk) * (n + 1) == off + 1, 0 <= off <= n, n >= 1;
    }
    if blk == nb - 1 && off == n {
        assert(p + 1 == nb * (n + 1)) by (nonlinear_arith)
            requires p == blk * (n + 1) + off, blk == nb - 1, off == n;
    }
}

/// The raw byte with index `i` stands at a payload position of block `i / n`.
pub proof fn lemma_data_pos(len: int, n: int, i: int)
    requires
        0 <= i < len,
        n >= 1,
    ensures
        data_pos(i, n) / (n + 1) == i / n,
        data_pos(i, n) % (n + 1) == i % n,
        0 <= i % n < n,
        (i / n) * n + i % n == i,
        0 <= data_pos(i, n) < encoded_len(len, n),
{
    let nb = block_count(len, n);
    let b = i / n;
    let o = i % n;
    lemma_block_count(len, n);
    lemma_fundamental_div_mod(i, n);
    assert(b * n + o == i) by (nonlinear_arith)
        requires i == n * b + o;
    assert(0 <= b < nb) by (nonlinear_arith)
        requires b * n + o == i, 0 <= o < n, i < len, nb * n >= len, i >= 0, n >= 1;
    lemma_slot(b, o, n);
    let dp = b * (n + 1) + o;
    assert(dp < nb * (n + 1)) by (nonlinear_arith)
        requires dp == b * (n + 1) + o, o < n, b < nb, n >= 1;
    assert(0 <= dp) by (nonlinear_arith)
        requires dp == b * (n + 1) + o, o >= 0, b >= 0, n >= 1;
}

/// A payload position before that of raw byte `k` carries a raw byte with a
/// smaller index.
pub proof fn lemma_before_data(n: int, k: int, q: int)
    requires
        n >= 1,
        0 <= k,
        0 <= q < data_pos(k, n),
        q % (n + 1) < n,
    ensures
        (q / (n + 1)) * n + q % (n + 1) < k,
{
    let bq = q / (n + 1);
    let oq = q % (n + 1);
    let bk = k / n;
    let ok = k % n;
    lemma_fundamental_div_mod(q, n + 1);
    lemma_fundamental_div_mod(k, n);
    assert(q == bq * (n + 1) + oq) by (nonlinear_arith)
        requires q == (n + 1) * bq + oq;
    assert(k == bk * n + ok) by (nonlinear_arith)
        requires k == n * bk + ok;
    assert(0 <= oq < n);
    assert(0 <= ok < n);
    if bq < bk {
        assert(bq * n + oq < bk * n) by (nonlinear_arith)
            requires bq < bk, oq < n, n >= 1;
    } else if bq == bk {
    } else {
        assert(bq * (n + 1) >= bk * (n + 1) + n + 1) by (nonlinear_arith)
            requires bq > bk, n >= 1;
    }
}

} // verus!
