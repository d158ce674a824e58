//! Laws of the transform: order inversion, round trip, and their corollaries.
use vstd::prelude::*;
use crate::arith::block_count;
use crate::arith::data_pos;
use crate::arith::encoded_len;
use crate::arith::padding_len;
use crate::arith::lemma_block_count;
use crate::arith::lemma_block_count_monotone;
use crate::arith::lemma_before_data;
use crate::arith::lemma_data_pos;
use crate::arith::lemma_position;
use crate::codec::Error;
use crate::codec::ending;
use crate::codec::first_invalid;
use crate::codec::invalid_at;
use crate::codec::mapped;
use crate::codec::mapped_byte;
use crate::codec::unmapped;
use crate::codec::unmapped_len;

verus! {

/// Complementing a byte twice gives the byte back.
pub proof fn lemma_complement_involutive(b: u8)
    ensures
        !(!b) == b,
{
    assert(!(!b) == b) by (bit_vector);
}

/// Complementing reverses the order of bytes.
pub proof fn lemma_complement_reverses(a: u8, b: u8)
    requires
        a < b,
    ensures
        !b < !a,
{
    assert(a < b ==> !b < !a) by (bit_vector);
}

/// Unmapping the framed form of any byte string under the same group size
/// gives that byte string back.
pub proof fn lemma_round_trip(x: Seq<u8>, n: int)
    requires
        1 <= n <= 254,
    ensures
        unmapped(mapped(x, n), n) == Ok::<Seq<u8>, Error>(x),
{
    let y = mapped(x, n);
    let len = x.len() as int;
    let nb = block_count(len, n);
    let total = encoded_len(len, n);
    lemma_block_count(len, n);
    assert(total >= n + 1) by (nonlinear_arith)
        requires total == nb * (n + 1), nb >= 1, n >= 1;
    vstd::arithmetic::div_mod::lemma_fundamental_div_mod_converse(total, n + 1, nb, 0);
    assert(y.len() == total);
    assert(y.len() as int % (n + 1) == 0);
    lemma_position(len, n, total - 1);
    assert(ending(y) == (padding_len(len, n) + 1) as u8);
    assert(ending(y) - 1 == padding_len(len, n));
    assert(unmapped_len(y, n) == len);
    assert forall|p: int| 0 <= p < y.len() implies !invalid_at(y, n, p) by {
        lemma_position(len, n, p);
    }
    assert(!exists|p: int| first_invalid(y, n, p));
    let z = Seq::new(unmapped_len(y, n) as nat, |i: int| !y[data_pos(i, n)]);
    assert forall|i: int| 0 <= i < len implies z[i] == x[i] by {
        lemma_data_pos(len, n, i);
        assert(y[data_pos(i, n)] == mapped_byte(x, n, data_pos(i, n)));
        lemma_complement_involutive(x[i]);
    }
    assert(z =~= x);
}

/// `a` and `b` agree before index `k`, where `a` is smaller or has ended
/// while `b` goes on.
pub open spec fn lex_lt_at(a: Seq<u8>, b: Seq<u8>, k: int) -> bool {
    &&& 0 <= k <= a.len()
    &&& k <= b.len()
    &&& forall|j: int| 0 <= j < k ==> a[j] == b[j]
    &&& ((k < a.len() && k < b.len() && a[k] < b[k]) || (k == a.len() && k < b.len()))
}

/// `a` comes strictly before `b` in lexicographic order.
pub open spec fn lex_lt(a: Seq<u8>, b: Seq<u8>) -> bool {
    exists|k: int| lex_lt_at(a, b, k)
}

/// A sequence that is nowhere above another before index `e`, agrees with
/// it before `j`, and is below it at `e`, comes before it.
proof fn lemma_lex_by_pointwise(t: Seq<u8>, s: Seq<u8>, e: int, j: int)
    requires
        0 <= j <= e,
        e < t.len(),
        e < s.len(),
        forall|q: int| 0 <= q < j ==> t[q] == s[q],
        forall|q: int| j <= q < e ==> t[q] <= s[q],
        t[e] < s[e],
    ensures
        lex_lt(t, s),
    decreases e - j,
{
    if t[j] < s[j] {
        assert(lex_lt_at(t, s, j));
    } else {
        lemma_lex_by_pointwise(t, s, e, j + 1);
    }
}

/// Mapping reverses lexicographic order, for every group size: if `a`
/// comes before `b`, then the framed form of `b` comes before that of `a`.
/// This includes the case where `a` is a proper prefix of `b`.
pub proof fn lemma_order_inversion(a: Seq<u8>, b: Seq<u8>, n: int)
    requires
        1 <= n <= 254,
        lex_lt(a, b),
    ensures
        lex_lt(mapped(b, n), mapped(a, n)),
{
    let k = choose|k: int| lex_lt_at(a, b, k);
    let ea = mapped(a, n);
    let eb = mapped(b, n);
    let la = a.len() as int;
    let lb = b.len() as int;
    if k < la && k < lb && a[k] < b[k] {
        let e = data_pos(k, n);
        lemma_data_pos(la, n, k);
        lemma_data_pos(lb, n, k);
        assert(ea[e] == !a[k]);
        assert(eb[e] == !b[k]);
        lemma_complement_reverses(a[k], b[k]);
        assert forall|q: int| 0 <= q < e implies eb[q] == ea[q] by {
            lemma_position(la, n, q);
            lemma_position(lb, n, q);
            if q % (n + 1) < n {
                lemma_before_data(n, k, q);
            }
        }
        assert(lex_lt_at(eb, ea, e));
    } else {
        assert(k == la && la < lb);
        let nba = block_count(la, n);
        let nbb = block_count(lb, n);
        let e = encoded_len(la, n) - 1;
        lemma_block_count(la, n);
        lemma_block_count(lb, n);
        lemma_block_count_monotone(la, lb, n);
        assert(encoded_len(la, n) <= encoded_len(lb, n)) by (nonlinear_arith)
            requires nba <= nbb, n >= 1, encoded_len(la, n) == nba * (n + 1),
                encoded_len(lb, n) == nbb * (n + 1);
        assert(encoded_len(la, n) >= 1) by (nonlinear_arith)
            requires nba >= 1, n >= 1, encoded_len(la, n) == nba * (n + 1);
        assert forall|q: int| 0 <= q < e implies eb[q] <= ea[q] by {
            lemma_position(la, n, q);
            lemma_position(lb, n, q);
        }
        lemma_position(la, n, e);
        lemma_position(lb, n, e);
        if e + 1 == encoded_len(lb, n) {
            assert(nba == nbb);
            assert(padding_len(lb, n) < padding_len(la, n));
        }
        assert(eb[e] < ea[e]);
        lemma_lex_by_pointwise(eb, ea, e, 0);
    }
}

/// `k` copies of the byte `v`.
pub open spec fn run(v: u8, k: nat) -> Seq<u8> {
    Seq::new(k, |i: int| v)
}

/// Among runs of one byte, a longer run maps before a shorter one; and runs
/// of a greater byte map before runs of a smaller byte of the same length
/// (when not empty) or one byte shorter.
pub proof fn lemma_run_order(v: u8, w: u8, k: nat, n: int)
    requires
        1 <= n <= 254,
    ensures
        lex_lt(mapped(run(v, k + 1), n), mapped(run(v, k), n)),
        v < w && k > 0 ==> lex_lt(mapped(run(w, k), n), mapped(run(v, k), n)),
        v < w ==> lex_lt(mapped(run(w, k + 1), n), mapped(run(v, k), n)),
{
    assert(lex_lt_at(run(v, k), run(v, k + 1), k as int));
    lemma_order_inversion(run(v, k), run(v, k + 1), n);
    if v < w {
        if k > 0 {
            assert(lex_lt_at(run(v, k), run(w, k), 0));
            lemma_order_inversion(run(v, k), run(w, k), n);
        }
        assert(lex_lt_at(run(v, k), run(w, k + 1), 0));
        lemma_order_inversion(run(v, k), run(w, k + 1), n);
    }
}

/// With the default group size, every run of up to 254 copies of one byte
/// comes back unchanged from a map and an unmap.
pub proof fn lemma_runs_round_trip(v: u8, i: nat)
    requires
        i < 255,
    ensures
        unmapped(mapped(run(v, i), 8), 8) == Ok::<Seq<u8>, Error>(run(v, i)),
{
    lemma_round_trip(run(v, i), 8);
}

} // verus!
