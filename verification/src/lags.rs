//! Lag bookkeeping for cross-correlation time-delay search: mapping signed
//! lags onto a circular correlation buffer and choosing which lags to search.

use vstd::prelude::*;
use vstd::arithmetic::div_mod::{lemma_fundamental_div_mod, lemma_fundamental_div_mod_converse};

verus! {

/// Map a possibly negative lag onto an index of a length-`n` circular buffer,
/// wrapping modulo `n` (negative lags land in the upper half).
pub fn wrap_index(lag: isize, n: usize) -> (r: usize)
    requires
        0 < n <= isize::MAX,
    ensures
        r < n,
        r as int == (lag as int) % (n as int),
{
    if lag >= 0 {
        (lag as usize) % n
    } else {
        let mag: usize = (-(lag + 1)) as usize + 1;
        let rem = mag % n;
        proof {
            let x = -(lag as int);
            let q = x / (n as int);
            assert(mag as int == x);
            lemma_fundamental_div_mod(x, n as int);
            if rem == 0 {
                assert(lag as int == (-q) * (n as int) + 0) by (nonlinear_arith)
                    requires
                        x == (n as int) * q + rem,
                        rem == 0,
                        lag as int == -x,
                ;
                lemma_fundamental_div_mod_converse(lag as int, n as int, -q, 0);
            } else {
                assert(lag as int == (-q - 1) * (n as int) + (n - rem)) by (nonlinear_arith)
                    requires
                        x == (n as int) * q + rem,
                        lag as int == -x,
                ;
                lemma_fundamental_div_mod_converse(lag as int, n as int, -q - 1, n - rem);
            }
        }
        if rem == 0 {
            0
        } else {
            n - rem
        }
    }
}

/// Law: wrapping is periodic — lags that differ by the buffer length map to
/// the same index — and the lags `0..n` map to themselves.
pub proof fn lemma_wrap_periodic(lag: int, n: int)
    requires
        n > 0,
    ensures
        (lag + n) % n == lag % n,
        0 <= lag < n ==> lag % n == lag,
        0 < -lag <= n ==> lag % n == n + lag,
{
    assert((lag + n) % n == lag % n) by (nonlinear_arith)
        requires
            n > 0,
    ;
    assert(0 < -lag <= n ==> lag % n == n + lag) by (nonlinear_arith)
        requires
            n > 0,
    ;
    assert(0 <= lag < n ==> lag % n == lag) by (nonlinear_arith)
        requires
            n > 0,
    ;
}

/// The lag search radius: the configured bound (or half the buffer when none
/// is set), never more than half the buffer.
pub fn effective_max_lag(configured: Option<usize>, n: usize) -> (r: usize)
    ensures
        r == (match configured {
            Some(m) => if m < n / 2 { m } else { n / 2 },
            None => n / 2,
        }),
{
    let half = n / 2;
    match configured {
        Some(m) => if m < half { m } else { half },
        None => half,
    }
}

/// The lags searched for the correlation peak, in order: 0, then `+1, -1,
/// +2, -2, ..., +max_lag, -max_lag`. The first strictly larger correlation
/// wins, so on ties the smaller magnitude, then the positive lag, is kept.
pub open spec fn search_lags_spec(max_lag: nat) -> Seq<isize> {
    Seq::new(
        2 * max_lag + 1,
        |k: int| if k == 0 { 0isize } else if k % 2 == 1 { ((k + 1) / 2) as isize } else { -(k / 2) as isize },
    )
}

/// The lags searched for the correlation peak, in search order.
pub fn search_lags(max_lag: usize) -> (r: Vec<isize>)
    requires
        max_lag <= isize::MAX / 2,
    ensures
        r@ == search_lags_spec(max_lag as nat),
{
    let mut out: Vec<isize> = Vec::new();
    out.push(0);
    let mut lag: usize = 1;
    while lag <= max_lag
        invariant
            1 <= lag <= max_lag + 1,
            max_lag <= isize::MAX / 2,
            out@ =~= search_lags_spec(max_lag as nat).take(2 * lag - 1),
        decreases max_lag + 1 - lag,
    {
        out.push(lag as isize);
        out.push(-(lag as isize));
        lag = lag + 1;
    }
    assert(out@ =~= search_lags_spec(max_lag as nat));
    out
}

} // verus!
