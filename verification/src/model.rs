//! Sizing of the vocoder pool and the rotation that hands its workers out.
use vstd::prelude::*;

verus! {

/// Number of vocoder workers to create: the configured maximum, capped by
/// the number of processor cores, and at least one.
pub fn pool_size(max_workers: usize, cpu_cores: usize) -> (r: usize)
    ensures
        r == if max_workers <= cpu_cores {
            if max_workers >= 1 { max_workers } else { 1 }
        } else {
            if cpu_cores >= 1 { cpu_cores } else { 1 }
        },
{
    let m: usize = if max_workers <= cpu_cores { max_workers } else { cpu_cores };
    if m >= 1 { m } else { 1 }
}

/// Slot of a pool of `len` workers that serves ticket `ticket`.
pub open spec fn vocoder_slot(len: nat, ticket: nat) -> nat {
    ticket % len
}

/// The worker that serves ticket `ticket`: tickets are handed out in order
/// by a shared counter, and the pool is walked round-robin.
pub fn get_vocoder<T>(pool: &Vec<T>, ticket: usize) -> (r: &T)
    requires
        pool@.len() > 0,
    ensures
        *r == pool@[vocoder_slot(pool@.len(), ticket as nat) as int],
{
    &pool[ticket % pool.len()]
}

/// Round-robin: any `len` consecutive tickets are served by `len` different
/// workers, and the next ticket returns to the first of them.
pub proof fn lemma_round_robin(len: nat, t: nat)
    requires
        len > 0,
    ensures
        vocoder_slot(len, t + len) == vocoder_slot(len, t),
        forall|a: nat, b: nat| t <= a < b < t + len ==> #[trigger] vocoder_slot(len, a) != #[trigger] vocoder_slot(len, b),
{
    vstd::arithmetic::div_mod::lemma_mod_add_multiples_vanish(t as int, len as int);
    assert forall|a: nat, b: nat| t <= a < b < t + len implies #[trigger] vocoder_slot(len, a) != #[trigger] vocoder_slot(len, b) by {
        vstd::arithmetic::div_mod::lemma_fundamental_div_mod(a as int, len as int);
        vstd::arithmetic::div_mod::lemma_fundamental_div_mod(b as int, len as int);
        if a % len == b % len {
            assert((b - a) == len * (b / len - a / len)) by (nonlinear_arith)
                requires
                    a == len * (a / len) + a % len,
                    b == len * (b / len) + b % len,
                    a % len == b % len;
            assert(0 < b - a < len);
            if b / len - a / len >= 1 {
                assert(len * (b / len - a / len) >= len) by (nonlinear_arith)
                    requires
                        b / len - a / len >= 1,
                        len > 0;
            } else {
                assert(len * (b / len - a / len) <= 0) by (nonlinear_arith)
                    requires
                        b / len - a / len <= 0,
                        len > 0;
            }
        }
    }
}

} // verus!
