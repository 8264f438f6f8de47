use vstd::prelude::*;

verus! {

/// The tape index `d` cells away from `ptr` on a tape of `m` cells,
/// wrapping modulo `m` in both directions. This is the one place the
/// pointer arithmetic of every interpreter is computed.
pub fn cell_index(ptr: usize, d: i64, m: usize) -> (r: usize)
    requires
        1 <= m,
        m <= u32::MAX,
        ptr < m,
        i64::MIN < d,
    ensures
        r as int == (ptr + d) % (m as int),
        r < m,
{
    let mu = m as u64;
    if d >= 0 {
        let k: u64 = (d as u64) % mu;
        let r = ((ptr as u64 + k) % mu) as usize;
        proof {
            vstd::arithmetic::div_mod::lemma_mod_bound(d as int, m as int);
            vstd::arithmetic::div_mod::lemma_add_mod_noop_right(ptr as int, d as int, m as int);
            vstd::arithmetic::div_mod::lemma_mod_bound(ptr + d, m as int);
        }
        r
    } else {
        let q: u64 = (-d) as u64;
        let k: u64 = q % mu;
        let r = ((ptr as u64 + mu - k) % mu) as usize;
        proof {
            let mi = m as int;
            vstd::arithmetic::div_mod::lemma_mod_bound(q as int, mi);
            vstd::arithmetic::div_mod::lemma_sub_mod_noop_right(ptr as int, q as int, mi);
            assert((ptr + mi - ((q as int) % mi)) % mi == (ptr - ((q as int) % mi)) % mi) by {
                vstd::arithmetic::div_mod::lemma_mod_add_multiples_vanish(
                    ptr - ((q as int) % mi),
                    mi,
                );
            }
            vstd::arithmetic::div_mod::lemma_mod_bound(ptr + d, mi);
        }
        r
    }
}

} // verus!
