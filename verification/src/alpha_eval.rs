//! Grid operators that move values without computing on them.
use vstd::prelude::*;
use crate::frame::NAN_BITS;

verus! {

/// Each symbol's values shifted `days` times later along the time axis; the
/// first `days` times of every symbol become NaN. Values are IEEE-754 bits.
pub fn delay(values: &Vec<u64>, days: usize, n_symbols: usize, n_times: usize) -> (r: Vec<u64>)
    requires
        values.len() == n_symbols * n_times,
    ensures
        r.len() == values.len(),
        forall|s: int, t: int|
            0 <= s < n_symbols && 0 <= t < n_times ==> #[trigger] r@[s * n_times + t] == if t >= days {
                values@[s * n_times + t - days]
            } else {
                NAN_BITS
            },
{
    let mut out: Vec<u64> = Vec::new();
    let mut s: usize = 0;
    while s < n_symbols
        invariant
            values.len() == n_symbols * n_times,
            s <= n_symbols,
            out.len() == s * n_times,
            forall|a: int, u: int|
                0 <= a < s && 0 <= u < n_times ==> #[trigger] out@[a * n_times + u] == if u >= days {
                    values@[a * n_times + u - days]
                } else {
                    NAN_BITS
                },
        decreases n_symbols - s,
    {
        let mut t: usize = 0;
        while t < n_times
            invariant
                values.len() == n_symbols * n_times,
                s < n_symbols,
                t <= n_times,
                out.len() == s * n_times + t,
                forall|a: int, u: int|
                    0 <= a < s && 0 <= u < n_times ==> #[trigger] out@[a * n_times + u] == if u >= days {
                        values@[a * n_times + u - days]
                    } else {
                        NAN_BITS
                    },
                forall|u: int|
                    0 <= u < t ==> #[trigger] out@[s * n_times + u] == if u >= days {
                        values@[s * n_times + u - days]
                    } else {
                        NAN_BITS
                    },
            decreases n_times - t,
        {
            proof {
                crate::grid::lemma_slot_bounds(s as int, t as int, n_symbols as int, n_times as int);
            }
            let v = if t >= days {
                values[s * n_times + t - days]
            } else {
                NAN_BITS
            };
            let ghost before = out@;
            out.push(v);
            proof {
                assert forall|a: int, u: int| 0 <= a < s && 0 <= u < n_times implies #[trigger] out@[a
                    * n_times + u] == before[a * n_times + u] by {
                    crate::grid::lemma_slot_bounds(a, u, s as int, n_times as int);
                }
                assert forall|u: int| 0 <= u < t implies #[trigger] out@[s * n_times + u] == before[s
                    * n_times + u] by {}
            }
            t = t + 1;
        }
        proof {
            assert((s + 1) * n_times == s * n_times + n_times) by (nonlinear_arith);
        }
        s = s + 1;
    }
    out
}

} // verus!
