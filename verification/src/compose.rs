use vstd::prelude::*;
use crate::agg::AggValue;
use crate::agg::AggValueV;
use crate::engine::Emission;

verus! {

/// An emission passes the threshold filter: its value is a count strictly
/// above `thr`.
pub open spec fn keeps(thr: u64, e: Emission) -> bool {
    e@.value matches AggValueV::Count(c) && c > thr
}

/// The emissions that pass the threshold filter, order kept.
pub open spec fn filtered(results: Seq<Emission>, thr: u64) -> Seq<Emission> {
    results.filter(|e: Emission| keeps(thr, e))
}

/// The cross-key post-window pass: keeps exactly the count emissions
/// strictly above the threshold, in their original order, so a second-level
/// windowing pass can consume them as its own record stream.
pub fn over_threshold(results: Vec<Emission>, thr: u64) -> (out: Vec<Emission>)
    ensures
        out@ == filtered(results@, thr),
        forall|j: int| 0 <= j < out@.len() ==> keeps(thr, #[trigger] out@[j]),
{
    let ghost orig = results@;
    let mut rest = results;
    let mut out: Vec<Emission> = Vec::new();
    let n = rest.len();
    proof {
        assert(orig.take(0) =~= Seq::<Emission>::empty());
        assert(out@ =~= filtered(orig.take(0), thr));
        assert(rest@ == orig.subrange(0, n as int));
        assert(orig.subrange(0, n as int) =~= orig);
    }
    let mut i: usize = 0;
    while i < n
        invariant
            n == orig.len(),
            0 <= i <= n,
            rest@ == orig.subrange(i as int, n as int),
            out@ == filtered(orig.take(i as int), thr),
            forall|j: int| 0 <= j < out@.len() ==> keeps(thr, #[trigger] out@[j]),
        decreases n - i,
    {
        let ghost gi = i as int;
        proof {
            assert(rest@[0] == orig[gi]);
        }
        let e = rest.remove(0);
        proof {
            assert(rest@ =~= orig.subrange(gi + 1, n as int));
        }
        let keep = match &e.value {
            AggValue::Count(c) => *c > thr,
            _ => false,
        };
        proof {
            assert(keep == keeps(thr, orig[gi]));
            assert(orig.take(gi + 1).drop_last() =~= orig.take(gi));
            assert(orig.take(gi + 1).last() == orig[gi]);
            reveal_with_fuel(Seq::filter, 2);
        }
        if keep {
            out.push(e);
        }
        proof {
            assert(out@ =~= filtered(orig.take(gi + 1), thr));
        }
        i = i + 1;
    }
    proof {
        assert(orig.take(n as int) =~= orig);
    }
    out
}

} // verus!
