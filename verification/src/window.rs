use vstd::prelude::*;
use vstd::arithmetic::div_mod::lemma_fundamental_div_mod;
use vstd::arithmetic::div_mod::lemma_fundamental_div_mod_converse;

verus! {

/// A sliding window policy is well formed when both the instance length and
/// the slide interval are positive. `slide == length` degenerates to
/// non-overlapping tumbling windows; `slide > length` leaves gaps, and a
/// timestamp falling in a gap is assigned to no instance at all.
pub open spec fn policy_wf(length: int, slide: int) -> bool {
    0 < length && 0 < slide
}

/// Window instances start at the non-negative multiples of the slide
/// interval.
pub open spec fn is_instance_start(s: int, slide: int) -> bool {
    0 <= s && s % slide == 0
}

/// A timestamp lies in the instance `[s, s + length)`.
pub open spec fn in_instance(ts: int, s: int, length: int) -> bool {
    s <= ts < s + length
}

/// The record at timestamp `ts` belongs to the window instance starting at
/// `s`.
pub open spec fn assigned(ts: int, s: int, length: int, slide: int) -> bool {
    is_instance_start(s, slide) && in_instance(ts, s, length)
}

/// An assigned start is never negative and never past the timestamp itself.
pub proof fn lemma_assigned_bounds(ts: int, s: int, length: int, slide: int)
    requires
        assigned(ts, s, length, slide),
    ensures
        0 <= s <= ts,
{
}

/// Window coverage: away from the start of the stream, a timestamp is covered
/// by exactly `ceil(length / slide)` window instances.
///
/// The count `t / slide - (t - length) / slide` is exactly the length clause
/// of [`assign`] for `t >= length`. When `slide` does not divide `length` the
/// count oscillates with `t` between the floor and the ceiling of
/// `length / slide`; it equals the ceiling precisely on the timestamps with
/// `t % slide < length % slide`, so those are the ones covered here.
pub proof fn lemma_window_coverage(t: int, length: int, slide: int)
    requires
        0 < slide <= length,
        t >= length,
        length % slide == 0 || t % slide < length % slide,
    ensures
        t / slide - (t - length) / slide == (length + slide - 1) / slide,
{
    let b = length / slide;
    let c = length % slide;
    let a = t / slide;
    let r = t % slide;
    lemma_fundamental_div_mod(length, slide);
    lemma_fundamental_div_mod(t, slide);
    if c == 0 {
        // t - length == (a - b) * slide + r
        assert((a - b) * slide == a * slide - b * slide) by (nonlinear_arith);
        lemma_fundamental_div_mod_converse(t - length, slide, a - b, r);
        // length + slide - 1 == b * slide + (slide - 1)
        lemma_fundamental_div_mod_converse(length + slide - 1, slide, b, slide - 1);
    } else {
        // t - length == (a - b - 1) * slide + (slide + r - c)
        assert((a - b - 1) * slide == a * slide - b * slide - slide) by (nonlinear_arith);
        lemma_fundamental_div_mod_converse(t - length, slide, a - b - 1, slide + r - c);
        // length + slide - 1 == (b + 1) * slide + (c - 1)
        assert((b + 1) * slide == b * slide + slide) by (nonlinear_arith);
        lemma_fundamental_div_mod_converse(length + slide - 1, slide, b + 1, c - 1);
    }
}

/// The start of the earliest window instance whose interval still reaches
/// `tsu`: the least non-negative multiple of `slide` strictly greater than
/// `tsu - length`.
fn first_start(tsu: u64, length: u64, slide: u64) -> (lo: u64)
    requires
        policy_wf(length as int, slide as int),
        tsu <= i64::MAX,
    ensures
        lo as int % slide as int == 0,
        lo + length > tsu,
        forall|x: int| 0 <= x < lo && #[trigger] (x % slide as int) == 0 ==> x + length <= tsu,
        tsu < length ==> lo == 0,
        tsu >= length ==> lo as int == ((tsu - length) as int / slide as int + 1) * slide,
        lo as int <= tsu + slide,
{
    if tsu < length {
        proof {
            assert(0int % slide as int == 0) by (nonlinear_arith)
                requires
                    slide as int > 0,
            ;
        }
        0
    } else {
        let q: u64 = (tsu - length) / slide;
        proof {
            let d = (tsu - length) as int;
            let sl = slide as int;
            assert(q * sl <= d < q * sl + sl) by (nonlinear_arith)
                requires
                    sl > 0,
                    d >= 0,
                    q == d / sl,
            ;
            assert((q + 1) * sl == q * sl + sl) by (nonlinear_arith);
            assert(((q + 1) * sl) % sl == 0) by (nonlinear_arith)
                requires
                    sl > 0,
            ;
            // every smaller multiple of slide lies at or below q * slide,
            // whose instance ends at or before tsu.
            assert forall|x: int|
                0 <= x < (q + 1) * sl && #[trigger] (x % sl) == 0 implies x + length <= tsu by {
                let m = x / sl;
                assert(x == m * sl) by (nonlinear_arith)
                    requires
                        sl > 0,
                        x >= 0,
                        x % sl == 0,
                        m == x / sl,
                ;
                assert(m * sl < (q + 1) * sl ==> m < q + 1) by (nonlinear_arith)
                    requires
                        sl > 0,
                ;
                assert(m <= q ==> m * sl <= q * sl) by (nonlinear_arith)
                    requires
                        sl > 0,
                ;
            }
            // the first start fits in a machine word: it is at most one
            // slide past tsu - length.
            if q >= 1 {
                assert(sl <= d) by (nonlinear_arith)
                    requires
                        sl > 0,
                        d >= 0,
                        q == d / sl,
                        q >= 1,
                ;
            } else {
                assert((q + 1) * sl == sl) by (nonlinear_arith)
                    requires
                        q == 0,
                ;
            }
            assert((q + 1) * sl <= d + sl);
            assert((q + 1) * sl <= u64::MAX as int);
        }
        (q + 1) * slide
    }
}

/// Computes, in ascending order, the starts of every window instance the
/// timestamp `ts` belongs to under the sliding policy `(length, slide)`.
///
/// A negative timestamp precedes every instance and is assigned to none. The
/// length clauses pin how many instances cover a timestamp; in particular a
/// timestamp at or past `length` with `length % slide == 0` is covered by
/// exactly `length / slide` instances.
pub fn assign(ts: i64, length: u64, slide: u64) -> (res: Vec<i64>)
    requires
        policy_wf(length as int, slide as int),
    ensures
        forall|j: int, l: int| 0 <= j < l < res@.len() ==> res@[j] < res@[l],
        forall|j: int|
            0 <= j < res@.len() ==> assigned(ts as int, res@[j] as int, length as int, slide as int),
        forall|s: int|
            assigned(ts as int, s, length as int, slide as int) ==> exists|j: int|
                0 <= j < res@.len() && res@[j] as int == s,
        ts < 0 ==> res@.len() == 0,
        0 <= ts < length ==> res@.len() == ts as int / slide as int + 1,
        ts >= length ==> res@.len() == ts as int / slide as int - (ts - length) as int / slide
            as int,
{
    let mut out: Vec<i64> = Vec::new();
    if ts < 0 {
        return out;
    }
    let tsu: u64 = ts as u64;
    let lo: u64 = first_start(tsu, length, slide);
    proof {
        assert forall|x: int|
            assigned(ts as int, x, length as int, slide as int) implies lo <= x <= tsu by {}
    }
    let mut s: u64 = lo;
    proof {
        let n0 = out@.len() as int;
        assert(n0 * slide == 0) by (nonlinear_arith)
            requires
                n0 == 0,
        ;
    }
    while s <= tsu
        invariant
            policy_wf(length as int, slide as int),
            0 <= ts,
            tsu == ts as u64,
            lo as int % slide as int == 0,
            lo + length > tsu,
            lo <= s,
            s <= tsu ==> s as int % slide as int == 0,
            s <= tsu ==> s as int == lo + out@.len() * slide,
            s > tsu ==> lo + out@.len() * slide > tsu,
            lo > tsu ==> out@.len() == 0,
            s <= tsu + slide,
            forall|j: int| 0 <= j < out@.len() ==> out@[j] as int == lo + j * slide,
            forall|j: int|
                0 <= j < out@.len() ==> assigned(
                    ts as int,
                    out@[j] as int,
                    length as int,
                    slide as int,
                ),
            forall|j: int| 0 <= j < out@.len() ==> out@[j] < s,
            forall|x: int|
                assigned(ts as int, x, length as int, slide as int) && x < s ==> exists|j: int|
                    0 <= j < out@.len() && out@[j] as int == x,
            forall|x: int|
                assigned(ts as int, x, length as int, slide as int) ==> lo <= x <= tsu,
        decreases tsu + slide - s,
    {
        let ghost old_len = out@.len();
        let ghost old_out = out@;
        let ghost s0 = s as int;
        out.push(s as i64);
        proof {
            assert(out@[old_len as int] as int == lo + old_len * slide);
            // no multiple of slide lies strictly between s and s + slide.
            assert forall|x: int|
                assigned(ts as int, x, length as int, slide as int) && x < s + slide implies x
                <= s by {
                if s < x {
                    let sl = slide as int;
                    let m = x / sl;
                    let k = s as int / sl;
                    assert(x == m * sl) by (nonlinear_arith)
                        requires
                            sl > 0,
                            x >= 0,
                            x % sl == 0,
                            m == x / sl,
                    ;
                    assert(s as int == k * sl) by (nonlinear_arith)
                        requires
                            sl > 0,
                            s as int >= 0,
                            s as int % sl == 0,
                            k == s as int / sl,
                    ;
                    assert(m * sl > k * sl ==> m > k) by (nonlinear_arith)
                        requires
                            sl > 0,
                    ;
                    assert(m >= k + 1 ==> m * sl >= (k + 1) * sl) by (nonlinear_arith)
                        requires
                            sl > 0,
                    ;
                    assert((k + 1) * sl == k * sl + sl) by (nonlinear_arith);
                }
            }
            assert((s + slide) as int % slide as int == 0) by (nonlinear_arith)
                requires
                    slide as int > 0,
                    s as int % slide as int == 0,
            ;
            assert((out@.len()) * slide == old_len * slide + slide) by (nonlinear_arith)
                requires
                    out@.len() == old_len + 1,
            ;
        }
        if tsu - s >= slide {
            s = s + slide;
        } else {
            proof {
                assert(tsu < s + slide);
            }
            s = tsu + 1;
        }
        proof {
            assert(s as int <= s0 + slide);
            assert forall|x: int|
                assigned(ts as int, x, length as int, slide as int) && x < s implies exists|j: int|
                0 <= j < out@.len() && out@[j] as int == x by {
                assert(x <= s0);
                if x < s0 {
                    let j = choose|j: int| 0 <= j < old_out.len() && old_out[j] as int == x;
                    assert(out@[j] as int == x);
                } else {
                    assert(out@[old_len as int] as int == x);
                }
            }
        }
    }
    proof {
        let sl = slide as int;
        let n = out@.len() as int;
        assert forall|j: int, l: int| 0 <= j < l < n implies out@[j] < out@[l] by {
            assert(j * sl < l * sl) by (nonlinear_arith)
                requires
                    sl > 0,
                    j < l,
            ;
        }
        if lo > tsu {
            assert(n == 0);
            if 0 <= ts < length {
                assert(false);
            }
            if ts >= length {
                let q = (tsu - length) as int / sl;
                assert(lo as int == (q + 1) * sl);
                assert(q * sl <= (ts - length) as int) by (nonlinear_arith)
                    requires
                        sl > 0,
                        (ts - length) as int >= 0,
                        q == (ts - length) as int / sl,
                ;
                // an instance start covering ts would contradict lo > tsu
                assert(ts as int / sl - q == 0) by (nonlinear_arith)
                    requires
                        sl > 0,
                        ts as int >= 0,
                        q == (ts - length) as int / sl,
                        (q + 1) * sl > ts as int,
                        q * sl <= (ts - length) as int,
                ;
            }
        } else {
            // n is pinned by lo + (n - 1) * slide <= tsu < lo + n * slide.
            assert(n >= 1);
            assert(lo + (n - 1) * sl <= tsu) by {
                assert(out@[n - 1] as int == lo + (n - 1) * sl);
                assert(assigned(ts as int, out@[n - 1] as int, length as int, slide as int));
            }
            assert(lo + n * sl > tsu);
            if 0 <= ts < length {
                assert(lo == 0);
                assert(n == ts as int / sl + 1) by (nonlinear_arith)
                    requires
                        sl > 0,
                        ts as int >= 0,
                        (n - 1) * sl <= ts as int,
                        n * sl > ts as int,
                ;
            }
            if ts >= length {
                let q = (ts - length) as int / sl;
                assert(lo as int == (q + 1) * sl);
                assert(n == ts as int / sl - q) by (nonlinear_arith)
                    requires
                        sl > 0,
                        ts as int >= 0,
                        lo as int == (q + 1) * sl,
                        lo as int + (n - 1) * sl <= ts as int,
                        lo as int + n * sl > ts as int,
                ;
            }
        }
    }
    out
}

} // verus!
