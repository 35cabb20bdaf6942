use vstd::prelude::*;
use crate::record::Record;
use crate::record::RecordV;

verus! {

/// The reduction a pipeline applies inside each window instance.
#[derive(Clone, Copy, Debug)]
pub enum Kind {
    /// Number of contributing records.
    Count,
    /// Running sum and count of the extracted measurement; the mean is
    /// `sum / count`, and `count` is never zero because window instances are
    /// created only on their first contributing record.
    Average,
    /// The record with the greatest extracted measurement, first-seen on
    /// ties.
    MaxByValue,
}

/// Per-(key, window instance) accumulator state, owned by the aggregator
/// entry for that pair.
pub enum Acc {
    Count(u64),
    Avg { sum: i128, count: u64 },
    Max { best: Record },
}

/// A finalized aggregate, handed to the sink when the window closes.
pub enum AggValue {
    Count(u64),
    Avg { sum: i128, count: u64 },
    Best(Record),
}

/// The mathematical image of an [`AggValue`].
pub ghost enum AggValueV {
    Count(int),
    Avg { sum: int, count: int },
    Best(RecordV),
}

impl View for AggValue {
    type V = AggValueV;

    open spec fn view(&self) -> AggValueV {
        match self {
            AggValue::Count(n) => AggValueV::Count(*n as int),
            AggValue::Avg { sum, count } => AggValueV::Avg {
                sum: *sum as int,
                count: *count as int,
            },
            AggValue::Best(r) => AggValueV::Best(r@),
        }
    }
}

/// Sum of the extracted measurements of a record sequence.
pub open spec fn sum_model(s: Seq<RecordV>) -> int
    decreases s.len(),
{
    if s.len() == 0 {
        0
    } else {
        sum_model(s.drop_last()) + s.last().extracted()
    }
}

/// The record of a non-empty sequence with the greatest extracted
/// measurement; on ties the earliest-seen record wins.
pub open spec fn max_model(s: Seq<RecordV>) -> RecordV
    recommends
        s.len() > 0,
    decreases s.len(),
{
    if s.len() <= 1 {
        s[0]
    } else {
        let b = max_model(s.drop_last());
        if s.last().extracted() > b.extracted() {
            s.last()
        } else {
            b
        }
    }
}

/// The value a window over the records `s` finally emits under the reduction
/// `kind`.
pub open spec fn finalize_model(kind: Kind, s: Seq<RecordV>) -> AggValueV {
    match kind {
        Kind::Count => AggValueV::Count(s.len() as int),
        Kind::Average => AggValueV::Avg { sum: sum_model(s), count: s.len() as int },
        Kind::MaxByValue => AggValueV::Best(max_model(s)),
    }
}

/// The accumulator `a` is exactly the fold of the records `s` under the
/// reduction `kind`.
pub open spec fn acc_matches(kind: Kind, a: Acc, s: Seq<RecordV>) -> bool {
    match kind {
        Kind::Count => a matches Acc::Count(n) && n as int == s.len(),
        Kind::Average => a matches Acc::Avg { sum, count } && sum as int == sum_model(s)
            && count as int == s.len(),
        Kind::MaxByValue => a matches Acc::Max { best } && s.len() > 0 && best@ == max_model(s),
    }
}

/// Appending a record adds its extracted measurement to the sum.
pub proof fn lemma_sum_push(s: Seq<RecordV>, r: RecordV)
    ensures
        sum_model(s.push(r)) == sum_model(s) + r.extracted(),
{
    assert(s.push(r).drop_last() =~= s);
    assert(s.push(r).last() == r);
}

/// Appending a record replaces the running best exactly on strict
/// improvement, so the earliest of equals is kept.
pub proof fn lemma_max_push(s: Seq<RecordV>, r: RecordV)
    requires
        s.len() > 0,
    ensures
        max_model(s.push(r)) == (if r.extracted() > max_model(s).extracted() {
            r
        } else {
            max_model(s)
        }),
{
    assert(s.push(r).drop_last() =~= s);
    assert(s.push(r).last() == r);
}

/// The sum of extracted measurements of `n` records lies within `n` times the
/// measurement range.
pub proof fn lemma_sum_model_bounds(s: Seq<RecordV>)
    requires
        forall|i: int| 0 <= i < s.len() ==> #[trigger] s[i].bounded(),
    ensures
        -(s.len() as int) * 0x8000_0000_0000_0000 <= sum_model(s) <= (s.len() as int)
            * 0x8000_0000_0000_0000,
    decreases s.len(),
{
    if s.len() == 0 {
        assert((s.len() as int) * 0x8000_0000_0000_0000 == 0) by (nonlinear_arith)
            requires
                s.len() == 0,
        ;
        assert(-(s.len() as int) * 0x8000_0000_0000_0000 == 0) by (nonlinear_arith)
            requires
                s.len() == 0,
        ;
    } else {
        let p = s.drop_last();
        assert forall|i: int| 0 <= i < p.len() implies #[trigger] p[i].bounded() by {
            assert(p[i] == s[i]);
            assert(s[i].bounded());
        }
        lemma_sum_model_bounds(p);
        assert(s[s.len() - 1].bounded());
        assert(sum_model(s) == sum_model(p) + s.last().extracted());
        assert((s.len() as int) * 0x8000_0000_0000_0000 == (p.len() as int)
            * 0x8000_0000_0000_0000 + 0x8000_0000_0000_0000) by (nonlinear_arith)
            requires
                s.len() == p.len() + 1,
        ;
        assert(-(s.len() as int) * 0x8000_0000_0000_0000 == -(p.len() as int)
            * 0x8000_0000_0000_0000 - 0x8000_0000_0000_0000) by (nonlinear_arith)
            requires
                s.len() == p.len() + 1,
        ;
        assert(s.last() == s[s.len() - 1]);
    }
}

/// The extracted measurement of a record, absent values counting as zero.
pub fn extracted_of(r: &Record) -> (v: i64)
    ensures
        v as int == r@.extracted(),
{
    match r.value {
        Some(v) => v,
        None => 0,
    }
}

/// The accumulator a window starts from at its first contributing record.
pub fn acc_init(kind: Kind, r: &Record) -> (a: Acc)
    ensures
        acc_matches(kind, a, seq![r@]),
{
    proof {
        let s = seq![r@];
        assert(s.len() == 1);
        assert(s.drop_last() =~= Seq::<RecordV>::empty());
        assert(s.last() == r@);
        assert(sum_model(s) == sum_model(s.drop_last()) + r@.extracted());
        assert(sum_model(s.drop_last()) == 0);
        assert(max_model(s) == s[0]);
        assert(s[0] == r@);
    }
    match kind {
        Kind::Count => Acc::Count(1),
        Kind::Average => Acc::Avg { sum: extracted_of(r) as i128, count: 1 },
        Kind::MaxByValue => Acc::Max { best: r.clone() },
    }
}

/// Folds one more record into an accumulator that stands for the records `s`.
pub fn acc_fold(kind: Kind, a: &mut Acc, r: &Record, Ghost(s): Ghost<Seq<RecordV>>)
    requires
        acc_matches(kind, *old(a), s),
        forall|i: int| 0 <= i < s.len() ==> #[trigger] s[i].bounded(),
        s.len() < u64::MAX,
    ensures
        acc_matches(kind, *final(a), s.push(r@)),
{
    proof {
        lemma_sum_push(s, r@);
        if s.len() > 0 {
            lemma_max_push(s, r@);
        }
    }
    match a {
        Acc::Count(n) => {
            *n = *n + 1;
        },
        Acc::Avg { sum, count } => {
            proof {
                lemma_sum_model_bounds(s);
                assert((s.len() as int) * 0x8000_0000_0000_0000 <= 0xFFFF_FFFF_FFFF_FFFE * 0x8000_0000_0000_0000)
                    by (nonlinear_arith)
                    requires
                        s.len() as int <= 0xFFFF_FFFF_FFFF_FFFE,
                ;
            }
            *sum = *sum + extracted_of(r) as i128;
            *count = *count + 1;
        },
        Acc::Max { best } => {
            let cur = extracted_of(best);
            let cand = extracted_of(r);
            if cand > cur {
                *best = r.clone();
            }
        },
    }
}

/// Finalizes an accumulator that stands for the records `s` into the value
/// the window emits.
pub fn acc_finalize(kind: Kind, a: Acc, Ghost(s): Ghost<Seq<RecordV>>) -> (v: AggValue)
    requires
        acc_matches(kind, a, s),
    ensures
        v@ == finalize_model(kind, s),
{
    match a {
        Acc::Count(n) => AggValue::Count(n),
        Acc::Avg { sum, count } => AggValue::Avg { sum, count },
        Acc::Max { best } => AggValue::Best(best),
    }
}

} // verus!
