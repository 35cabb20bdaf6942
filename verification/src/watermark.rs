use vstd::prelude::*;

verus! {

/// A watermark is emitted every this many observed records.
pub const WATERMARK_PERIOD: u8 = 10;

/// The mathematical image of a [`WatermarkGen`].
pub ghost struct WmV {
    pub current: Option<int>,
    pub since: int,
}

/// Derives monotonic progress markers from the observed record timestamps.
///
/// Every [`WATERMARK_PERIOD`]th observed record emits a fresh watermark: the
/// maximum of the current watermark and the latest seen timestamp, so a
/// watermark never regresses even when timestamps arrive out of order.
/// Between emissions no update occurs and windows stay open.
pub struct WatermarkGen {
    current: Option<i64>,
    since: u8,
}

impl View for WatermarkGen {
    type V = WmV;

    closed spec fn view(&self) -> WmV {
        WmV {
            current: match self.current {
                Some(w) => Some(w as int),
                None => None,
            },
            since: self.since as int,
        }
    }
}

/// `a` is at most `b`, where an absent watermark precedes every watermark.
pub open spec fn wm_le(a: Option<int>, b: Option<int>) -> bool {
    match a {
        None => true,
        Some(x) => match b {
            None => false,
            Some(y) => x <= y,
        },
    }
}

impl WmV {
    pub open spec fn wf(self) -> bool {
        0 <= self.since < WATERMARK_PERIOD
    }

    /// The watermark the generator would emit next, were the period reached:
    /// the candidate (the latest seen timestamp) clipped from below by the
    /// current watermark.
    pub open spec fn candidate(self, ts: int) -> int {
        match self.current {
            Some(w) => if w >= ts { w } else { ts },
            None => ts,
        }
    }

    /// State after observing one timestamp.
    pub open spec fn step(self, ts: int) -> WmV {
        if self.since + 1 == WATERMARK_PERIOD {
            WmV { current: Some(self.candidate(ts)), since: 0 }
        } else {
            WmV { current: self.current, since: self.since + 1 }
        }
    }

    /// Watermark emitted while observing one timestamp, if any.
    pub open spec fn emit(self, ts: int) -> Option<int> {
        if self.since + 1 == WATERMARK_PERIOD {
            Some(self.candidate(ts))
        } else {
            None
        }
    }

    /// State after observing a whole sequence of timestamps.
    pub open spec fn run(self, tss: Seq<int>) -> WmV
        decreases tss.len(),
    {
        if tss.len() == 0 {
            self
        } else {
            self.run(tss.drop_last()).step(tss.last())
        }
    }

    /// All watermarks emitted while observing a sequence of timestamps.
    pub open spec fn run_emissions(self, tss: Seq<int>) -> Seq<int>
        decreases tss.len(),
    {
        if tss.len() == 0 {
            Seq::empty()
        } else {
            let prev = self.run_emissions(tss.drop_last());
            match self.run(tss.drop_last()).emit(tss.last()) {
                Some(w) => prev.push(w),
                None => prev,
            }
        }
    }
}

impl WatermarkGen {
    /// A fresh generator: no watermark yet, no observed record.
    pub fn new() -> (g: WatermarkGen)
        ensures
            g@ == (WmV { current: None, since: 0 }),
    {
        WatermarkGen { current: None, since: 0 }
    }

    /// Observes one record timestamp; every [`WATERMARK_PERIOD`]th
    /// observation emits the updated watermark.
    pub fn observe(&mut self, ts: i64) -> (w: Option<i64>)
        requires
            old(self)@.wf(),
        ensures
            final(self)@.wf(),
            final(self)@ == old(self)@.step(ts as int),
            (match w {
                Some(x) => Some(x as int),
                None => None,
            }) == old(self)@.emit(ts as int),
    {
        let next = self.since + 1;
        if next == WATERMARK_PERIOD {
            let c = match self.current {
                Some(w) => if w >= ts {
                    w
                } else {
                    ts
                },
                None => ts,
            };
            self.current = Some(c);
            self.since = 0;
            Some(c)
        } else {
            self.since = next;
            None
        }
    }
}

/// Synthesizes strictly advancing event timestamps from base timestamps: an
/// explicit counter in place of a closure capturing mutable state. The `n`th
/// observed record, counting from one, gets `base + n`.
pub struct EventStamper {
    pub count: i64,
}

impl EventStamper {
    /// A fresh stamper that has observed no record.
    pub fn new() -> (s: EventStamper)
        ensures
            s.count == 0,
    {
        EventStamper { count: 0 }
    }

    /// The synthesized event timestamp of the next record.
    pub fn next_ts(&mut self, base: i64) -> (ts: i64)
        requires
            0 <= old(self).count < i64::MAX,
            base <= i64::MAX - old(self).count - 1,
        ensures
            final(self).count == old(self).count + 1,
            ts == base + old(self).count + 1,
    {
        self.count = self.count + 1;
        base + self.count
    }
}

/// One observation never lowers the watermark.
pub proof fn lemma_step_monotonic(g: WmV, ts: int)
    ensures
        wm_le(g.current, g.step(ts).current),
{
}

/// Monotonic watermark: over any sequence of observed timestamps the emitted
/// watermarks are non-decreasing, and the current watermark bounds them all
/// from above.
pub proof fn lemma_watermark_monotonic(g: WmV, tss: Seq<int>)
    requires
        g.wf(),
    ensures
        g.run(tss).wf(),
        wm_le(g.current, g.run(tss).current),
        forall|i: int|
            0 <= i < g.run_emissions(tss).len() ==> wm_le(
                Some(#[trigger] g.run_emissions(tss)[i]),
                g.run(tss).current,
            ),
        forall|i: int, j: int|
            0 <= i <= j < g.run_emissions(tss).len() ==> g.run_emissions(tss)[i]
                <= g.run_emissions(tss)[j],
    decreases tss.len(),
{
    if tss.len() > 0 {
        let pre = tss.drop_last();
        let t = tss.last();
        lemma_watermark_monotonic(g, pre);
        lemma_step_monotonic(g.run(pre), t);
        let em = g.run_emissions(tss);
        let em0 = g.run_emissions(pre);
        match g.run(pre).emit(t) {
            Some(w) => {
                assert(em == em0.push(w));
                assert(g.run(tss).current == Some(w));
                assert(forall|i: int|
                    0 <= i < em0.len() ==> wm_le(Some(#[trigger] em0[i]), g.run(pre).current));
            },
            None => {
                assert(em == em0);
            },
        }
    }
}

} // verus!
