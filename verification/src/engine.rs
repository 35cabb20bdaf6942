use vstd::prelude::*;
use crate::agg::Acc;
use crate::agg::AggValue;
use crate::agg::AggValueV;
use crate::agg::Kind;
use crate::agg::acc_fold;
use crate::agg::acc_finalize;
use crate::agg::acc_init;
use crate::agg::acc_matches;
use crate::agg::finalize_model;
use crate::keyorder::lemma_win_before_connected;
use crate::keyorder::lemma_win_before_trans;
use crate::keyorder::str_lt;
use crate::keyorder::win_before;
use crate::record::Record;
use crate::record::RecordV;
use crate::window::assign;
use crate::window::assigned;
use crate::window::policy_wf;

verus! {

/// The value `x` occurs among the first `m` elements of `starts`.
spec fn in_prefix(starts: Seq<i64>, m: int, x: int) -> bool {
    exists|j: int| 0 <= j < m && #[trigger] starts[j] as int == x
}

/// A record is late when its timestamp is at or before the current
/// watermark; an absent watermark makes nothing late.
pub open spec fn is_late(wm: Option<int>, ts: int) -> bool {
    match wm {
        Some(w) => ts <= w,
        None => false,
    }
}

/// The time bound `e` is still ahead of the watermark: a window ending at
/// `e` is still open.
pub open spec fn wm_before(wm: Option<int>, e: int) -> bool {
    match wm {
        Some(w) => w < e,
        None => true,
    }
}

/// The watermark after advancing to `t`: a watermark never regresses.
pub open spec fn advanced_wm(wm: Option<int>, t: int) -> int {
    match wm {
        Some(w) => if w >= t {
            w
        } else {
            t
        },
        None => t,
    }
}

/// One open window instance: the interval `[start, start + length)` of the
/// key's substream, and the accumulator its records folded into.
pub struct OpenWin {
    pub key: String,
    pub start: i64,
    pub acc: Acc,
}

/// One emitted result: the key, the start of the closed window instance, and
/// its final aggregate.
pub struct Emission {
    pub key: String,
    pub start: i64,
    pub value: AggValue,
}

/// The mathematical image of an [`Emission`].
pub ghost struct EmissionV {
    pub key: Seq<char>,
    pub start: int,
    pub value: AggValueV,
}

impl View for Emission {
    type V = EmissionV;

    open spec fn view(&self) -> EmissionV {
        EmissionV { key: self.key@, start: self.start as int, value: self.value@ }
    }
}

impl Emission {
    /// A copy of the emitted key.
    pub fn key_clone(&self) -> (k: String)
        ensures
            k@ == self@.key,
    {
        self.key.clone()
    }
}

/// The windowed aggregation engine for one pipeline: it routes records into
/// per-(key, window instance) accumulators and emits each instance exactly
/// once, when the watermark (or the processing-time tick fed through
/// [`Engine::advance`]) passes the instance's end, or at the final flush.
///
/// The fields are public so contracts can speak of them; every method
/// requires and preserves [`Engine::wf`].
pub struct Engine {
    /// The reduction applied inside each window.
    pub kind: Kind,
    /// Window instance length, in timestamp units.
    pub length: u64,
    /// Slide interval between window instance starts.
    pub slide: u64,
    /// The current watermark: records at or below it are dropped as late,
    /// and open windows always end strictly above it.
    pub wm: Option<i64>,
    /// Number of records accepted so far; bounds every accumulator count.
    pub total: u64,
    /// The open window instances, strictly ordered by (key, start).
    pub open: Vec<OpenWin>,
    /// For each open window, the records routed into it, in arrival order.
    pub recs: Ghost<Seq<Seq<RecordV>>>,
}

impl Engine {
    /// Number of open window instances.
    pub open spec fn n(self) -> int {
        self.open@.len() as int
    }

    pub open spec fn win_key(self, i: int) -> Seq<char> {
        self.open@[i].key@
    }

    pub open spec fn win_start(self, i: int) -> int {
        self.open@[i].start as int
    }

    /// The engine holds an open window instance `[s, s + length)` for `k`.
    pub open spec fn has_win(self, k: Seq<char>, s: int) -> bool {
        exists|i: int|
            #![trigger self.win_key(i)]
            0 <= i < self.n() && self.win_key(i) == k && self.win_start(i) == s
    }

    pub open spec fn idx_of(self, k: Seq<char>, s: int) -> int {
        choose|i: int|
            #![trigger self.win_key(i)]
            0 <= i < self.n() && self.win_key(i) == k && self.win_start(i) == s
    }

    /// The records routed so far into the open window instance `(k, s)`.
    pub open spec fn win_at(self, k: Seq<char>, s: int) -> Seq<RecordV> {
        self.recs@[self.idx_of(k, s)]
    }

    /// The engine's configuration, which no operation changes.
    pub open spec fn cfg(self) -> (Kind, int, int) {
        (self.kind, self.length as int, self.slide as int)
    }

    /// Well-formedness: policy is valid; accumulators are exactly the folds
    /// of their routed records; every routed sequence is non-empty, bounded
    /// by the accepted-record count, and made of valid records of the
    /// window's own key and interval; the windows are strictly ordered by
    /// (key, start); and every open window still ends ahead of the
    /// watermark.
    pub open spec fn wf(self) -> bool {
        &&& policy_wf(self.length as int, self.slide as int)
        &&& self.recs@.len() == self.n()
        &&& forall|i: int|
            0 <= i < self.n() ==> acc_matches(
                self.kind,
                #[trigger] self.open@[i].acc,
                self.recs@[i],
            )
        &&& forall|i: int|
            0 <= i < self.n() ==> 1 <= #[trigger] self.recs@[i].len() <= self.total
        &&& forall|i: int, j: int|
            0 <= i < self.n() && 0 <= j < self.recs@[i].len() ==> {
                &&& (#[trigger] self.recs@[i][j]).bounded()
                &&& self.recs@[i][j].key == self.win_key(i)
                &&& self.recs@[i][j].key.len() > 0
                &&& assigned(
                    self.recs@[i][j].ts,
                    self.win_start(i),
                    self.length as int,
                    self.slide as int,
                )
            }
        &&& forall|i: int, j: int|
            0 <= i < j < self.n() ==> win_before(
                #[trigger] self.win_key(i),
                self.win_start(i),
                #[trigger] self.win_key(j),
                self.win_start(j),
            )
        &&& forall|i: int|
            0 <= i < self.n() ==> wm_before(
                self.wm_v(),
                (#[trigger] self.win_start(i)) + self.length,
            )
    }

    /// The watermark as a mathematical value.
    pub open spec fn wm_v(self) -> Option<int> {
        match self.wm {
            Some(w) => Some(w as int),
            None => None,
        }
    }

    /// Raising the accepted-record counter alone preserves well-formedness.
    pub proof fn lemma_wf_total_bump(a: Engine, b: Engine)
        requires
            a.wf(),
            b.kind == a.kind,
            b.length == a.length,
            b.slide == a.slide,
            b.open@ == a.open@,
            b.recs@ == a.recs@,
            b.wm == a.wm,
            a.total <= b.total,
        ensures
            b.wf(),
    {
        assert forall|i: int|
            0 <= i < b.n() implies acc_matches(
            b.kind,
            #[trigger] b.open@[i].acc,
            b.recs@[i],
        ) by {
            assert(acc_matches(a.kind, a.open@[i].acc, a.recs@[i]));
        }
        assert forall|i: int| 0 <= i < b.n() implies 1 <= #[trigger] b.recs@[i].len()
            <= b.total by {
            assert(1 <= a.recs@[i].len() <= a.total);
        }
        assert forall|i: int, j: int|
            0 <= i < b.n() && 0 <= j < b.recs@[i].len() implies {
            &&& (#[trigger] b.recs@[i][j]).bounded()
            &&& b.recs@[i][j].key == b.win_key(i)
            &&& b.recs@[i][j].key.len() > 0
            &&& assigned(b.recs@[i][j].ts, b.win_start(i), b.length as int, b.slide as int)
        } by {
            assert((a.recs@[i][j]).bounded() && a.recs@[i][j].key == a.win_key(i)
                && a.recs@[i][j].key.len() > 0 && assigned(
                a.recs@[i][j].ts,
                a.win_start(i),
                a.length as int,
                a.slide as int,
            ));
        }
        assert forall|i: int, j: int|
            0 <= i < j < b.n() implies win_before(
            #[trigger] b.win_key(i),
            b.win_start(i),
            #[trigger] b.win_key(j),
            b.win_start(j),
        ) by {
            assert(win_before(a.win_key(i), a.win_start(i), a.win_key(j), a.win_start(j)));
        }
        assert forall|i: int|
            0 <= i < b.n() implies wm_before(b.wm_v(), (#[trigger] b.win_start(i)) + b.length) by {
            assert(wm_before(a.wm_v(), a.win_start(i) + a.length));
        }
    }

    /// Engines with the same open windows and the same routed records
    /// present the same window abstraction.
    pub proof fn lemma_same_windows(a: Engine, b: Engine)
        requires
            a.wf(),
            a.open@ == b.open@,
            a.recs@ == b.recs@,
        ensures
            forall|k: Seq<char>, s: int| a.has_win(k, s) <==> b.has_win(k, s),
            forall|k: Seq<char>, s: int|
                a.has_win(k, s) ==> #[trigger] a.win_at(k, s) == b.win_at(k, s),
    {
        assert forall|k: Seq<char>, s: int| a.has_win(k, s) <==> b.has_win(k, s) by {
            if a.has_win(k, s) {
                let i = a.idx_of(k, s);
                assert(b.win_key(i) == k && b.win_start(i) == s);
            }
            if b.has_win(k, s) {
                let i = b.idx_of(k, s);
                assert(a.win_key(i) == k && a.win_start(i) == s);
            }
        }
        assert forall|k: Seq<char>, s: int|
            a.has_win(k, s) implies #[trigger] a.win_at(k, s) == b.win_at(k, s) by {
            let ia = a.idx_of(k, s);
            let ib = b.idx_of(k, s);
            assert(a.win_key(ib) == k && a.win_start(ib) == s);
            a.lemma_index_unique(ia, ib);
        }
    }

    /// Two open windows with the same key and start are the same window.
    pub proof fn lemma_index_unique(self, i: int, j: int)
        requires
            self.wf(),
            0 <= i < self.n(),
            0 <= j < self.n(),
            self.win_key(i) == self.win_key(j),
            self.win_start(i) == self.win_start(j),
        ensures
            i == j,
    {
        if i < j || j < i {
            crate::keyorder::lemma_lex_lt_irrefl(self.win_key(i));
        }
    }

    /// The abstraction at a concrete index: window `i` is the window of its
    /// own (key, start) pair.
    pub proof fn lemma_win_at(self, i: int)
        requires
            self.wf(),
            0 <= i < self.n(),
        ensures
            self.has_win(self.win_key(i), self.win_start(i)),
            self.idx_of(self.win_key(i), self.win_start(i)) == i,
            self.win_at(self.win_key(i), self.win_start(i)) == self.recs@[i],
    {
        let k = self.win_key(i);
        let s = self.win_start(i);
        assert(self.has_win(k, s));
        let j = self.idx_of(k, s);
        self.lemma_index_unique(i, j);
    }

    /// A fresh engine with no open window and no watermark.
    pub fn new(kind: Kind, length: u64, slide: u64) -> (e: Engine)
        requires
            policy_wf(length as int, slide as int),
        ensures
            e.wf(),
            e.cfg() == (kind, length as int, slide as int),
            e.wm_v() == None::<int>,
            e.total == 0,
            e.n() == 0,
            forall|k: Seq<char>, s: int| !e.has_win(k, s),
    {
        Engine {
            kind,
            length,
            slide,
            wm: None,
            total: 0,
            open: Vec::new(),
            recs: Ghost(Seq::empty()),
        }
    }

    /// Folds `r` into the window instance `(r.key, s)`, creating it at its
    /// sorted position on first touch.
    fn add_at(&mut self, r: &Record, s: i64)
        requires
            old(self).wf(),
            r@.valid_key(),
            assigned(r@.ts, s as int, old(self).length as int, old(self).slide as int),
            old(self).total >= 1,
            wm_before(old(self).wm_v(), s + old(self).length),
            old(self).has_win(r@.key, s as int) ==> old(self).win_at(r@.key, s as int).len()
                < old(self).total,
        ensures
            final(self).wf(),
            final(self).cfg() == old(self).cfg(),
            final(self).wm == old(self).wm,
            final(self).total == old(self).total,
            forall|k: Seq<char>, x: int|
                final(self).has_win(k, x) <==> (old(self).has_win(k, x) || (k == r@.key && x == s
                    as int)),
            forall|k: Seq<char>, x: int|
                old(self).has_win(k, x) && !(k == r@.key && x == s as int)
                    ==> final(self).win_at(k, x) == old(self).win_at(k, x),
            final(self).win_at(r@.key, s as int) == (if old(self).has_win(r@.key, s as int) {
                old(self).win_at(r@.key, s as int)
            } else {
                Seq::<RecordV>::empty()
            }).push(r@),
    {
        let ghost snap = *self;
        let mut i: usize = 0;
        let mut done = false;
        let n = self.open.len();
        while i < n && !done
            invariant
                *self == snap,
                n == snap.n(),
                0 <= i <= n,
                forall|j: int|
                    0 <= j < i ==> win_before(
                        #[trigger] snap.win_key(j),
                        snap.win_start(j),
                        r@.key,
                        s as int,
                    ),
                done ==> i < n && !win_before(
                    snap.win_key(i as int),
                    snap.win_start(i as int),
                    r@.key,
                    s as int,
                ),
            decreases n - i + (if done {
                0int
            } else {
                1int
            }),
        {
            let w = &self.open[i];
            let before = if str_lt(w.key.as_str(), r.key.as_str()) {
                true
            } else {
                w.key == r.key && w.start < s
            };
            if before {
                i = i + 1;
            } else {
                done = true;
            }
        }
        // at position i, either the window itself or the first later window.
        let hit = if i < n {
            let w = &self.open[i];
            w.key == r.key && w.start == s
        } else {
            false
        };
        proof {
            if i < n && !hit {
                // open[i] is not before (r.key, s) and differs from it, so it
                // comes strictly after.
                if !win_before(r@.key, s as int, snap.win_key(i as int), snap.win_start(i as int)) {
                    lemma_win_before_connected(
                        snap.win_key(i as int),
                        snap.win_start(i as int),
                        r@.key,
                        s as int,
                    );
                    assert(false);
                }
            }
        }
        if hit {
            let ghost gi = i as int;
            proof {
                snap.lemma_win_at(gi);
            }
            let ghost rs = self.recs@[gi];
            let mut w = self.open.remove(i);
            acc_fold(self.kind, &mut w.acc, r, Ghost(rs));
            let ghost wg = w;
            self.open.insert(i, w);
            proof {
                self.recs@ = snap.recs@.update(gi, rs.push(r@));
                snap.open@.remove_ensures(gi);
                snap.open@.remove(gi).insert_ensures(gi, wg);
                assert(self.open@ =~= snap.open@.update(gi, wg));
            }
            proof {
                assert forall|j: int| 0 <= j < self.n() implies self.win_key(j) == snap.win_key(j)
                    && self.win_start(j) == snap.win_start(j) by {}
                assert forall|k: Seq<char>, x: int|
                    self.has_win(k, x) <==> (snap.has_win(k, x) || (k == r@.key && x == s
                        as int)) by {
                    if snap.has_win(k, x) {
                        let j = snap.idx_of(k, x);
                        assert(self.win_key(j) == k && self.win_start(j) == x);
                    }
                    if self.has_win(k, x) {
                        let j = self.idx_of(k, x);
                        assert(snap.win_key(j) == k && snap.win_start(j) == x);
                    }
                    if k == r@.key && x == s as int {
                        assert(snap.win_key(gi) == k && snap.win_start(gi) == x);
                    }
                }
                assert(self.recs@.len() == self.n());
                assert(forall|j: int|
                    0 <= j < self.n() ==> acc_matches(
                        self.kind,
                        #[trigger] self.open@[j].acc,
                        self.recs@[j],
                    ));
                assert(forall|j: int|
                    0 <= j < self.n() ==> 1 <= #[trigger] self.recs@[j].len() <= self.total);
                assert forall|a: int, b: int|
                    0 <= a < self.n() && 0 <= b < self.recs@[a].len() implies {
                    &&& (#[trigger] self.recs@[a][b]).bounded()
                    &&& self.recs@[a][b].key == self.win_key(a)
                    &&& self.recs@[a][b].key.len() > 0
                    &&& assigned(
                        self.recs@[a][b].ts,
                        self.win_start(a),
                        self.length as int,
                        self.slide as int,
                    )
                } by {
                    if a == gi {
                        if b < rs.len() {
                            assert(self.recs@[a][b] == rs[b]);
                            assert(snap.recs@[gi][b] == rs[b]);
                        } else {
                            assert(self.recs@[a][b] == r@);
                        }
                    } else {
                        assert(self.recs@[a][b] == snap.recs@[a][b]);
                    }
                }
                assert forall|a: int, b: int|
                    0 <= a < b < self.n() implies win_before(
                    #[trigger] self.win_key(a),
                    self.win_start(a),
                    #[trigger] self.win_key(b),
                    self.win_start(b),
                ) by {
                    assert(win_before(snap.win_key(a), snap.win_start(a), snap.win_key(b),
                        snap.win_start(b)));
                }
                assert forall|a: int|
                    0 <= a < self.n() implies wm_before(
                    self.wm_v(),
                    #[trigger] self.win_start(a) + self.length,
                ) by {
                    assert(wm_before(snap.wm_v(), snap.win_start(a) + snap.length));
                }
                assert(self.wf());
                assert forall|k: Seq<char>, x: int|
                    snap.has_win(k, x) && !(k == r@.key && x == s as int) implies self.win_at(k, x)
                    == snap.win_at(k, x) by {
                    let j = snap.idx_of(k, x);
                    snap.lemma_win_at(j);
                    self.lemma_win_at(j);
                    assert(j != gi);
                }
                self.lemma_win_at(gi);
            }
        } else {
            let w = OpenWin { key: crate::record::key_of(r), start: s, acc: acc_init(self.kind, r) };
            let ghost wg = w;
            self.open.insert(i, w);
            proof {
                self.recs@ = snap.recs@.insert(i as int, seq![r@]);
            }
            proof {
                let gi = i as int;
                snap.open@.insert_ensures(gi, wg);
                snap.recs@.insert_ensures(gi, seq![r@]);
                assert forall|j: int| 0 <= j < self.n() implies (if j < gi {
                    self.win_key(j) == snap.win_key(j) && self.win_start(j) == snap.win_start(j)
                        && self.recs@[j] == snap.recs@[j]
                } else if j == gi {
                    self.win_key(j) == r@.key && self.win_start(j) == s as int && self.recs@[j]
                        == seq![r@]
                } else {
                    self.win_key(j) == snap.win_key(j - 1) && self.win_start(j) == snap.win_start(
                        j - 1,
                    ) && self.recs@[j] == snap.recs@[j - 1]
                }) by {}
                // strict order around the insertion point.
                assert forall|a: int, b: int|
                    0 <= a < b < self.n() implies win_before(
                    self.win_key(a),
                    self.win_start(a),
                    self.win_key(b),
                    self.win_start(b),
                ) by {
                    if a == gi && b > gi {
                        if i < n {
                            if b == gi + 1 {
                            } else {
                                lemma_win_before_trans(
                                    r@.key,
                                    s as int,
                                    snap.win_key(gi),
                                    snap.win_start(gi),
                                    snap.win_key(b - 1),
                                    snap.win_start(b - 1),
                                );
                            }
                        }
                    } else if b == gi && a < gi {
                    }
                }
                assert(self.wf());
                assert forall|k: Seq<char>, x: int|
                    self.has_win(k, x) <==> (snap.has_win(k, x) || (k == r@.key && x == s
                        as int)) by {
                    if snap.has_win(k, x) {
                        let j = snap.idx_of(k, x);
                        if j < gi {
                            assert(self.win_key(j) == k && self.win_start(j) == x);
                        } else {
                            assert(self.win_key(j + 1) == k && self.win_start(j + 1) == x);
                        }
                    }
                    if k == r@.key && x == s as int {
                        assert(self.win_key(gi) == k && self.win_start(gi) == x);
                    }
                    if self.has_win(k, x) && !(k == r@.key && x == s as int) {
                        let j = self.idx_of(k, x);
                        assert(j != gi);
                        if j < gi {
                            assert(snap.win_key(j) == k && snap.win_start(j) == x);
                        } else {
                            assert(snap.win_key(j - 1) == k && snap.win_start(j - 1) == x);
                        }
                    }
                }
                assert forall|k: Seq<char>, x: int|
                    snap.has_win(k, x) && !(k == r@.key && x == s as int) implies self.win_at(k, x)
                    == snap.win_at(k, x) by {
                    let j = snap.idx_of(k, x);
                    snap.lemma_win_at(j);
                    if j < gi {
                        self.lemma_win_at(j);
                    } else {
                        self.lemma_win_at(j + 1);
                    }
                }
                self.lemma_win_at(gi);
                assert(self.win_at(r@.key, s as int) =~= (if snap.has_win(r@.key, s as int) {
                    snap.win_at(r@.key, s as int)
                } else {
                    Seq::<RecordV>::empty()
                }).push(r@)) by {
                    if snap.has_win(r@.key, s as int) {
                        let j = snap.idx_of(r@.key, s as int);
                        assert(snap.win_key(j) == r@.key && snap.win_start(j) == s as int);
                        if j < gi {
                            assert(win_before(r@.key, s as int, r@.key, s as int));
                            crate::keyorder::lemma_lex_lt_irrefl(r@.key);
                        } else {
                            assert(win_before(r@.key, s as int, snap.win_key(j), snap.win_start(j)));
                            crate::keyorder::lemma_lex_lt_irrefl(r@.key);
                        }
                    }
                }
            }
        }
    }

    /// Routes one record through the keyed windowing stage: a late record
    /// (timestamp at or below the watermark) is dropped without any effect;
    /// otherwise the record is folded into every window instance its
    /// timestamp is assigned to, instances being created lazily on their
    /// first contributing record. The watermark does not move.
    pub fn on_record(&mut self, r: &Record)
        requires
            old(self).wf(),
            r@.valid_key(),
            old(self).total < u64::MAX,
        ensures
            final(self).wf(),
            final(self).cfg() == old(self).cfg(),
            final(self).wm == old(self).wm,
            is_late(old(self).wm_v(), r@.ts) ==> *final(self) == *old(self),
            !is_late(old(self).wm_v(), r@.ts) ==> {
                &&& final(self).total == old(self).total + 1
                &&& forall|k: Seq<char>, x: int|
                    final(self).has_win(k, x) <==> (old(self).has_win(k, x) || (k == r@.key
                        && assigned(
                        r@.ts,
                        x,
                        old(self).length as int,
                        old(self).slide as int,
                    )))
                &&& forall|k: Seq<char>, x: int|
                    old(self).has_win(k, x) && !(k == r@.key && assigned(
                        r@.ts,
                        x,
                        old(self).length as int,
                        old(self).slide as int,
                    )) ==> final(self).win_at(k, x) == old(self).win_at(k, x)
                &&& forall|x: int|
                    assigned(r@.ts, x, old(self).length as int, old(self).slide as int)
                        ==> final(self).win_at(r@.key, x) == (if old(self).has_win(r@.key, x) {
                        old(self).win_at(r@.key, x)
                    } else {
                        Seq::<RecordV>::empty()
                    }).push(r@)
            },
    {
        let ghost pre = *self;
        if let Some(w) = self.wm {
            if r.ts <= w {
                return ;
            }
        }
        self.total = self.total + 1;
        let starts = assign(r.ts, self.length, self.slide);
        let ghost snap = *self;
        proof {
            Self::lemma_wf_total_bump(pre, snap);
            Self::lemma_same_windows(pre, snap);
        }
        let mut idx: usize = 0;
        let m = starts.len();
        while idx < m
            invariant
                self.wf(),
                r@.valid_key(),
                r@.bounded(),
                m == starts@.len(),
                0 <= idx <= m,
                self.cfg() == snap.cfg(),
                self.wm == snap.wm,
                self.total == snap.total,
                snap.total == pre.total + 1,
                snap.open@ == pre.open@,
                snap.recs@ == pre.recs@,
                snap.wm == pre.wm,
                snap.cfg() == pre.cfg(),
                pre.wf(),
                snap.wf(),
                !is_late(snap.wm_v(), r@.ts),
                forall|j: int, l: int| 0 <= j < l < m ==> starts@[j] < starts@[l],
                forall|j: int|
                    0 <= j < m ==> assigned(
                        r@.ts,
                        #[trigger] starts@[j] as int,
                        snap.length as int,
                        snap.slide as int,
                    ),
                forall|k: Seq<char>, x: int|
                    self.has_win(k, x) <==> (snap.has_win(k, x) || (k == r@.key && in_prefix(
                        starts@,
                        idx as int,
                        x,
                    ))),
                forall|k: Seq<char>, x: int|
                    snap.has_win(k, x) && !(k == r@.key && in_prefix(starts@, idx as int, x))
                        ==> self.win_at(k, x) == snap.win_at(k, x),
                forall|x: int|
                    in_prefix(starts@, idx as int, x) ==> self.win_at(r@.key, x) == (if
                    snap.has_win(r@.key, x) {
                        snap.win_at(r@.key, x)
                    } else {
                        Seq::<RecordV>::empty()
                    }).push(r@),
            decreases m - idx,
        {
            let s = starts[idx];
            let ghost before = *self;
            proof {
                // the target window has not been touched yet in this loop:
                // the starts are strictly increasing, so s is new.
                assert(!in_prefix(starts@, idx as int, s as int));
                if snap.has_win(r@.key, s as int) {
                    assert(self.win_at(r@.key, s as int) == snap.win_at(r@.key, s as int));
                    let j = snap.idx_of(r@.key, s as int);
                    assert(0 <= j < snap.n() && snap.win_key(j) == r@.key && snap.win_start(j) == s
                        as int);
                    snap.lemma_win_at(j);
                    assert(snap.win_at(r@.key, s as int).len() <= pre.total);
                }
            }
            self.add_at(r, s);
            proof {
                assert forall|x: int|
                    in_prefix(starts@, idx + 1, x) <==> (in_prefix(starts@, idx as int, x) || x == s
                        as int) by {
                    if in_prefix(starts@, idx + 1, x) {
                        let j = choose|j: int| 0 <= j < idx + 1 && #[trigger] starts@[j] as int
                            == x;
                        if j < idx {
                            assert(in_prefix(starts@, idx as int, x));
                        } else {
                            assert(starts@[idx as int] as int == x);
                        }
                    }
                    if in_prefix(starts@, idx as int, x) {
                        let j = choose|j: int| 0 <= j < idx && #[trigger] starts@[j] as int == x;
                        assert(0 <= j < idx + 1 && starts@[j] as int == x);
                    }
                    if x == s as int {
                        assert(starts@[idx as int] as int == x);
                    }
                }
                assert forall|k: Seq<char>, x: int|
                    self.has_win(k, x) <==> (snap.has_win(k, x) || (k == r@.key && in_prefix(
                        starts@,
                        idx + 1,
                        x,
                    ))) by {
                    assert(self.has_win(k, x) <==> (before.has_win(k, x) || (k == r@.key && x == s
                        as int)));
                    assert(before.has_win(k, x) <==> (snap.has_win(k, x) || (k == r@.key
                        && in_prefix(starts@, idx as int, x))));
                    assert(in_prefix(starts@, idx + 1, x) <==> (in_prefix(starts@, idx as int, x)
                        || x == s as int));
                }
                assert forall|x: int|
                    in_prefix(starts@, idx + 1, x) implies self.win_at(r@.key, x) == (if
                    snap.has_win(r@.key, x) {
                        snap.win_at(r@.key, x)
                    } else {
                        Seq::<RecordV>::empty()
                    }).push(r@) by {
                    if x == s as int {
                    } else {
                        assert(in_prefix(starts@, idx as int, x));
                        assert(before.win_at(r@.key, x) == (if snap.has_win(r@.key, x) {
                            snap.win_at(r@.key, x)
                        } else {
                            Seq::<RecordV>::empty()
                        }).push(r@));
                        assert(before.has_win(r@.key, x));
                        assert(self.win_at(r@.key, x) == before.win_at(r@.key, x));
                    }
                }
            }
            let ghost idx0 = idx as int;
            idx = idx + 1;
            proof {
                assert(idx as int == idx0 + 1);
                assert forall|k: Seq<char>, x: int|
                    self.has_win(k, x) <==> (snap.has_win(k, x) || (k == r@.key && in_prefix(
                        starts@,
                        idx as int,
                        x,
                    ))) by {
                    assert(self.has_win(k, x) <==> (snap.has_win(k, x) || (k == r@.key && in_prefix(
                        starts@,
                        idx0 + 1,
                        x,
                    ))));
                }
            }
        }
        proof {
            Self::lemma_same_windows(pre, snap);
            // every assigned start was processed, and nothing else.
            assert forall|x: int|
                assigned(r@.ts, x, snap.length as int, snap.slide as int) implies in_prefix(
                starts@,
                m as int,
                x,
            ) by {
                let j = choose|j: int| 0 <= j < starts@.len() && starts@[j] as int == x;
                assert(starts@[j] as int == x);
            }
            assert(forall|x: int|
                in_prefix(starts@, m as int, x) ==> assigned(
                    r@.ts,
                    x,
                    snap.length as int,
                    snap.slide as int,
                ));
        }
    }

    /// Advances the watermark to (at least) `t` and closes every window
    /// instance whose end the new watermark has reached: each is emitted
    /// exactly once, in ascending (key, start) order, with the final
    /// aggregate of exactly the records routed into it, and its state is
    /// released. No window is ever emitted before its end: every emission's
    /// end lies at or below the new watermark. A regressing `t` never lowers
    /// the watermark. Fed wall-clock ticks instead of watermarks, this same
    /// transition fires processing-time windows.
    pub fn advance(&mut self, t: i64) -> (out: Vec<Emission>)
        requires
            old(self).wf(),
        ensures
            final(self).wf(),
            final(self).cfg() == old(self).cfg(),
            final(self).total == old(self).total,
            final(self).wm_v() == Some(advanced_wm(old(self).wm_v(), t as int)),
            forall|k: Seq<char>, x: int|
                final(self).has_win(k, x) <==> (old(self).has_win(k, x) && advanced_wm(
                    old(self).wm_v(),
                    t as int,
                ) < x + old(self).length),
            forall|k: Seq<char>, x: int|
                final(self).has_win(k, x) ==> final(self).win_at(k, x) == old(self).win_at(k, x),
            forall|j: int|
                0 <= j < out@.len() ==> {
                    &&& old(self).has_win(#[trigger] out@[j]@.key, out@[j]@.start)
                    &&& out@[j]@.start + old(self).length <= advanced_wm(
                        old(self).wm_v(),
                        t as int,
                    )
                    &&& out@[j]@.value == finalize_model(
                        old(self).kind,
                        old(self).win_at(out@[j]@.key, out@[j]@.start),
                    )
                },
            forall|k: Seq<char>, x: int|
                old(self).has_win(k, x) && x + old(self).length <= advanced_wm(
                    old(self).wm_v(),
                    t as int,
                ) ==> exists|j: int|
                    0 <= j < out@.len() && #[trigger] out@[j]@.key == k && out@[j]@.start == x,
            forall|j: int, l: int|
                0 <= j < l < out@.len() ==> win_before(
                    #[trigger] out@[j]@.key,
                    out@[j]@.start,
                    #[trigger] out@[l]@.key,
                    out@[l]@.start,
                ),
    {
        let w_new: i64 = match self.wm {
            Some(w) => if w >= t {
                w
            } else {
                t
            },
            None => t,
        };
        self.close_up_to(w_new, false)
    }

    /// Flushes the engine at source exhaustion: every still-open window
    /// instance is force-closed and emitted exactly once, in ascending
    /// (key, start) order, with the final aggregate of exactly the records
    /// routed into it. Afterwards no window is open.
    pub fn flush(&mut self) -> (out: Vec<Emission>)
        requires
            old(self).wf(),
        ensures
            final(self).wf(),
            final(self).cfg() == old(self).cfg(),
            final(self).total == old(self).total,
            final(self).wm == old(self).wm,
            final(self).n() == 0,
            forall|k: Seq<char>, x: int| !final(self).has_win(k, x),
            forall|j: int|
                0 <= j < out@.len() ==> {
                    &&& old(self).has_win(#[trigger] out@[j]@.key, out@[j]@.start)
                    &&& out@[j]@.value == finalize_model(
                        old(self).kind,
                        old(self).win_at(out@[j]@.key, out@[j]@.start),
                    )
                },
            forall|k: Seq<char>, x: int|
                old(self).has_win(k, x) ==> exists|j: int|
                    0 <= j < out@.len() && #[trigger] out@[j]@.key == k && out@[j]@.start == x,
            forall|j: int, l: int|
                0 <= j < l < out@.len() ==> win_before(
                    #[trigger] out@[j]@.key,
                    out@[j]@.start,
                    #[trigger] out@[l]@.key,
                    out@[l]@.start,
                ),
    {
        let w = match self.wm {
            Some(w) => w,
            None => 0,
        };
        let out = self.close_up_to(w, true);
        proof {
            if self.n() > 0 {
                self.lemma_win_at(0);
                assert(false);
            }
        }
        out
    }

    /// Emits, in ascending (key, start) order, every window instance that
    /// [`closes`] under `(all, w_new)`, and keeps the rest untouched. With
    /// `all` the watermark stays; otherwise it becomes `w_new`.
    fn close_up_to(&mut self, w_new: i64, all: bool) -> (out: Vec<Emission>)
        requires
            old(self).wf(),
            all || (match old(self).wm {
                Some(w0) => w0 <= w_new,
                None => true,
            }),
        ensures
            final(self).wf(),
            final(self).cfg() == old(self).cfg(),
            final(self).total == old(self).total,
            all ==> final(self).wm == old(self).wm,
            !all ==> final(self).wm_v() == Some(w_new as int),
            forall|k: Seq<char>, x: int|
                final(self).has_win(k, x) <==> (old(self).has_win(k, x) && !closes(
                    all,
                    x,
                    old(self).length as int,
                    w_new as int,
                )),
            forall|k: Seq<char>, x: int|
                final(self).has_win(k, x) ==> final(self).win_at(k, x) == old(self).win_at(k, x),
            forall|j: int|
                0 <= j < out@.len() ==> {
                    &&& old(self).has_win(#[trigger] out@[j]@.key, out@[j]@.start)
                    &&& closes(all, out@[j]@.start, old(self).length as int, w_new as int)
                    &&& out@[j]@.value == finalize_model(
                        old(self).kind,
                        old(self).win_at(out@[j]@.key, out@[j]@.start),
                    )
                },
            forall|k: Seq<char>, x: int|
                old(self).has_win(k, x) && closes(all, x, old(self).length as int, w_new as int)
                    ==> exists|j: int|
                    0 <= j < out@.len() && #[trigger] out@[j]@.key == k && out@[j]@.start == x,
            forall|j: int, l: int|
                0 <= j < l < out@.len() ==> win_before(
                    #[trigger] out@[j]@.key,
                    out@[j]@.start,
                    #[trigger] out@[l]@.key,
                    out@[l]@.start,
                ),
    {
        let ghost orig = *self;
        let n = self.open.len();
        let mut kept: Vec<OpenWin> = Vec::new();
        let mut out: Vec<Emission> = Vec::new();
        let ghost mut kept_recs: Seq<Seq<RecordV>> = Seq::empty();
        proof {
            assert(orig.open@.subrange(0, n as int) =~= orig.open@);
            assert(orig.recs@.subrange(0, n as int) =~= orig.recs@);
            assert(out@ =~= Seq::<Emission>::empty());
            assert(kept@ =~= Seq::<OpenWin>::empty());
        }
        let mut i: usize = 0;
        while i < n
            invariant
                orig.wf(),
                n == orig.n(),
                0 <= i <= n,
                self.open@ == orig.open@.subrange(i as int, n as int),
                self.recs@ == orig.recs@.subrange(i as int, n as int),
                self.kind == orig.kind,
                self.length == orig.length,
                self.slide == orig.slide,
                self.wm == orig.wm,
                self.total == orig.total,
                forall|j: int|
                    0 <= j < out@.len() ==> #[trigger] out_src_at(
                        orig,
                        w_new as int,
                        all,
                        i as int,
                        out@,
                        j,
                    ),
                forall|a: int|
                    0 <= a < i && closes(all, #[trigger] orig.win_start(a), orig.length as int,
                    w_new as int) ==> out_cmp_at(orig, out@, a),
                forall|j: int, l: int|
                    0 <= j < l < out@.len() ==> win_before(
                        (#[trigger] out@[j])@.key,
                        out@[j]@.start,
                        (#[trigger] out@[l])@.key,
                        out@[l]@.start,
                    ),
                kept@.len() == kept_recs.len(),
                forall|j: int|
                    0 <= j < kept@.len() ==> #[trigger] kept_src_at(
                        orig,
                        w_new as int,
                        all,
                        i as int,
                        kept@,
                        kept_recs,
                        j,
                    ),
                forall|a: int|
                    0 <= a < i && !closes(all, #[trigger] orig.win_start(a), orig.length as int,
                    w_new as int) ==> kept_cmp_at(orig, kept@, kept_recs, a),
                forall|j: int, l: int|
                    0 <= j < l < kept@.len() ==> win_before(
                        (#[trigger] kept@[j]).key@,
                        kept@[j].start as int,
                        (#[trigger] kept@[l]).key@,
                        kept@[l].start as int,
                    ),
            decreases n - i,
        {
            let ghost gi = i as int;
            let ghost outs0 = out@;
            let ghost kept0 = kept@;
            let ghost kept_recs0 = kept_recs;
            proof {
                assert(self.open@[0] == orig.open@[gi]);
                assert(self.recs@[0] == orig.recs@[gi]);
                assert(orig.recs@[gi].len() >= 1);
                assert(orig.recs@[gi][0].bounded());
                crate::window::lemma_assigned_bounds(
                    orig.recs@[gi][0].ts,
                    orig.win_start(gi),
                    orig.length as int,
                    orig.slide as int,
                );
            }
            let w = self.open.remove(0);
            let ghost rs = self.recs@[0];
            proof {
                self.recs@ = self.recs@.subrange(1, self.recs@.len() as int);
                assert(self.open@ =~= orig.open@.subrange(gi + 1, n as int));
                assert(self.recs@ =~= orig.recs@.subrange(gi + 1, n as int));
            }
            let close = if all {
                true
            } else if w_new >= w.start {
                (w_new - w.start) as u64 >= self.length
            } else {
                false
            };
            proof {
                assert(close == closes(all, orig.win_start(gi), orig.length as int, w_new as int));
            }
            if close {
                let e = Emission {
                    key: w.key,
                    start: w.start,
                    value: acc_finalize(self.kind, w.acc, Ghost(rs)),
                };
                let ghost eg = e;
                out.push(e);
                proof {
                    lemma_step_src_out(orig, w_new as int, all, gi, true, outs0, out@, eg);
                    lemma_step_cmp_out(orig, w_new as int, all, gi, true, outs0, out@, eg);
                    lemma_step_ord_out(orig, w_new as int, all, gi, true, outs0, out@, eg);
                    lemma_step_src_kept(
                        orig,
                        w_new as int,
                        all,
                        gi,
                        true,
                        kept0,
                        kept_recs0,
                        kept@,
                        kept_recs,
                        arbitrary(),
                    );
                    lemma_step_cmp_kept(
                        orig,
                        w_new as int,
                        all,
                        gi,
                        true,
                        kept0,
                        kept_recs0,
                        kept@,
                        kept_recs,
                        arbitrary(),
                    );
                    lemma_step_ord_kept(
                        orig,
                        w_new as int,
                        all,
                        gi,
                        true,
                        kept0,
                        kept_recs0,
                        kept@,
                        kept_recs,
                        arbitrary(),
                    );
                }
            } else {
                let ghost wg = w;
                kept.push(w);
                proof {
                    kept_recs = kept_recs.push(rs);
                    lemma_step_src_out(
                        orig,
                        w_new as int,
                        all,
                        gi,
                        false,
                        outs0,
                        out@,
                        arbitrary(),
                    );
                    lemma_step_cmp_out(
                        orig,
                        w_new as int,
                        all,
                        gi,
                        false,
                        outs0,
                        out@,
                        arbitrary(),
                    );
                    lemma_step_ord_out(
                        orig,
                        w_new as int,
                        all,
                        gi,
                        false,
                        outs0,
                        out@,
                        arbitrary(),
                    );
                    lemma_step_src_kept(
                        orig,
                        w_new as int,
                        all,
                        gi,
                        false,
                        kept0,
                        kept_recs0,
                        kept@,
                        kept_recs,
                        wg,
                    );
                    lemma_step_cmp_kept(
                        orig,
                        w_new as int,
                        all,
                        gi,
                        false,
                        kept0,
                        kept_recs0,
                        kept@,
                        kept_recs,
                        wg,
                    );
                    lemma_step_ord_kept(
                        orig,
                        w_new as int,
                        all,
                        gi,
                        false,
                        kept0,
                        kept_recs0,
                        kept@,
                        kept_recs,
                        wg,
                    );
                }
            }
            i = i + 1;
        }
        self.open = kept;
        proof {
            self.recs@ = kept_recs;
        }
        if !all {
            self.wm = Some(w_new);
        }
        proof {
            lemma_finish_wf(orig, *self, w_new as int, all);
            lemma_finish_winmap(orig, *self, w_new as int, all);
            lemma_finish_out(orig, w_new as int, all, out@);
                }
        out
    }
}

/// The window instance starting at `x` closes: either everything closes (at
/// the final flush) or the watermark has reached the instance's end.
pub open spec fn closes(all: bool, x: int, length: int, w: int) -> bool {
    all || x + length <= w
}

/// The `j`th emitted entry of the pass stems from a closed window among the
/// first `i` examined, with its finalized aggregate.
pub open spec fn out_src_at(
    orig: Engine,
    w_new: int,
    all: bool,
    i: int,
    outs: Seq<Emission>,
    j: int,
) -> bool {
    exists|a: int|
        #![trigger orig.win_key(a)]
        0 <= a < i && orig.win_key(a) == outs[j]@.key && orig.win_start(a) == outs[j]@.start
            && closes(all, orig.win_start(a), orig.length as int, w_new) && outs[j]@.value
            == finalize_model(orig.kind, orig.recs@[a])
}

/// The window at index `a` of `orig` has been emitted into `outs`.
pub open spec fn out_cmp_at(orig: Engine, outs: Seq<Emission>, a: int) -> bool {
    exists|j: int|
        #![trigger outs[j]]
        0 <= j < outs.len() && outs[j]@.key == orig.win_key(a) && outs[j]@.start == orig.win_start(
            a,
        )
}

/// The `j`th kept window of the pass is a still-open window among the first
/// `i` examined, with its routed records.
pub open spec fn kept_src_at(
    orig: Engine,
    w_new: int,
    all: bool,
    i: int,
    kept: Seq<OpenWin>,
    kept_recs: Seq<Seq<RecordV>>,
    j: int,
) -> bool {
    exists|a: int|
        #![trigger orig.open@[a]]
        0 <= a < i && kept[j] == orig.open@[a] && kept_recs[j] == orig.recs@[a] && !closes(
            all,
            orig.win_start(a),
            orig.length as int,
            w_new,
        )
}

/// The window at index `a` of `orig` has been kept, with its routed records.
pub open spec fn kept_cmp_at(
    orig: Engine,
    kept: Seq<OpenWin>,
    kept_recs: Seq<Seq<RecordV>>,
    a: int,
) -> bool {
    exists|j: int|
        #![trigger kept[j]]
        0 <= j < kept.len() && kept[j] == orig.open@[a] && kept_recs[j] == orig.recs@[a]
}

/// One step of the window-closing pass: the emitted entries still all stem
/// from closed examined windows.
#[verifier::spinoff_prover]
proof fn lemma_step_src_out(
    orig: Engine,
    w_new: int,
    all: bool,
    gi: int,
    close: bool,
    outs0: Seq<Emission>,
    outs: Seq<Emission>,
    e: Emission,
)
    requires
        0 <= gi < orig.n(),
        forall|j: int|
            0 <= j < outs0.len() ==> #[trigger] out_src_at(orig, w_new, all, gi, outs0, j),
        close == closes(all, orig.win_start(gi), orig.length as int, w_new),
        close ==> outs == outs0.push(e) && e@.key == orig.win_key(gi) && e@.start
            == orig.win_start(gi) && e@.value == finalize_model(orig.kind, orig.recs@[gi]),
        !close ==> outs == outs0,
    ensures
        forall|j: int|
            0 <= j < outs.len() ==> #[trigger] out_src_at(orig, w_new, all, gi + 1, outs, j),
{
    assert forall|j: int|
        0 <= j < outs.len() implies #[trigger] out_src_at(orig, w_new, all, gi + 1, outs, j) by {
        if j < outs0.len() {
            assert(out_src_at(orig, w_new, all, gi, outs0, j));
            let a = choose|a: int|
                #![trigger orig.win_key(a)]
                0 <= a < gi && orig.win_key(a) == outs0[j]@.key && orig.win_start(a)
                    == outs0[j]@.start && closes(all, orig.win_start(a), orig.length as int, w_new)
                    && outs0[j]@.value == finalize_model(orig.kind, orig.recs@[a]);
            assert(outs[j] == outs0[j]);
            assert(orig.win_key(a) == outs[j]@.key && orig.win_start(a) == outs[j]@.start
                && outs[j]@.value == finalize_model(orig.kind, orig.recs@[a]));
        } else {
            assert(outs[j] == e);
            assert(orig.win_key(gi) == outs[j]@.key && orig.win_start(gi) == outs[j]@.start
                && outs[j]@.value == finalize_model(orig.kind, orig.recs@[gi]));
        }
    }
}

/// One step of the window-closing pass: every closed examined window has
/// been emitted.
#[verifier::spinoff_prover]
proof fn lemma_step_cmp_out(
    orig: Engine,
    w_new: int,
    all: bool,
    gi: int,
    close: bool,
    outs0: Seq<Emission>,
    outs: Seq<Emission>,
    e: Emission,
)
    requires
        0 <= gi < orig.n(),
        forall|a: int|
            0 <= a < gi && closes(all, #[trigger] orig.win_start(a), orig.length as int, w_new)
                ==> out_cmp_at(orig, outs0, a),
        close == closes(all, orig.win_start(gi), orig.length as int, w_new),
        close ==> outs == outs0.push(e) && e@.key == orig.win_key(gi) && e@.start
            == orig.win_start(gi),
        !close ==> outs == outs0,
    ensures
        forall|a: int|
            0 <= a < gi + 1 && closes(all, #[trigger] orig.win_start(a), orig.length as int, w_new)
                ==> out_cmp_at(orig, outs, a),
{
    assert forall|a: int|
        0 <= a < gi + 1 && closes(all, #[trigger] orig.win_start(a), orig.length as int, w_new)
        implies out_cmp_at(orig, outs, a) by {
        if a < gi {
            assert(out_cmp_at(orig, outs0, a));
            let j = choose|j: int|
                #![trigger outs0[j]]
                0 <= j < outs0.len() && outs0[j]@.key == orig.win_key(a) && outs0[j]@.start
                    == orig.win_start(a);
            assert(outs[j] == outs0[j]);
            assert(outs[j]@.key == orig.win_key(a) && outs[j]@.start == orig.win_start(a));
        } else {
            assert(close);
            assert(outs[outs0.len() as int] == e);
            assert(outs[outs0.len() as int]@.key == orig.win_key(a) && outs[outs0.len()
                as int]@.start == orig.win_start(a));
        }
    }
}

/// One step of the window-closing pass keeps the emitted entries in strictly
/// ascending (key, start) order.
#[verifier::spinoff_prover]
proof fn lemma_step_ord_out(
    orig: Engine,
    w_new: int,
    all: bool,
    gi: int,
    close: bool,
    outs0: Seq<Emission>,
    outs: Seq<Emission>,
    e: Emission,
)
    requires
        orig.wf(),
        0 <= gi < orig.n(),
        forall|j: int|
            0 <= j < outs0.len() ==> #[trigger] out_src_at(orig, w_new, all, gi, outs0, j),
        forall|j: int, l: int|
            0 <= j < l < outs0.len() ==> win_before(
                (#[trigger] outs0[j])@.key,
                outs0[j]@.start,
                (#[trigger] outs0[l])@.key,
                outs0[l]@.start,
            ),
        close == closes(all, orig.win_start(gi), orig.length as int, w_new),
        close ==> outs == outs0.push(e) && e@.key == orig.win_key(gi) && e@.start
            == orig.win_start(gi),
        !close ==> outs == outs0,
    ensures
        forall|j: int, l: int|
            0 <= j < l < outs.len() ==> win_before(
                (#[trigger] outs[j])@.key,
                outs[j]@.start,
                (#[trigger] outs[l])@.key,
                outs[l]@.start,
            ),
{
    assert forall|j: int, l: int|
        0 <= j < l < outs.len() implies win_before(
        (#[trigger] outs[j])@.key,
        outs[j]@.start,
        (#[trigger] outs[l])@.key,
        outs[l]@.start,
    ) by {
        if l < outs0.len() {
            assert(outs[j] == outs0[j] && outs[l] == outs0[l]);
            assert(win_before(outs0[j]@.key, outs0[j]@.start, outs0[l]@.key, outs0[l]@.start));
        } else {
            assert(outs[j] == outs0[j]);
            assert(out_src_at(orig, w_new, all, gi, outs0, j));
            let a = choose|a: int|
                #![trigger orig.win_key(a)]
                0 <= a < gi && orig.win_key(a) == outs0[j]@.key && orig.win_start(a)
                    == outs0[j]@.start && closes(all, orig.win_start(a), orig.length as int, w_new)
                    && outs0[j]@.value == finalize_model(orig.kind, orig.recs@[a]);
            assert(win_before(orig.win_key(a), orig.win_start(a), orig.win_key(gi), orig.win_start(
                gi,
            )));
        }
    }
}

/// One step of the window-closing pass: the kept windows still all stem from
/// still-open examined windows.
#[verifier::spinoff_prover]
proof fn lemma_step_src_kept(
    orig: Engine,
    w_new: int,
    all: bool,
    gi: int,
    close: bool,
    kept0: Seq<OpenWin>,
    kept_recs0: Seq<Seq<RecordV>>,
    kept: Seq<OpenWin>,
    kept_recs: Seq<Seq<RecordV>>,
    w: OpenWin,
)
    requires
        0 <= gi < orig.n(),
        kept0.len() == kept_recs0.len(),
        forall|j: int|
            0 <= j < kept0.len() ==> #[trigger] kept_src_at(
                orig,
                w_new,
                all,
                gi,
                kept0,
                kept_recs0,
                j,
            ),
        close == closes(all, orig.win_start(gi), orig.length as int, w_new),
        close ==> kept == kept0 && kept_recs == kept_recs0,
        !close ==> kept == kept0.push(w) && kept_recs == kept_recs0.push(orig.recs@[gi]) && w
            == orig.open@[gi],
    ensures
        kept.len() == kept_recs.len(),
        forall|j: int|
            0 <= j < kept.len() ==> #[trigger] kept_src_at(
                orig,
                w_new,
                all,
                gi + 1,
                kept,
                kept_recs,
                j,
            ),
{
    assert forall|j: int|
        0 <= j < kept.len() implies #[trigger] kept_src_at(
        orig,
        w_new,
        all,
        gi + 1,
        kept,
        kept_recs,
        j,
    ) by {
        if j < kept0.len() {
            assert(kept_src_at(orig, w_new, all, gi, kept0, kept_recs0, j));
            let a = choose|a: int|
                #![trigger orig.open@[a]]
                0 <= a < gi && kept0[j] == orig.open@[a] && kept_recs0[j] == orig.recs@[a]
                    && !closes(all, orig.win_start(a), orig.length as int, w_new);
            assert(kept[j] == kept0[j] && kept_recs[j] == kept_recs0[j]);
            assert(kept[j] == orig.open@[a] && kept_recs[j] == orig.recs@[a]);
        } else {
            assert(kept[j] == orig.open@[gi] && kept_recs[j] == orig.recs@[gi]);
        }
    }
}

/// One step of the window-closing pass: every still-open examined window has
/// been kept.
#[verifier::spinoff_prover]
proof fn lemma_step_cmp_kept(
    orig: Engine,
    w_new: int,
    all: bool,
    gi: int,
    close: bool,
    kept0: Seq<OpenWin>,
    kept_recs0: Seq<Seq<RecordV>>,
    kept: Seq<OpenWin>,
    kept_recs: Seq<Seq<RecordV>>,
    w: OpenWin,
)
    requires
        0 <= gi < orig.n(),
        kept0.len() == kept_recs0.len(),
        forall|a: int|
            0 <= a < gi && !closes(all, #[trigger] orig.win_start(a), orig.length as int, w_new)
                ==> kept_cmp_at(orig, kept0, kept_recs0, a),
        close == closes(all, orig.win_start(gi), orig.length as int, w_new),
        close ==> kept == kept0 && kept_recs == kept_recs0,
        !close ==> kept == kept0.push(w) && kept_recs == kept_recs0.push(orig.recs@[gi]) && w
            == orig.open@[gi],
    ensures
        forall|a: int|
            0 <= a < gi + 1 && !closes(all, #[trigger] orig.win_start(a), orig.length as int, w_new)
                ==> kept_cmp_at(orig, kept, kept_recs, a),
{
    assert forall|a: int|
        0 <= a < gi + 1 && !closes(all, #[trigger] orig.win_start(a), orig.length as int, w_new)
        implies kept_cmp_at(orig, kept, kept_recs, a) by {
        if a < gi {
            assert(kept_cmp_at(orig, kept0, kept_recs0, a));
            let j = choose|j: int|
                #![trigger kept0[j]]
                0 <= j < kept0.len() && kept0[j] == orig.open@[a] && kept_recs0[j]
                    == orig.recs@[a];
            assert(kept[j] == kept0[j] && kept_recs[j] == kept_recs0[j]);
            assert(kept[j] == orig.open@[a] && kept_recs[j] == orig.recs@[a]);
        } else {
            assert(!close);
            assert(kept[kept0.len() as int] == orig.open@[a] && kept_recs[kept0.len() as int]
                == orig.recs@[a]);
        }
    }
}

/// One step of the window-closing pass keeps the kept windows in strictly
/// ascending (key, start) order.
#[verifier::spinoff_prover]
proof fn lemma_step_ord_kept(
    orig: Engine,
    w_new: int,
    all: bool,
    gi: int,
    close: bool,
    kept0: Seq<OpenWin>,
    kept_recs0: Seq<Seq<RecordV>>,
    kept: Seq<OpenWin>,
    kept_recs: Seq<Seq<RecordV>>,
    w: OpenWin,
)
    requires
        orig.wf(),
        0 <= gi < orig.n(),
        kept0.len() == kept_recs0.len(),
        forall|j: int|
            0 <= j < kept0.len() ==> #[trigger] kept_src_at(
                orig,
                w_new,
                all,
                gi,
                kept0,
                kept_recs0,
                j,
            ),
        forall|j: int, l: int|
            0 <= j < l < kept0.len() ==> win_before(
                (#[trigger] kept0[j]).key@,
                kept0[j].start as int,
                (#[trigger] kept0[l]).key@,
                kept0[l].start as int,
            ),
        close == closes(all, orig.win_start(gi), orig.length as int, w_new),
        close ==> kept == kept0,
        !close ==> kept == kept0.push(w) && w == orig.open@[gi],
    ensures
        forall|j: int, l: int|
            0 <= j < l < kept.len() ==> win_before(
                (#[trigger] kept[j]).key@,
                kept[j].start as int,
                (#[trigger] kept[l]).key@,
                kept[l].start as int,
            ),
{
    assert forall|j: int, l: int|
        0 <= j < l < kept.len() implies win_before(
        (#[trigger] kept[j]).key@,
        kept[j].start as int,
        (#[trigger] kept[l]).key@,
        kept[l].start as int,
    ) by {
        if l < kept0.len() {
            assert(kept[j] == kept0[j] && kept[l] == kept0[l]);
            assert(win_before(kept0[j].key@, kept0[j].start as int, kept0[l].key@, kept0[l].start
                as int));
        } else {
            assert(kept[j] == kept0[j]);
            assert(kept_src_at(orig, w_new, all, gi, kept0, kept_recs0, j));
            let a = choose|a: int|
                #![trigger orig.open@[a]]
                0 <= a < gi && kept0[j] == orig.open@[a] && kept_recs0[j] == orig.recs@[a]
                    && !closes(all, orig.win_start(a), orig.length as int, w_new);
            assert(win_before(orig.win_key(a), orig.win_start(a), orig.win_key(gi), orig.win_start(
                gi,
            )));
        }
    }
}

/// After the whole pass, the engine rebuilt from the kept windows is well
/// formed.
#[verifier::rlimit(100)]
#[verifier::spinoff_prover]
proof fn lemma_finish_wf(orig: Engine, fin: Engine, w_new: int, all: bool)
    requires
        orig.wf(),
        fin.open@.len() == fin.recs@.len(),
        forall|j: int|
            0 <= j < fin.open@.len() ==> #[trigger] kept_src_at(
                orig,
                w_new,
                all,
                orig.n(),
                fin.open@,
                fin.recs@,
                j,
            ),
        forall|j: int, l: int|
            0 <= j < l < fin.open@.len() ==> win_before(
                (#[trigger] fin.open@[j]).key@,
                fin.open@[j].start as int,
                (#[trigger] fin.open@[l]).key@,
                fin.open@[l].start as int,
            ),
        fin.kind == orig.kind,
        fin.length == orig.length,
        fin.slide == orig.slide,
        fin.total == orig.total,
        all ==> fin.wm == orig.wm,
        !all ==> fin.wm_v() == Some(w_new),
    ensures
        fin.wf(),
{
    let n = orig.n();
    assert forall|j: int|
        0 <= j < fin.n() implies acc_matches(
        fin.kind,
        #[trigger] fin.open@[j].acc,
        fin.recs@[j],
    ) by {
        assert(kept_src_at(orig, w_new, all, n, fin.open@, fin.recs@, j));
        let a = choose|a: int|
            #![trigger orig.open@[a]]
            0 <= a < n && fin.open@[j] == orig.open@[a] && fin.recs@[j] == orig.recs@[a] && !closes(
                all,
                orig.win_start(a),
                orig.length as int,
                w_new,
            );
        assert(acc_matches(orig.kind, orig.open@[a].acc, orig.recs@[a]));
    }
    assert forall|j: int| 0 <= j < fin.n() implies 1 <= #[trigger] fin.recs@[j].len()
        <= fin.total by {
        assert(kept_src_at(orig, w_new, all, n, fin.open@, fin.recs@, j));
        let a = choose|a: int|
            #![trigger orig.open@[a]]
            0 <= a < n && fin.open@[j] == orig.open@[a] && fin.recs@[j] == orig.recs@[a] && !closes(
                all,
                orig.win_start(a),
                orig.length as int,
                w_new,
            );
        assert(1 <= orig.recs@[a].len() <= orig.total);
    }
    assert forall|j: int, l: int|
        0 <= j < fin.n() && 0 <= l < fin.recs@[j].len() implies {
        &&& (#[trigger] fin.recs@[j][l]).bounded()
        &&& fin.recs@[j][l].key == fin.win_key(j)
        &&& fin.recs@[j][l].key.len() > 0
        &&& assigned(fin.recs@[j][l].ts, fin.win_start(j), fin.length as int, fin.slide as int)
    } by {
        assert(kept_src_at(orig, w_new, all, n, fin.open@, fin.recs@, j));
        let a = choose|a: int|
            #![trigger orig.open@[a]]
            0 <= a < n && fin.open@[j] == orig.open@[a] && fin.recs@[j] == orig.recs@[a] && !closes(
                all,
                orig.win_start(a),
                orig.length as int,
                w_new,
            );
        assert((orig.recs@[a][l]).bounded() && orig.recs@[a][l].key == orig.win_key(a)
            && orig.recs@[a][l].key.len() > 0 && assigned(
            orig.recs@[a][l].ts,
            orig.win_start(a),
            orig.length as int,
            orig.slide as int,
        ));
    }
    assert forall|j: int, l: int|
        0 <= j < l < fin.n() implies win_before(
        #[trigger] fin.win_key(j),
        fin.win_start(j),
        #[trigger] fin.win_key(l),
        fin.win_start(l),
    ) by {
        assert(win_before(fin.open@[j].key@, fin.open@[j].start as int, fin.open@[l].key@,
            fin.open@[l].start as int));
    }
    assert forall|j: int|
        0 <= j < fin.n() implies wm_before(
        fin.wm_v(),
        (#[trigger] fin.win_start(j)) + fin.length,
    ) by {
        assert(kept_src_at(orig, w_new, all, n, fin.open@, fin.recs@, j));
        let a = choose|a: int|
            #![trigger orig.open@[a]]
            0 <= a < n && fin.open@[j] == orig.open@[a] && fin.recs@[j] == orig.recs@[a] && !closes(
                all,
                orig.win_start(a),
                orig.length as int,
                w_new,
            );
        if all {
            assert(wm_before(orig.wm_v(), orig.win_start(a) + orig.length));
        }
    }
}

/// After the whole pass, the rebuilt engine presents exactly the still-open
/// windows of the original, each with its routed records untouched.
#[verifier::rlimit(100)]
#[verifier::spinoff_prover]
proof fn lemma_finish_winmap(orig: Engine, fin: Engine, w_new: int, all: bool)
    requires
        orig.wf(),
        fin.wf(),
        fin.open@.len() == fin.recs@.len(),
        forall|j: int|
            0 <= j < fin.open@.len() ==> #[trigger] kept_src_at(
                orig,
                w_new,
                all,
                orig.n(),
                fin.open@,
                fin.recs@,
                j,
            ),
        forall|a: int|
            0 <= a < orig.n() && !closes(all, #[trigger] orig.win_start(a), orig.length as int,
            w_new) ==> kept_cmp_at(orig, fin.open@, fin.recs@, a),
    ensures
        forall|k: Seq<char>, x: int|
            fin.has_win(k, x) <==> (orig.has_win(k, x) && !closes(
                all,
                x,
                orig.length as int,
                w_new,
            )),
        forall|k: Seq<char>, x: int|
            fin.has_win(k, x) ==> #[trigger] fin.win_at(k, x) == orig.win_at(k, x),
{
    let n = orig.n();
    assert forall|k: Seq<char>, x: int|
        fin.has_win(k, x) <==> (orig.has_win(k, x) && !closes(all, x, orig.length as int, w_new)) by {
        if fin.has_win(k, x) {
            let j = fin.idx_of(k, x);
            assert(kept_src_at(orig, w_new, all, n, fin.open@, fin.recs@, j));
            let a = choose|a: int|
                #![trigger orig.open@[a]]
                0 <= a < n && fin.open@[j] == orig.open@[a] && fin.recs@[j] == orig.recs@[a]
                    && !closes(all, orig.win_start(a), orig.length as int, w_new);
            assert(orig.win_key(a) == k && orig.win_start(a) == x);
        }
        if orig.has_win(k, x) && !closes(all, x, orig.length as int, w_new) {
            let a = orig.idx_of(k, x);
            assert(0 <= a < n && !closes(all, orig.win_start(a), orig.length as int, w_new));
            assert(kept_cmp_at(orig, fin.open@, fin.recs@, a));
            let j = choose|j: int|
                #![trigger fin.open@[j]]
                0 <= j < fin.open@.len() && fin.open@[j] == orig.open@[a] && fin.recs@[j]
                    == orig.recs@[a];
            assert(fin.win_key(j) == k && fin.win_start(j) == x);
        }
    }
    assert forall|k: Seq<char>, x: int|
        fin.has_win(k, x) implies #[trigger] fin.win_at(k, x) == orig.win_at(k, x) by {
        let j = fin.idx_of(k, x);
        fin.lemma_win_at(j);
        assert(kept_src_at(orig, w_new, all, n, fin.open@, fin.recs@, j));
        let a = choose|a: int|
            #![trigger orig.open@[a]]
            0 <= a < n && fin.open@[j] == orig.open@[a] && fin.recs@[j] == orig.recs@[a] && !closes(
                all,
                orig.win_start(a),
                orig.length as int,
                w_new,
            );
        orig.lemma_win_at(a);
        assert(orig.win_key(a) == k && orig.win_start(a) == x);
    }
}

/// After the whole pass, the emitted entries are exactly the closed windows,
/// each with the final aggregate of its routed records.
#[verifier::rlimit(100)]
#[verifier::spinoff_prover]
proof fn lemma_finish_out(orig: Engine, w_new: int, all: bool, outs: Seq<Emission>)
    requires
        orig.wf(),
        forall|j: int|
            0 <= j < outs.len() ==> #[trigger] out_src_at(orig, w_new, all, orig.n(), outs, j),
        forall|a: int|
            0 <= a < orig.n() && closes(all, #[trigger] orig.win_start(a), orig.length as int,
            w_new) ==> out_cmp_at(orig, outs, a),
    ensures
        forall|j: int|
            0 <= j < outs.len() ==> {
                &&& orig.has_win((#[trigger] outs[j])@.key, outs[j]@.start)
                &&& closes(all, outs[j]@.start, orig.length as int, w_new)
                &&& outs[j]@.value == finalize_model(
                    orig.kind,
                    orig.win_at(outs[j]@.key, outs[j]@.start),
                )
            },
        forall|k: Seq<char>, x: int|
            orig.has_win(k, x) && closes(all, x, orig.length as int, w_new) ==> exists|j: int|
                0 <= j < outs.len() && #[trigger] outs[j]@.key == k && outs[j]@.start == x,
{
    let n = orig.n();
    assert forall|j: int|
        0 <= j < outs.len() implies {
        &&& orig.has_win((#[trigger] outs[j])@.key, outs[j]@.start)
        &&& closes(all, outs[j]@.start, orig.length as int, w_new)
        &&& outs[j]@.value == finalize_model(orig.kind, orig.win_at(outs[j]@.key, outs[j]@.start))
    } by {
        assert(out_src_at(orig, w_new, all, n, outs, j));
        let a = choose|a: int|
            #![trigger orig.win_key(a)]
            0 <= a < n && orig.win_key(a) == outs[j]@.key && orig.win_start(a) == outs[j]@.start
                && closes(all, orig.win_start(a), orig.length as int, w_new) && outs[j]@.value
                == finalize_model(orig.kind, orig.recs@[a]);
        orig.lemma_win_at(a);
    }
    assert forall|k: Seq<char>, x: int|
        orig.has_win(k, x) && closes(all, x, orig.length as int, w_new) implies exists|j: int|
        0 <= j < outs.len() && #[trigger] outs[j]@.key == k && outs[j]@.start == x by {
        let a = orig.idx_of(k, x);
        assert(0 <= a < n && closes(all, orig.win_start(a), orig.length as int, w_new));
        assert(out_cmp_at(orig, outs, a));
        let j = choose|j: int|
            #![trigger outs[j]]
            0 <= j < outs.len() && outs[j]@.key == orig.win_key(a) && outs[j]@.start
                == orig.win_start(a);
        assert(outs[j]@.key == k && outs[j]@.start == x);
    }
}

} // verus!\n