use vstd::prelude::*;

verus! {

/// The mathematical image of a [`Record`]: the key as a character sequence,
/// the timestamp and the optional measurement as unbounded integers.
pub ghost struct RecordV {
    pub key: Seq<char>,
    pub ts: int,
    pub value: Option<int>,
    pub tag: int,
}

/// One timestamped record flowing through the pipeline.
///
/// `key` routes the record to a per-key substream, `ts` is its timestamp in
/// the time unit of the window policy, `value` is the measurement the
/// aggregations read (absent measurements count as zero), and `tag` lets a
/// caller map an emitted record back to whatever richer datum it stands for.
pub struct Record {
    pub key: String,
    pub ts: i64,
    pub value: Option<i64>,
    pub tag: usize,
}

impl View for Record {
    type V = RecordV;

    open spec fn view(&self) -> RecordV {
        RecordV {
            key: self.key@,
            ts: self.ts as int,
            value: match self.value {
                Some(v) => Some(v as int),
                None => None,
            },
            tag: self.tag as int,
        }
    }
}

impl Clone for Record {
    /// Records are duplicated when one record feeds several window instances.
    fn clone(&self) -> (r: Self)
        ensures
            r@ == self@,
    {
        Record { key: self.key.clone(), ts: self.ts, value: self.value, tag: self.tag }
    }
}

impl RecordV {
    /// The measurement the aggregations fold over: an absent value counts as
    /// zero.
    pub open spec fn extracted(self) -> int {
        match self.value {
            Some(v) => v,
            None => 0,
        }
    }

    /// Records with an empty key never enter the windowing stage.
    pub open spec fn valid_key(self) -> bool {
        self.key.len() > 0
    }

    /// The image of a machine record: timestamp and measurement fit the
    /// machine integer types. Every view of a [`Record`] is bounded.
    pub open spec fn bounded(self) -> bool {
        i64::MIN <= self.ts <= i64::MAX && match self.value {
            Some(v) => i64::MIN <= v <= i64::MAX,
            None => true,
        }
    }
}

/// The key a record is routed by.
pub open spec fn spec_key_of(r: RecordV) -> Seq<char> {
    r.key
}

/// Extracts the routing key of a record.
pub fn key_of(r: &Record) -> (k: String)
    ensures
        k@ == spec_key_of(r@),
{
    r.key.clone()
}

/// Key routing is idempotent: any two runs of the key extractor over the same
/// record yield the same key.
pub proof fn lemma_key_routing_idempotent(r: RecordV, k1: Seq<char>, k2: Seq<char>)
    requires
        k1 == spec_key_of(r),
        k2 == spec_key_of(r),
    ensures
        k1 == k2,
{
}

} // verus!
