use winagg::agg::{AggValue, Kind};
use winagg::compose::over_threshold;
use winagg::engine::{Emission, Engine};
use winagg::record::Record;
use winagg::watermark::EventStamper;

fn rec(key: &str, ts: i64, value: Option<i64>, tag: usize) -> Record {
    Record { key: key.to_string(), ts, value, tag }
}

#[test]
fn no_early_emission() {
    let mut eng = Engine::new(Kind::Count, 10, 5);
    eng.on_record(&rec("A", 3, None, 0));
    let out = eng.advance(5);
    assert!(out.is_empty());
    let out = eng.advance(9);
    assert!(out.is_empty());
    assert_eq!(eng.open.len(), 1);
    let out = eng.advance(10);
    assert_eq!(out.len(), 1);
}

#[test]
fn watermark_close_scenario() {
    let mut eng = Engine::new(Kind::MaxByValue, 10, 5);
    eng.on_record(&rec("A", 1, Some(10), 0));
    eng.on_record(&rec("A", 5, Some(20), 1));
    eng.on_record(&rec("B", 3, Some(5), 2));
    let out = eng.advance(10);
    assert_eq!(out.len(), 2);
    assert_eq!(out[0].key, "A");
    assert_eq!(out[0].start, 0);
    match &out[0].value {
        AggValue::Best(r) => {
            assert_eq!(r.value, Some(20));
            assert_eq!(r.tag, 1);
        },
        _ => panic!("expected a best record"),
    }
    assert_eq!(out[1].key, "B");
    assert_eq!(out[1].start, 0);
    match &out[1].value {
        AggValue::Best(r) => {
            assert_eq!(r.value, Some(5));
            assert_eq!(r.tag, 2);
        },
        _ => panic!("expected a best record"),
    }
    let rest = eng.flush();
    assert_eq!(rest.len(), 1);
    assert_eq!(rest[0].key, "A");
    assert_eq!(rest[0].start, 5);
}

#[test]
fn flush_emits_every_open_window_once() {
    let mut eng = Engine::new(Kind::Count, 10, 5);
    eng.on_record(&rec("B", 7, None, 0));
    eng.on_record(&rec("A", 2, None, 1));
    eng.on_record(&rec("A", 7, None, 2));
    let open_before = eng.open.len();
    assert_eq!(open_before, 4);
    let out = eng.flush();
    assert_eq!(out.len(), open_before);
    assert_eq!(eng.open.len(), 0);
    let pairs: Vec<(String, i64)> = out.iter().map(|e| (e.key.clone(), e.start)).collect();
    assert_eq!(
        pairs,
        vec![
            ("A".to_string(), 0),
            ("A".to_string(), 5),
            ("B".to_string(), 0),
            ("B".to_string(), 5),
        ]
    );
}

#[test]
fn late_record_is_dropped() {
    let mut eng = Engine::new(Kind::Count, 10, 5);
    eng.on_record(&rec("A", 3, None, 0));
    eng.advance(10);
    let total_before = eng.total;
    let open_before = eng.open.len();
    eng.on_record(&rec("A", 7, None, 1));
    assert_eq!(eng.total, total_before);
    assert_eq!(eng.open.len(), open_before);
    eng.on_record(&rec("A", 11, None, 2));
    assert_eq!(eng.total, total_before + 1);
}

#[test]
fn advance_never_regresses() {
    let mut eng = Engine::new(Kind::Count, 10, 5);
    eng.advance(10);
    eng.advance(4);
    eng.on_record(&rec("A", 7, None, 0));
    assert_eq!(eng.total, 0);
    eng.on_record(&rec("A", 11, None, 1));
    assert_eq!(eng.total, 1);
}

#[test]
fn average_is_exact_sum_and_count() {
    let mut eng = Engine::new(Kind::Average, 10, 10);
    eng.on_record(&rec("A", 2, Some(10), 0));
    eng.on_record(&rec("A", 4, Some(20), 1));
    eng.on_record(&rec("A", 6, None, 2));
    let out = eng.flush();
    assert_eq!(out.len(), 1);
    match out[0].value {
        AggValue::Avg { sum, count } => {
            assert_eq!(sum, 30);
            assert_eq!(count, 3);
        },
        _ => panic!("expected an average"),
    }
}

#[test]
fn max_tie_keeps_first_seen() {
    let mut eng = Engine::new(Kind::MaxByValue, 10, 10);
    eng.on_record(&rec("A", 1, Some(7), 4));
    eng.on_record(&rec("A", 2, Some(7), 9));
    let out = eng.flush();
    assert_eq!(out.len(), 1);
    match &out[0].value {
        AggValue::Best(r) => assert_eq!(r.tag, 4),
        _ => panic!("expected a best record"),
    }
}

fn count_of(e: &Emission) -> u64 {
    match e.value {
        AggValue::Count(c) => c,
        _ => panic!("expected a count"),
    }
}

#[test]
fn threshold_composition_scenario() {
    // first pass: per-lane counts over one tumbling instant.
    let mut counts = Engine::new(Kind::Count, 1, 1);
    for i in 0..60 {
        counts.on_record(&rec("X", 0, None, i));
    }
    for i in 0..40 {
        counts.on_record(&rec("Y", 0, None, 60 + i));
    }
    let first = counts.flush();
    assert_eq!(first.len(), 2);
    assert_eq!(count_of(&first[0]), 60);
    assert_eq!(count_of(&first[1]), 40);
    // threshold filter: lanes over 50 survive, the rest never emit.
    let kept = over_threshold(first, 50);
    assert_eq!(kept.len(), 1);
    assert_eq!(kept[0].key, "X");
    // second-level window pass: max of the surviving counts per lane.
    let mut second = Engine::new(Kind::MaxByValue, 30, 5);
    for (i, e) in kept.iter().enumerate() {
        let c = count_of(e);
        second.on_record(&rec(&e.key, 0, Some(c as i64), i));
    }
    let out = second.flush();
    assert_eq!(out.len(), 1);
    assert_eq!(out[0].key, "X");
    match &out[0].value {
        AggValue::Best(r) => assert_eq!(r.value, Some(60)),
        _ => panic!("expected a best record"),
    }
}

#[test]
fn threshold_keeps_order_and_drops_below() {
    let mut counts = Engine::new(Kind::Count, 1, 1);
    for i in 0..3 {
        counts.on_record(&rec("a", 0, None, i));
    }
    counts.on_record(&rec("b", 0, None, 3));
    for i in 0..2 {
        counts.on_record(&rec("c", 0, None, 4 + i));
    }
    let first = counts.flush();
    let kept = over_threshold(first, 1);
    let pairs: Vec<(String, u64)> = kept.iter().map(|e| (e.key.clone(), count_of(e))).collect();
    assert_eq!(pairs, vec![("a".to_string(), 3), ("c".to_string(), 2)]);
}

#[test]
fn stamper_counts_from_one() {
    let mut s = EventStamper::new();
    assert_eq!(s.next_ts(100), 101);
    assert_eq!(s.next_ts(100), 102);
    assert_eq!(s.next_ts(50), 53);
    assert_eq!(s.count, 3);
}

#[test]
fn event_time_pipeline_with_stamper() {
    // the event-time query wiring: stamped timestamps, a watermark every
    // tenth record, windows closing as the watermark passes them.
    let mut stamper = EventStamper::new();
    let mut gen = winagg::watermark::WatermarkGen::new();
    let mut eng = Engine::new(Kind::MaxByValue, 10, 5);
    let mut emitted: Vec<Emission> = Vec::new();
    for i in 0..20u32 {
        let lane = if i % 2 == 0 { "L1" } else { "L2" };
        let ts = stamper.next_ts(0);
        let r = rec(lane, ts, Some(i as i64), i as usize);
        eng.on_record(&r);
        if let Some(w) = gen.observe(ts) {
            emitted.extend(eng.advance(w));
        }
    }
    emitted.extend(eng.flush());
    // every emission carries the greatest measurement of its window.
    assert!(!emitted.is_empty());
    for e in &emitted {
        match &e.value {
            AggValue::Best(r) => {
                assert_eq!(&e.key, &r.key);
                assert!(e.start <= r.ts && r.ts < e.start + 10);
            },
            _ => panic!("expected a best record"),
        }
    }
}
