use winagg::agg::Kind;
use winagg::engine::Engine;
use winagg::record::Record;
use winagg::watermark::WatermarkGen;
use winagg::window::assign;

fn rec(key: &str, ts: i64, value: Option<i64>, tag: usize) -> Record {
    Record { key: key.to_string(), ts, value, tag }
}

#[test]
fn assign_overlapping_instances() {
    assert_eq!(assign(7, 10, 5), vec![0, 5]);
    assert_eq!(assign(12, 10, 5), vec![5, 10]);
}

#[test]
fn assign_tumbling_single_instance() {
    assert_eq!(assign(12, 5, 5), vec![10]);
}

#[test]
fn assign_gap_drops_record() {
    assert_eq!(assign(5, 3, 10), Vec::<i64>::new());
    assert_eq!(assign(11, 3, 10), vec![10]);
}

#[test]
fn assign_negative_timestamp_has_no_instance() {
    assert_eq!(assign(-1, 10, 5), Vec::<i64>::new());
}

#[test]
fn watermark_every_tenth_observation() {
    let mut g = WatermarkGen::new();
    for ts in 1..=9 {
        assert_eq!(g.observe(ts), None);
    }
    assert_eq!(g.observe(10), Some(10));
}

#[test]
fn watermark_never_regresses() {
    let mut g = WatermarkGen::new();
    for ts in 1..=10 {
        g.observe(ts);
    }
    let mut last = 10;
    for ts in [5, 4, 3, 2, 1, 0, -1, -2, -3, -4] {
        if let Some(w) = g.observe(ts) {
            assert!(w >= last);
            last = w;
        }
    }
    assert_eq!(last, 10);
}

#[test]
fn engine_creates_windows_lazily_and_sorted() {
    let mut eng = Engine::new(Kind::Count, 10, 5);
    eng.on_record(&rec("A", 3, None, 0));
    assert_eq!(eng.open.len(), 1);
    assert_eq!(eng.open[0].start, 0);
    eng.on_record(&rec("A", 3, None, 1));
    assert_eq!(eng.open.len(), 1);
    eng.on_record(&rec("A", 7, None, 2));
    assert_eq!(eng.open.len(), 2);
    eng.on_record(&rec("B", 3, None, 3));
    assert_eq!(eng.open.len(), 3);
    let pairs: Vec<(String, i64)> =
        eng.open.iter().map(|w| (w.key.clone(), w.start)).collect();
    assert_eq!(
        pairs,
        vec![("A".to_string(), 0), ("A".to_string(), 5), ("B".to_string(), 0)]
    );
    assert_eq!(eng.total, 4);
}

#[test]
fn engine_counts_accepted_records() {
    let mut eng = Engine::new(Kind::Count, 10, 5);
    for i in 0..6 {
        eng.on_record(&rec("L", 2, Some(i), i as usize));
    }
    assert_eq!(eng.total, 6);
    assert_eq!(eng.open.len(), 1);
}

#[test]
fn key_routing_is_stable() {
    let r = rec("lane42", 7, Some(3), 0);
    assert_eq!(winagg::record::key_of(&r), "lane42".to_string());
    assert_eq!(winagg::record::key_of(&r), winagg::record::key_of(&r));
}
