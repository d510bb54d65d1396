use profl::codec::replay;
use profl::counts::label_counts;
use profl::collector::{init, Collector};
use profl::record::Record;
use profl::sketch::{duration_sketch, sketch_rows};
use profl::stats::{group_by_id, is_admitted, mean, min_max, scale_all, Group, Time};

fn rec(x: Option<u64>, y: u64, id: &str, path: &str) -> Record {
    Record::with_duration(x, y, id, path)
}

fn log_of(records: &[Record]) -> Vec<u8> {
    let mut out = Vec::new();
    for r in records {
        out.extend(r.encode());
    }
    out
}

fn same(a: &Record, b: &Record) -> bool {
    a.x == b.x && a.y == b.y && a.id == b.id && a.path == b.path
}

#[test]
fn round_trip_keeps_every_field() {
    let id32 = "i".repeat(32);
    let path64 = "p".repeat(64);
    let cases = vec![
        rec(None, 0, "", ""),
        rec(Some(7), 250, "a", "m::n"),
        rec(Some(u64::MAX), u64::MAX, &id32, &path64),
        rec(Some(251), 65_536, "héllo", "crate::module"),
        rec(None, 4_294_967_296, "x", "y"),
    ];
    for r in &cases {
        let bytes = r.encode();
        let back = replay(&bytes);
        assert!(back.clean);
        assert_eq!(back.records.len(), 1);
        assert!(same(&back.records[0], r));
    }
}

#[test]
fn varint_sizes_follow_the_format() {
    // tag byte, y, then two empty texts of one length byte each
    assert_eq!(rec(None, 250, "", "").encode().len(), 1 + 1 + 2);
    assert_eq!(rec(None, 251, "", "").encode().len(), 1 + 3 + 2);
    assert_eq!(rec(None, 65_535, "", "").encode().len(), 1 + 3 + 2);
    assert_eq!(rec(None, 65_536, "", "").encode().len(), 1 + 5 + 2);
    assert_eq!(rec(None, 4_294_967_296, "", "").encode().len(), 1 + 9 + 2);
    assert_eq!(rec(Some(1), 1, "ab", "c").encode(), vec![1, 1, 1, 2, b'a', b'b', 1, b'c']);
}

#[test]
fn log_of_many_records_replays_in_order() {
    let records: Vec<Record> = (0..100u64).map(|i| rec(Some(i), i * 1000, "span", "p")).collect();
    let back = replay(&log_of(&records));
    assert!(back.clean);
    assert_eq!(back.records.len(), 100);
    for (a, b) in back.records.iter().zip(records.iter()) {
        assert!(same(a, b));
    }
}

#[test]
fn empty_log_ends_cleanly() {
    let back = replay(&[]);
    assert!(back.clean);
    assert!(back.records.is_empty());
}

#[test]
fn truncated_tail_keeps_prior_records() {
    let records = vec![rec(None, 10, "a", "p"), rec(Some(3), 70_000, "b", "q")];
    let mut bytes = log_of(&records);
    let partial = rec(Some(5), 1_000_000, "c", "r").encode();
    for cut in 1..partial.len() {
        let mut damaged = bytes.clone();
        damaged.extend_from_slice(&partial[..cut]);
        let back = replay(&damaged);
        assert!(!back.clean);
        assert_eq!(back.records.len(), 2);
        assert!(same(&back.records[1], &records[1]));
    }
    bytes.extend(partial);
    assert_eq!(replay(&bytes).records.len(), 3);
}

#[test]
fn corruption_stops_the_replay() {
    let mut bytes = log_of(&[rec(None, 1, "a", "p")]);
    bytes.push(9); // no option tag is 9
    bytes.extend(log_of(&[rec(None, 2, "a", "p")]));
    let back = replay(&bytes);
    assert!(!back.clean);
    assert_eq!(back.records.len(), 1);
}

#[test]
fn invalid_utf8_is_corruption() {
    let bytes = vec![0, 5, 1, 0xff, 0];
    let back = replay(&bytes);
    assert!(!back.clean);
    assert!(back.records.is_empty());
}

fn b_ys_of(groups: &[Group]) -> Vec<u64> {
    groups[1].ys.clone()
}

fn ids(groups: &[Group]) -> Vec<String> {
    groups.iter().map(|g| g.id.clone()).collect()
}

#[test]
fn grouping_keeps_arrival_order() {
    let records = vec![rec(None, 3, "b", "p"), rec(None, 1, "a", "p"), rec(None, 2, "b", "p")];
    let groups = group_by_id(&records, &None);
    assert_eq!(ids(&groups), vec!["b".to_string(), "a".to_string()]);
    assert_eq!(groups[0].ys, vec![3, 2]);
    assert_eq!(groups[1].ys, vec![1]);
}

#[test]
fn filter_keeps_intersection() {
    let records = vec![rec(None, 1, "a", "p"), rec(None, 2, "b", "p"), rec(None, 3, "c", "p")];
    let allow = Some(vec!["c".to_string(), "a".to_string(), "zzz".to_string()]);
    let groups = group_by_id(&records, &allow);
    assert_eq!(ids(&groups), vec!["a".to_string(), "c".to_string()]);
    assert!(is_admitted(&allow, &"a".to_string()));
    assert!(!is_admitted(&allow, &"b".to_string()));
    assert!(is_admitted(&None, &"b".to_string()));
    assert!(group_by_id(&records, &Some(vec![])).is_empty());
}

#[test]
fn unit_boundaries() {
    assert_eq!(Time(999).get_div_and_postfix(), ("nanos", 1));
    assert_eq!(Time(0).get_div_and_postfix(), ("nanos", 1));
    assert_eq!(Time(1_000).get_div_and_postfix(), ("micros", 1_000));
    assert_eq!(Time(999_999).get_div_and_postfix(), ("micros", 1_000));
    assert_eq!(Time(1_000_000).get_div_and_postfix(), ("millis", 1_000_000));
    assert_eq!(Time(999_999_999).get_div_and_postfix(), ("millis", 1_000_000));
    assert_eq!(Time(1_000_000_000).get_div_and_postfix(), ("sec", 1_000_000_000));
    assert_eq!(Time(u64::MAX).get_div_and_postfix().0, "sec");
    assert_eq!(Time(2_500_000).scaled(), 2);
}

#[test]
fn mean_and_scaling() {
    assert_eq!(mean(&vec![1, 2]), 1);
    assert_eq!(mean(&vec![u64::MAX, u64::MAX]), u64::MAX);
    assert_eq!(scale_all(&vec![1_000, 2_999, 5], 1_000), vec![1, 2, 0]);
}

#[test]
fn end_to_end_two_groups() {
    let records = vec![rec(None, 1_000_000, "a", "m"), rec(None, 2_000_000, "a", "m"), rec(None, 500, "b", "m")];
    let back = replay(&log_of(&records));
    assert!(back.clean);
    let groups = group_by_id(&back.records, &None);
    assert_eq!(groups.len(), 2);
    let a = &groups[0];
    assert_eq!(a.id, "a");
    assert_eq!(mean(&a.ys), 1_500_000);
    assert_eq!(Time(mean(&a.ys)).get_div_and_postfix(), ("millis", 1_000_000));
    assert_eq!(min_max(&a.ys), (1_000_000, 2_000_000));
    assert_eq!(min_max(&b_ys_of(&groups)), (500, 500));
    let b = &groups[1];
    assert_eq!(b.id, "b");
    assert_eq!(b.ys, vec![500]);
    assert_eq!(Time(mean(&b.ys)).get_div_and_postfix(), ("nanos", 1));
}

#[test]
fn collector_initialises_once() {
    let mut c = Collector::new();
    assert!(!c.active());
    assert_eq!(c.add_record(rec(None, 1, "dropped", "p")), None);
    let (tx, rx) = crossbeam_channel::unbounded();
    assert!(init(&mut c, tx));
    assert!(c.active());
    let (tx2, rx2) = crossbeam_channel::unbounded();
    assert!(!init(&mut c, tx2));
    assert_eq!(c.add_record(rec(Some(4), 42, "kept", "p")), Some(true));
    let got = rx.try_recv().expect("record sent to the first channel");
    assert_eq!(got.y, 42);
    assert_eq!(got.id, "kept");
    assert!(rx.try_recv().is_err());
    assert!(rx2.try_recv().is_err());
    drop(rx);
    assert_eq!(c.add_record(rec(None, 5, "closed", "p")), Some(false));
}

#[test]
fn full_channel_drops_without_blocking() {
    let mut c = Collector::new();
    let (tx, rx) = crossbeam_channel::bounded(1);
    assert!(init(&mut c, tx));
    assert_eq!(c.add_record(rec(None, 1, "first", "p")), Some(true));
    assert_eq!(c.add_record(rec(None, 2, "second", "p")), Some(false));
    assert_eq!(rx.try_recv().unwrap().y, 1);
    assert!(rx.try_recv().is_err());
}

#[test]
fn elapsed_record_keeps_labels() {
    let start = std::time::Instant::now();
    let r = Record::new(&start, Some(3), "tick", "mod::path");
    assert_eq!(r.x, Some(3));
    assert_eq!(r.id, "tick");
    assert_eq!(r.path, "mod::path");
}


#[test]
fn min_max_of_unordered_values() {
    assert_eq!(min_max(&vec![5, 3, 9, 3, 7]), (3, 9));
    assert_eq!(min_max(&vec![u64::MAX]), (u64::MAX, u64::MAX));
}

#[test]
fn default_collector_is_inactive() {
    let c = Collector::default();
    assert!(!c.active());
    assert_eq!(c.add_record(rec(None, 1, "x", "p")), None);
}

#[test]
fn sketch_stops_after_p95_bucket() {
    // cumulative shares: 50%, 90%, 96%, 100%
    let b = vec![(999, 50), (1_999, 40), (2_999, 6), (3_999, 4)];
    let rows = sketch_rows(&b, 100);
    assert_eq!(rows, vec![(1, 20), (2, 16), (3, 3)]);
}

#[test]
fn sketch_keeps_every_bucket_below_p95() {
    let b = vec![(u64::MAX, 1), (10, 0)];
    assert_eq!(sketch_rows(&b, 1_000), vec![(18_446_744_073_709_551, 1), (0, 0)]);
    assert_eq!(sketch_rows(&vec![], 5), vec![]);
}

#[test]
fn sketch_of_exactly_95_percent_goes_on() {
    let b = vec![(0, 95), (1, 5)];
    assert_eq!(sketch_rows(&b, 100), vec![(0, 38), (0, 2)]);
}

#[test]
fn duration_sketch_of_samples() {
    assert_eq!(duration_sketch(&vec![]), None);
    let rows = duration_sketch(&vec![1_000_000, 2_000_000, 500]).expect("sketch");
    assert!(!rows.is_empty());
    assert!(rows.iter().all(|r| r.1 <= 40));
}

#[test]
fn label_counts_by_descending_count() {
    let records = vec![
        rec(None, 1, "a", "p"),
        rec(None, 1, "b", "p"),
        rec(None, 1, "c", "p"),
        rec(None, 1, "b", "p"),
        rec(None, 1, "c", "p"),
        rec(None, 1, "c", "p"),
        rec(None, 1, "d", "p"),
    ];
    let counts: Vec<(String, usize)> = label_counts(&records).into_iter().map(|e| (e.id, e.count)).collect();
    assert_eq!(
        counts,
        vec![("c".to_string(), 3), ("b".to_string(), 2), ("a".to_string(), 1), ("d".to_string(), 1)]
    );
    assert!(label_counts(&vec![]).is_empty());
}
