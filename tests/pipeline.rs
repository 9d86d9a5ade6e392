use untar_hdfs::format::DecompressionFormat;
use untar_hdfs::manifest::{Config, FileEntry, Manifest};
use untar_hdfs::pipeline::{EntryPlan, ProcessError, RunState, Throttle, UploadTally};

fn config(entries: &[(&str, u64)]) -> Config {
    Config::from_manifest(Manifest {
        file: entries
            .iter()
            .map(|(n, s)| FileEntry { filename: n.to_string(), filesize: *s })
            .collect(),
    })
}

#[test]
fn expected_size_lookup() {
    let c = config(&[("a.txt", 100), ("b.txt", 50), ("a.txt", 7)]);
    assert_eq!(c.get_expected_size("a.txt"), Some(7));
    assert_eq!(c.get_expected_size("b.txt"), Some(50));
    assert_eq!(c.get_expected_size("c.txt"), None);
}

#[test]
fn end_to_end_missing_file() {
    let c = config(&[("a.txt", 100), ("b.txt", 50)]);
    let mut run = RunState::new();
    let plan = run.plan_entry(&c, "a.txt.gz");
    assert_eq!(
        plan,
        EntryPlan::Upload { target_name: "a.txt".to_string(), expected_size: 100, format: DecompressionFormat::Gzip }
    );
    let mut tally = UploadTally::new(100);
    tally.record(60);
    tally.record(40);
    assert_eq!(tally.finish("a.txt"), Ok(()));
    assert_eq!(run.plan_entry(&c, "c.txt"), EntryPlan::Skip);
    assert_eq!(run.seen, vec!["a.txt".to_string()]);
    assert_eq!(
        run.check_all_present(&c),
        Err(ProcessError::MissingInArchive { name: "b.txt".to_string() })
    );
}

#[test]
fn all_present_passes() {
    let c = config(&[("a.txt", 1), ("b.txt", 2)]);
    let mut run = RunState::new();
    assert!(matches!(run.plan_entry(&c, "b.txt.Z"), EntryPlan::Upload { format: DecompressionFormat::UnixCompress, .. }));
    assert!(matches!(run.plan_entry(&c, "a.txt"), EntryPlan::Upload { format: DecompressionFormat::Plain, .. }));
    assert_eq!(run.check_all_present(&c), Ok(()));
}

#[test]
fn size_off_by_one_is_mismatch() {
    let mut t = UploadTally::new(100);
    t.record(99);
    assert_eq!(
        t.finish("x"),
        Err(ProcessError::SizeMismatch { name: "x".to_string(), expected: 100, actual: 99 })
    );
    t.record(2);
    assert_eq!(
        t.finish("x"),
        Err(ProcessError::SizeMismatch { name: "x".to_string(), expected: 100, actual: 101 })
    );
    let t = UploadTally::new(0);
    assert_eq!(t.finish("empty"), Ok(()));
}

#[test]
fn throttle_keeps_two_in_flight() {
    let mut t = Throttle::new(2);
    let mut awaited = Vec::new();
    for id in 0..5u64 {
        assert!(t.pending.len() + 1 <= 2);
        if let Some(old) = t.enqueue(id) {
            awaited.push(old);
        }
        assert!(t.pending.len() < 2);
    }
    assert_eq!(awaited, vec![0, 1, 2, 3]);
    assert_eq!(t.pop_oldest(), Some(4));
    assert_eq!(t.pop_oldest(), None);
}
