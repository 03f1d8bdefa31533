use tsdb::bitmap::BitmapWrapper;
use tsdb::block_index::{flush_due, BlockIndex, FLUSH_FREQUENCY};
use tsdb::predicate::Type;

#[test]
fn bitmap_writer_takes_bytes_as_ids() {
    let mut w = BitmapWrapper::new();
    assert_eq!(w.write(&[3, 1, 3, 200]), 4);
    w.flush();
    assert_eq!(w.bitmap.to_vec(), vec![1, 3, 200]);
}

#[test]
fn catalog_round_trips_through_bytes() {
    let mut c = BlockIndex::new();
    c.insert(5, "blocks/x.rdb".to_string());
    c.insert(-3, "blocks/y.rdb".to_string());
    c.insert(5, "blocks/z.rdb".to_string());
    let bytes = c.to_bytes().unwrap();
    assert!(!bytes.is_empty());
    let back = BlockIndex::from_bytes(&bytes).unwrap();
    assert_eq!(back.index, c.index);
    assert_eq!(back.index.get(&5).unwrap(), &vec!["blocks/x.rdb".to_string(), "blocks/z.rdb".to_string()]);
    assert!(BlockIndex::from_bytes(&[1, 2, 3]).is_none());
}

#[test]
fn flush_is_due_every_flush_frequency_writes() {
    assert_eq!(FLUSH_FREQUENCY, 50000);
    assert!(!flush_due(1));
    assert!(!flush_due(49_999));
    assert!(flush_due(50_000));
    assert!(flush_due(100_000));
    assert!(!flush_due(100_001));
}

#[test]
fn metric_atom_holds_its_threshold() {
    let t = Type::Metric(6.0f64.to_bits());
    assert!(t.is_metric() && !t.is_variable());
    assert_eq!(f64::from_bits(t.extract_metric()), 6.0);
    assert!(Type::LabelKey("k".to_string()).is_labelkey());
    assert!(Type::LabelValue("v".to_string()).is_labelvalue());
}
