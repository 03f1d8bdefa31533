use tsdb::block::Block;
use tsdb::block_index::BlockIndex;
use tsdb::codec::CodecError;
use tsdb::predicate::{dnf_helper, Condition, Conditions, Op, Predicate, Select, Type};
use tsdb::record::Record;
use tsdb::result_set::{execute_select, ResultSet};
use tsdb::store::PackedBlock;

const JAN_1_2024: i64 = 1_704_067_200_000;

fn record(labels: &[(&str, &str)], vars: &[(&str, f64)], ts: i64) -> Record {
    Record::new(
        "cpu".to_string(),
        labels.iter().map(|(k, v)| (k.to_string(), v.to_string())).collect(),
        vars.iter().map(|(k, v)| (k.to_string(), v.to_bits())).collect(),
        ts,
    )
}

fn label(k: &str, v: &str) -> Conditions {
    Conditions::Leaf(Condition {
        lhs: Type::LabelKey(k.to_string()),
        rhs: Type::LabelValue(v.to_string()),
        op: Op::Eq,
    })
}

fn metric(name: &str, op: Op, t: f64) -> Conditions {
    Conditions::Leaf(Condition {
        lhs: Type::Variable(name.to_string()),
        rhs: Type::Metric(t.to_bits()),
        op,
    })
}

fn and(a: Conditions, b: Conditions) -> Conditions {
    Conditions::And(Box::new(a), Box::new(b))
}

fn or(a: Conditions, b: Conditions) -> Conditions {
    Conditions::Or(Box::new(a), Box::new(b))
}

fn select(c: Conditions) -> Select {
    Select {
        name: "q".to_string(),
        predicate: Predicate { name: "p".to_string(), condition: c },
    }
}

fn value(r: &Record, name: &str) -> f64 {
    f64::from_bits(r.get_metric(&name.to_string()).unwrap())
}

#[test]
fn insert_then_label_lookup() {
    let mut block = Block::new();
    let r = record(&[("host", "h0"), ("region", "us-west")], &[("u", 1.0)], JAN_1_2024);
    assert!(block.insert(&r));
    let out = execute_select(select(label("host", "h0")), &block);
    assert_eq!(out.len(), 1);
    assert!(out[0].same_as(&r));
    let none = execute_select(select(label("host", "h1")), &block);
    assert!(none.is_empty());
}

#[test]
fn metric_filter_keeps_greater_values_in_time_order() {
    let mut block = Block::new();
    for (i, u) in [1.0, 2.0, 3.0].iter().enumerate() {
        let r = record(&[("host", "h0"), ("region", "us-west")], &[("u", *u)], JAN_1_2024 + 60_000 * i as i64);
        assert!(block.insert(&r));
    }
    let out = execute_select(select(metric("u", Op::Gt, 1.5)), &block);
    assert_eq!(out.len(), 2);
    assert_eq!(value(&out[0], "u"), 2.0);
    assert_eq!(value(&out[1], "u"), 3.0);
    assert!(out[0].get_timestamp() < out[1].get_timestamp());
}

#[test]
fn dnf_distributes_left_disjunction_first() {
    let (a, b, c, d) = (label("A", "A"), label("B", "B"), label("C", "C"), label("D", "D"));
    let input = and(or(a.clone(), b.clone()), or(c.clone(), d.clone()));
    let expected = or(
        or(and(c.clone(), a.clone()), and(d.clone(), a.clone())),
        or(and(c.clone(), b.clone()), and(d.clone(), b.clone())),
    );
    assert_eq!(dnf_helper(input), expected);
}

#[test]
fn dnf_is_idempotent_on_a_deep_tree() {
    let t = and(and(or(label("A", "A"), label("B", "B")), label("C", "C")), or(label("D", "D"), label("E", "E")));
    let once = dnf_helper(t);
    let twice = dnf_helper(once.clone());
    assert_eq!(once, twice);
}

#[test]
fn conjunction_with_disjunction() {
    let mut block = Block::new();
    let r1 = record(&[("host", "h0"), ("env", "prod")], &[("u", 1.0)], JAN_1_2024);
    let r2 = record(&[("host", "h0"), ("env", "dev")], &[("u", 1.0)], JAN_1_2024 + 1000);
    let r3 = record(&[("host", "h1"), ("env", "prod")], &[("u", 1.0)], JAN_1_2024 + 2000);
    assert!(block.insert(&r1) && block.insert(&r2) && block.insert(&r3));
    let q = and(label("host", "h0"), or(label("env", "prod"), label("env", "dev")));
    let out = execute_select(select(q.clone()), &block);
    assert_eq!(out.len(), 2);
    assert!(out[0].same_as(&r1));
    assert!(out[1].same_as(&r2));
    let normal = execute_select(select(dnf_helper(q)), &block);
    assert_eq!(normal, out);
}

#[test]
fn series_grouped_by_identity_key() {
    let mut block = Block::new();
    let a1 = record(&[("host", "h0")], &[("u", 1.0)], 10);
    let b1 = record(&[("host", "h1")], &[("u", 2.0)], 20);
    let a2 = record(&[("host", "h0")], &[("u", 3.0)], 5);
    assert!(block.insert(&a1) && block.insert(&b1) && block.insert(&a2));
    let storage = block.get_storage();
    assert_eq!(storage.len(), 2);
    let first = storage[0].get_records();
    assert_eq!(first.len(), 2);
    assert!(first[0].same_as(&a1));
    assert!(first[1].same_as(&a2));
    assert_eq!(storage[0].get_key(), a1.get_key());
    assert_eq!(block.start_timestamp, Some(5));
    assert_eq!(block.end_timestamp, Some(20));
}

#[test]
fn identity_key_ignores_label_order_and_values() {
    let r = Record::new(
        "cpu".to_string(),
        vec![("b".to_string(), "2".to_string()), ("a".to_string(), "1".to_string())],
        vec![("y".to_string(), 1.0f64.to_bits()), ("x".to_string(), 2.0f64.to_bits())],
        0,
    );
    assert_eq!(r.get_key(), "cpua1b2xy");
    assert_eq!(r.get_labels(), vec!["a=1".to_string(), "b=2".to_string()]);
    assert_eq!(r.get_metrics(), vec!["x".to_string(), "y".to_string()]);
    let later = Record::new(
        "cpu".to_string(),
        vec![("a".to_string(), "1".to_string()), ("b".to_string(), "2".to_string())],
        vec![("x".to_string(), 9.0f64.to_bits()), ("y".to_string(), 9.0f64.to_bits())],
        7,
    );
    assert_eq!(later.get_key(), r.get_key());
}

#[test]
fn repeated_label_key_keeps_the_last_value() {
    let r = Record::new(
        "m".to_string(),
        vec![("k".to_string(), "1".to_string()), ("k".to_string(), "2".to_string())],
        vec![],
        0,
    );
    assert_eq!(r.get_populated_labels(), vec![("k".to_string(), "2".to_string())]);
}

#[test]
fn search_index_lists_series_with_token() {
    let mut block = Block::new();
    assert!(block.insert(&record(&[("host", "h0")], &[("u", 1.0)], 1)));
    assert!(block.insert(&record(&[("host", "h1")], &[("u", 1.0), ("v", 2.0)], 2)));
    let host0 = block.search_index(&"host=h0".to_string()).unwrap();
    assert_eq!(host0.to_vec(), vec![0]);
    let u = block.search_index(&"u".to_string()).unwrap();
    assert_eq!(u.to_vec(), vec![0, 1]);
    let v = block.search_index(&"v".to_string()).unwrap();
    assert_eq!(v.to_vec(), vec![1]);
    assert!(block.search_index(&"host=h2".to_string()).is_none());
}

#[test]
fn frozen_block_refuses_writes() {
    let mut block = Block::new();
    block.freeze();
    assert!(!block.insert(&record(&[("host", "h0")], &[("u", 1.0)], 1)));
    assert_eq!(block.get_storage().len(), 0);
}

#[test]
fn record_with_other_shape_under_same_key_is_refused() {
    let mut block = Block::new();
    let a = Record::new("ab".to_string(), vec![], vec![("c".to_string(), 0)], 1);
    let b = Record::new("a".to_string(), vec![], vec![("bc".to_string(), 0)], 2);
    assert_eq!(a.get_key(), b.get_key());
    assert!(block.insert(&a));
    assert!(!block.insert(&b));
    assert_eq!(block.get_storage()[0].get_records().len(), 1);
}

#[test]
fn block_round_trips_through_bytes() {
    let mut block = Block::new();
    let r1 = record(&[("host", "h0"), ("region", "us-west")], &[("u", 1.0)], JAN_1_2024);
    let r2 = record(&[("host", "h1")], &[("u", 2.0), ("w", -3.5)], JAN_1_2024 + 5);
    let r3 = record(&[("host", "h0"), ("region", "us-west")], &[("u", 4.0)], JAN_1_2024 - 5);
    assert!(block.insert(&r1) && block.insert(&r2) && block.insert(&r3));
    let bytes = block.to_bytes().unwrap();
    assert!(block.frozen);
    let back = Block::from_bytes(&bytes).unwrap();
    assert_eq!(back.start_timestamp, Some(JAN_1_2024 - 5));
    assert_eq!(back.end_timestamp, Some(JAN_1_2024 + 5));
    assert_eq!(back.id_map, block.id_map);
    assert_eq!(back.get_storage(), block.get_storage());
    let keys: Vec<&String> = back.index.iter().map(|(k, _)| k).collect();
    let orig: Vec<&String> = block.index.iter().map(|(k, _)| k).collect();
    assert_eq!(keys, orig);
    let out = execute_select(select(label("host", "h0")), &back);
    assert_eq!(out.len(), 2);
    assert!(out[0].same_as(&r3));
    assert!(out[1].same_as(&r1));
    let packed = PackedBlock::from_bytes("f.rdb".to_string(), &bytes).unwrap();
    assert_eq!(packed.start_timestamp, Some(JAN_1_2024 - 5));
    assert_eq!(packed.index.len(), block.index.len());
    assert_eq!(packed.unpack(&bytes).unwrap().id_map, block.id_map);
}

#[test]
fn truncated_block_is_corrupt() {
    let mut block = Block::new();
    assert!(block.insert(&record(&[("host", "h0")], &[("u", 1.0)], 1)));
    let bytes = block.to_bytes().unwrap();
    let cut = &bytes[..bytes.len() - 1];
    assert_eq!(Block::from_bytes(cut).err(), Some(CodecError::CorruptBlock));
    assert!(PackedBlock::from_bytes("f".to_string(), cut).is_err());
    assert_eq!(Block::from_bytes(&[]).err(), Some(CodecError::CorruptBlock));
}

#[test]
fn empty_block_has_nothing_to_write() {
    let mut block = Block::new();
    assert_eq!(block.to_bytes().err(), Some(CodecError::EmptyBlock));
}

#[test]
fn header_offsets_are_little_endian_words() {
    let mut block = Block::new();
    assert!(block.insert(&record(&[("host", "h0")], &[("u", 1.0)], 258)));
    let bytes = block.to_bytes().unwrap();
    let word = |i: usize| u64::from_le_bytes(bytes[8 * i..8 * i + 8].try_into().unwrap());
    assert_eq!(word(0), 64);
    assert_eq!(word(1), 72);
    assert_eq!(word(6), bytes.len() as u64);
    assert_eq!(i64::from_le_bytes(bytes[56..64].try_into().unwrap()), 258);
}

#[test]
fn flush_records_block_under_start_time() {
    let mut block = Block::new();
    assert!(block.insert(&record(&[("host", "h0")], &[("u", 1.0)], 42)));
    let mut catalog = BlockIndex::new();
    assert!(catalog.update(&mut block, "blocks/a.rdb".to_string()));
    assert_eq!(catalog.index.get(&42), Some(&vec!["blocks/a.rdb".to_string()]));
    assert_eq!(block.get_storage().len(), 0);
    assert!(block.start_timestamp.is_none());
    catalog.insert(42, "blocks/b.rdb".to_string());
    assert_eq!(catalog.index.get(&42).unwrap().len(), 2);
    let mut empty = Block::new();
    assert!(!catalog.update(&mut empty, "blocks/c.rdb".to_string()));
}

#[test]
fn union_and_intersection_of_unpacked_sets() {
    let mut block = Block::new();
    let r1 = record(&[("host", "h0")], &[("u", 1.0)], 30);
    let r2 = record(&[("host", "h1")], &[("u", 5.0)], 10);
    let r3 = record(&[("host", "h0")], &[("u", 7.0)], 20);
    assert!(block.insert(&r1) && block.insert(&r2) && block.insert(&r3));
    let mut a = label_set(&block, "host", "h0");
    a.unpack(&block);
    assert_eq!(a.data.len(), 2);
    assert!(a.data[0].same_as(&r3) && a.data[1].same_as(&r1));
    let b = Condition { lhs: Type::Variable("u".to_string()), rhs: Type::Metric(4.0f64.to_bits()), op: Op::Gt }
        .eval(&block);
    let both = a.intersection(b, &block);
    assert!(both.unpacked);
    assert_eq!(both.data.len(), 1);
    assert!(both.data[0].same_as(&r3));
    let mut h0 = label_set(&block, "host", "h0");
    h0.unpack(&block);
    let all = h0.union(label_set(&block, "host", "h1"), &block);
    let ts: Vec<i64> = all.data.iter().map(|r| r.get_timestamp()).collect();
    assert_eq!(ts, vec![10, 20, 30]);
    for w in all.data.windows(2) {
        assert!(!w[0].same_as(&w[1]));
    }
}

fn label_set(block: &Block, k: &str, v: &str) -> ResultSet {
    match label(k, v) {
        Conditions::Leaf(c) => c.eval(block),
        _ => unreachable!(),
    }
}

#[test]
fn packed_union_without_filters_stays_packed() {
    let mut block = Block::new();
    assert!(block.insert(&record(&[("host", "h0")], &[("u", 1.0)], 1)));
    assert!(block.insert(&record(&[("host", "h1")], &[("u", 1.0)], 2)));
    let u = label_set(&block, "host", "h0").union(label_set(&block, "host", "h1"), &block);
    assert!(!u.unpacked);
    assert_eq!(u.series.to_vec(), vec![0, 1]);
    let i = label_set(&block, "host", "h0").intersection(label_set(&block, "host", "h1"), &block);
    assert!(!i.unpacked);
    assert!(i.series.to_vec().is_empty());
}

#[test]
fn malformed_leaf_selects_nothing() {
    let mut block = Block::new();
    assert!(block.insert(&record(&[("host", "h0")], &[("u", 1.0)], 1)));
    let bad = Conditions::Leaf(Condition {
        lhs: Type::LabelKey("host".to_string()),
        rhs: Type::Metric(1.0f64.to_bits()),
        op: Op::Eq,
    });
    assert!(execute_select(select(bad), &block).is_empty());
    let neq = Conditions::Leaf(Condition {
        lhs: Type::LabelKey("host".to_string()),
        rhs: Type::LabelValue("h0".to_string()),
        op: Op::NEq,
    });
    assert!(execute_select(select(neq), &block).is_empty());
}

#[test]
fn float_comparisons_on_bit_patterns() {
    let bits = |x: f64| x.to_bits();
    assert!(Op::Eq.compare(bits(0.0), bits(-0.0)));
    assert!(Op::Lt.compare(bits(-2.0), bits(-1.0)));
    assert!(Op::Gt.compare(bits(1.5), bits(-1.5)));
    assert!(Op::GtEq.compare(bits(3.0), bits(3.0)));
    assert!(Op::LtEq.compare(bits(f64::NEG_INFINITY), bits(-1e300)));
    assert!(!Op::Eq.compare(bits(f64::NAN), bits(f64::NAN)));
    assert!(Op::NEq.compare(bits(f64::NAN), bits(1.0)));
    assert!(!Op::Lt.compare(bits(f64::NAN), bits(1.0)));
}

fn sample_bytes() -> Vec<u8> {
    let mut block = Block::new();
    assert!(block.insert(&record(&[("host", "h0")], &[("u", 1.0)], 7)));
    assert!(block.insert(&record(&[("host", "h1")], &[("u", 2.0)], 9)));
    block.to_bytes().unwrap()
}

fn section(bytes: &[u8], k: usize) -> (usize, usize) {
    let word = |i: usize| u64::from_le_bytes(bytes[8 * i..8 * i + 8].try_into().unwrap()) as usize;
    (word(k + 1), word(k + 2))
}

#[test]
fn tampered_fst_section_is_corrupt() {
    let mut bytes = sample_bytes();
    let (lo, hi) = section(&bytes, 1);
    assert!(hi > lo);
    for b in bytes[lo..hi].iter_mut() {
        *b = 0xff;
    }
    assert_eq!(Block::from_bytes(&bytes).err(), Some(CodecError::CorruptBlock));
    assert!(PackedBlock::from_bytes("f".to_string(), &bytes).is_err());
}

#[test]
fn tampered_posting_section_is_corrupt() {
    let mut bytes = sample_bytes();
    let (lo, hi) = section(&bytes, 2);
    let last = hi - 1;
    assert!(last > lo);
    bytes[last] ^= 0x55;
    assert_eq!(Block::from_bytes(&bytes).err(), Some(CodecError::CorruptBlock));
}

#[test]
fn packed_block_holds_written_index() {
    let bytes = sample_bytes();
    let packed = PackedBlock::from_bytes("blocks/p.rdb".to_string(), &bytes).unwrap();
    assert_eq!(packed.filepath, "blocks/p.rdb");
    assert_eq!((packed.start_timestamp, packed.end_timestamp), (Some(7), Some(9)));
    let keys: Vec<&str> = packed.index.iter().map(|(k, _)| k.as_str()).collect();
    assert_eq!(keys, vec!["host=h0", "host=h1", "u"]);
    assert_eq!(packed.index[2].1.to_vec(), vec![0, 1]);
}
