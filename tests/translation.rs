use hbase_thrift::hbase::BatchMutation;
use log_ingest::record::{bytes_less, Field, LogRecord};
use log_ingest::translate::{content_key_of, translate, translate_batch, RowKeyPolicy, TranslateConfig};

fn field(name: &str, value: &str) -> Field {
    Field { name: name.as_bytes().to_vec(), value: value.as_bytes().to_vec() }
}

fn record(fields: &[(&str, &str)]) -> LogRecord {
    let fs: Vec<Field> = fields.iter().map(|(n, v)| field(n, v)).collect();
    LogRecord::from_fields(&fs)
}

fn config(policy: RowKeyPolicy) -> TranslateConfig {
    TranslateConfig { column_family: b"data".to_vec(), policy, write_to_wal: true }
}

fn columns(b: &BatchMutation) -> Vec<(Vec<u8>, Vec<u8>)> {
    b.mutations
        .as_ref()
        .unwrap()
        .iter()
        .map(|m| (m.column.clone().unwrap(), m.value.clone().unwrap()))
        .collect()
}

#[test]
fn one_mutation_per_field_with_family() {
    let r = record(&[("msg", "\"hello\""), ("level", "\"info\"")]);
    let b = translate(&config(RowKeyPolicy::StoreAssigned), &r);
    assert_eq!(b.row, None);
    assert_eq!(
        columns(&b),
        vec![
            (b"data:level".to_vec(), b"\"info\"".to_vec()),
            (b"data:msg".to_vec(), b"\"hello\"".to_vec()),
        ]
    );
    for m in b.mutations.as_ref().unwrap() {
        assert_eq!(m.is_delete, Some(false));
        assert_eq!(m.write_to_w_a_l, Some(true));
    }
}

#[test]
fn write_ahead_log_setting_is_carried() {
    let r = record(&[("a", "1")]);
    let cfg = TranslateConfig { column_family: b"cf".to_vec(), policy: RowKeyPolicy::StoreAssigned, write_to_wal: false };
    let b = translate(&cfg, &r);
    let m = &b.mutations.as_ref().unwrap()[0];
    assert_eq!(m.write_to_w_a_l, Some(false));
    assert_eq!(m.column, Some(b"cf:a".to_vec()));
}

#[test]
fn empty_record_has_no_mutations() {
    let r = LogRecord::new();
    let b = translate(&config(RowKeyPolicy::ContentKey), &r);
    assert_eq!(b.mutations, Some(vec![]));
    assert_eq!(b.row, Some(vec![]));
}

#[test]
fn content_key_exact_bytes() {
    let r = record(&[("a", "x")]);
    let key = content_key_of(&r);
    assert_eq!(key, vec![0, 0, 0, 0, 0, 0, 0, 1, b'a', 0, 0, 0, 0, 0, 0, 0, 1, b'x']);
    let b = translate(&config(RowKeyPolicy::ContentKey), &r);
    assert_eq!(b.row, Some(key));
}

#[test]
fn content_key_ignores_field_order() {
    let r1 = record(&[("msg", "\"hello\""), ("level", "\"info\""), ("ts", "17")]);
    let r2 = record(&[("ts", "17"), ("msg", "\"hello\""), ("level", "\"info\"")]);
    let cfg = config(RowKeyPolicy::ContentKey);
    let b1 = translate(&cfg, &r1);
    let b2 = translate(&cfg, &r2);
    assert!(b1.row.is_some());
    assert_eq!(b1.row, b2.row);
    assert_eq!(columns(&b1), columns(&b2));
}

#[test]
fn content_key_differs_for_different_content() {
    let cfg = config(RowKeyPolicy::ContentKey);
    let a = translate(&cfg, &record(&[("msg", "\"hello\"")])).row;
    let b = translate(&cfg, &record(&[("msg", "\"hellp\"")])).row;
    let c = translate(&cfg, &record(&[("ms", "g\"hello\"")])).row;
    let d = translate(&cfg, &record(&[("msg", "\"hello\""), ("x", "1")])).row;
    assert_ne!(a, b);
    assert_ne!(a, c);
    assert_ne!(a, d);
}

#[test]
fn resubmitted_batch_names_same_rows() {
    let cfg = config(RowKeyPolicy::ContentKey);
    let batch = vec![record(&[("a", "1")]), record(&[("b", "2"), ("c", "3")])];
    let first = translate_batch(&cfg, &batch);
    let second = translate_batch(&cfg, &batch);
    assert_eq!(first.len(), 2);
    let rows1: Vec<_> = first.iter().map(|b| b.row.clone()).collect();
    let rows2: Vec<_> = second.iter().map(|b| b.row.clone()).collect();
    assert_eq!(rows1, rows2);
    assert_ne!(rows1[0], rows1[1]);
}

#[test]
fn batch_order_is_kept() {
    let cfg = config(RowKeyPolicy::StoreAssigned);
    let batch = vec![record(&[("z", "1")]), record(&[("a", "2")])];
    let out = translate_batch(&cfg, &batch);
    assert_eq!(columns(&out[0]), vec![(b"data:z".to_vec(), b"1".to_vec())]);
    assert_eq!(columns(&out[1]), vec![(b"data:a".to_vec(), b"2".to_vec())]);
}

#[test]
fn empty_batch_translates_to_nothing() {
    let out = translate_batch(&config(RowKeyPolicy::StoreAssigned), &vec![]);
    assert!(out.is_empty());
}

#[test]
fn later_field_with_same_name_wins() {
    let r = record(&[("k", "1"), ("k", "2")]);
    assert_eq!(r.len(), 1);
    let b = translate(&config(RowKeyPolicy::StoreAssigned), &r);
    assert_eq!(columns(&b), vec![(b"data:k".to_vec(), b"2".to_vec())]);
}

#[test]
fn insert_keeps_names_sorted() {
    let mut r = LogRecord::new();
    r.insert(b"b".to_vec(), b"1".to_vec());
    r.insert(b"a".to_vec(), b"2".to_vec());
    r.insert(b"ab".to_vec(), b"3".to_vec());
    r.insert(b"b".to_vec(), b"4".to_vec());
    let names: Vec<Vec<u8>> = r.fields().iter().map(|f| f.name.clone()).collect();
    assert_eq!(names, vec![b"a".to_vec(), b"ab".to_vec(), b"b".to_vec()]);
    assert_eq!(r.fields()[2].value, b"4".to_vec());
}

#[test]
fn byte_order_is_lexicographic() {
    assert!(bytes_less(&b"a".to_vec(), &b"b".to_vec()));
    assert!(bytes_less(&b"a".to_vec(), &b"ab".to_vec()));
    assert!(bytes_less(&vec![], &b"a".to_vec()));
    assert!(!bytes_less(&b"b".to_vec(), &b"ab".to_vec()));
    assert!(!bytes_less(&b"ab".to_vec(), &b"ab".to_vec()));
}
