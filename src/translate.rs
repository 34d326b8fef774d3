//! Translation of log records into row mutations of the column store.
//!
//! Each field becomes one "set" mutation on the column `family:name`.
//! The row of a record is chosen by a [`RowKeyPolicy`]: either left to the
//! store, or derived from the record's full content. A content key is the
//! record's fields in ascending name order, each name and value preceded by
//! its length as eight big-endian bytes. Equal records get equal keys, so a
//! resubmitted record overwrites its row instead of adding one, and different
//! records get different keys, with no chance of a collision; the price is a
//! key as long as the record itself.

use vstd::prelude::*;
use crate::record::{copy_bytes, Field, LogRecord};
use hbase_thrift::hbase::{BatchMutation, Mutation};

verus! {

/// hbase_thrift's column mutation, with its public fields visible.
#[verifier::external_type_specification]
pub struct ExMutation(Mutation);

/// hbase_thrift's row mutation, with its public fields visible.
#[verifier::external_type_specification]
pub struct ExBatchMutation(BatchMutation);

/// How the row of a record is identified. It is chosen once, at startup.
pub enum RowKeyPolicy {
    /// No row key is sent; the store's own row assignment applies. Simple,
    /// but a resubmitted record is stored again.
    StoreAssigned,
    /// The row key is the record's content key: resubmission is idempotent.
    ContentKey,
}

/// The process-wide settings that translation depends on.
pub struct TranslateConfig {
    /// The column family that every field is written to.
    pub column_family: Vec<u8>,
    pub policy: RowKeyPolicy,
    /// Whether the store logs each mutation before applying it. Turning it
    /// off trades durability on a crash for write throughput.
    pub write_to_wal: bool,
}

/// The separator between column family and qualifier.
pub const COLUMN_SEPARATOR: u8 = 58;

/// The column that field `name` is written to.
pub open spec fn column_of(family: Seq<u8>, name: Seq<u8>) -> Seq<u8> {
    family + seq![COLUMN_SEPARATOR] + name
}

/// `m` sets column `family:name` to `value`.
pub open spec fn sets_column(m: Mutation, family: Seq<u8>, wal: bool, name: Seq<u8>, value: Seq<u8>) -> bool {
    &&& m.is_delete == Some(false)
    &&& m.write_to_w_a_l == Some(wal)
    &&& m.column is Some
    &&& m.column->0@ == column_of(family, name)
    &&& m.value is Some
    &&& m.value->0@ == value
}

/// `n` as eight bytes, most significant first.
pub open spec fn be64(n: nat) -> Seq<u8> {
    seq![
        (n / 0x100000000000000 % 256) as u8,
        (n / 0x1000000000000 % 256) as u8,
        (n / 0x10000000000 % 256) as u8,
        (n / 0x100000000 % 256) as u8,
        (n / 0x1000000 % 256) as u8,
        (n / 0x10000 % 256) as u8,
        (n / 0x100 % 256) as u8,
        (n % 256) as u8,
    ]
}

/// A byte string preceded by its length.
pub open spec fn framed(b: Seq<u8>) -> Seq<u8> {
    be64(b.len()) + b
}

/// The content key of a name-sorted sequence of fields.
pub open spec fn content_key(s: Seq<(Seq<u8>, Seq<u8>)>) -> Seq<u8>
    decreases s.len(),
{
    if s.len() == 0 {
        Seq::empty()
    } else {
        content_key(s.drop_last()) + framed(s.last().0) + framed(s.last().1)
    }
}

/// The content key of a record.
pub open spec fn row_key_of(r: LogRecord) -> Seq<u8> {
    content_key(r.entries())
}

/// `b` is the translation of `r` under `cfg`: one mutation per field, in the
/// record's field order, and the row the policy gives.
pub open spec fn translates_to(cfg: TranslateConfig, r: LogRecord, b: BatchMutation) -> bool {
    let e = r.entries();
    &&& b.mutations is Some
    &&& b.mutations->0.len() == e.len()
    &&& forall|i: int| 0 <= i < e.len() ==> #[trigger] sets_column(b.mutations->0[i], cfg.column_family@, cfg.write_to_wal, e[i].0, e[i].1)
    &&& match cfg.policy {
        RowKeyPolicy::StoreAssigned => b.row is None,
        RowKeyPolicy::ContentKey => b.row is Some && b.row->0@ == row_key_of(r),
    }
}

fn append_bytes(dst: &mut Vec<u8>, src: &Vec<u8>)
    ensures
        final(dst)@ == old(dst)@ + src@,
{
    let mut i: usize = 0;
    while i < src.len()
        invariant
            i <= src.len(),
            dst@ == old(dst)@ + src@.take(i as int),
        decreases src.len() - i,
    {
        dst.push(src[i]);
        i = i + 1;
        assert(dst@ =~= old(dst)@ + src@.take(i as int));
    }
    assert(src@.take(i as int) =~= src@);
}

/// Appends `b` preceded by its length as eight big-endian bytes.
fn append_framed(dst: &mut Vec<u8>, b: &Vec<u8>)
    ensures
        final(dst)@ == old(dst)@ + framed(b@),
{
    let n: u64 = b.len() as u64;
    dst.push((n / 0x100000000000000 % 256) as u8);
    dst.push((n / 0x1000000000000 % 256) as u8);
    dst.push((n / 0x10000000000 % 256) as u8);
    dst.push((n / 0x100000000 % 256) as u8);
    dst.push((n / 0x1000000 % 256) as u8);
    dst.push((n / 0x10000 % 256) as u8);
    dst.push((n / 0x100 % 256) as u8);
    dst.push((n % 256) as u8);
    assert(dst@ =~= old(dst)@ + be64(b@.len()));
    append_bytes(dst, b);
    assert(dst@ =~= old(dst)@ + framed(b@));
}

/// The content key of `record`.
pub fn content_key_of(record: &LogRecord) -> (r: Vec<u8>)
    requires
        record.wf(),
    ensures
        r@ == row_key_of(*record),
{
    let fields = record.fields();
    let ghost e = record.entries();
    let mut key: Vec<u8> = Vec::new();
    let mut i: usize = 0;
    while i < fields.len()
        invariant
            i <= fields.len(),
            fields@.map_values(|f: Field| f.pair()) == e,
            key@ == content_key(e.take(i as int)),
        decreases fields.len() - i,
    {
        assert(e.take(i + 1).drop_last() =~= e.take(i as int));
        assert(e[i as int] == fields@[i as int].pair());
        append_framed(&mut key, &fields[i].name);
        append_framed(&mut key, &fields[i].value);
        i = i + 1;
    }
    assert(e.take(i as int) =~= e);
    key
}

/// Translates one record into the row mutation that writes it.
pub fn translate(cfg: &TranslateConfig, record: &LogRecord) -> (r: BatchMutation)
    requires
        record.wf(),
    ensures
        translates_to(*cfg, *record, r),
{
    let fields = record.fields();
    let ghost e = record.entries();
    let mut ms: Vec<Mutation> = Vec::with_capacity(fields.len());
    let mut i: usize = 0;
    while i < fields.len()
        invariant
            i <= fields.len(),
            fields@.map_values(|f: Field| f.pair()) == e,
            ms@.len() == i,
            forall|j: int| 0 <= j < i ==> #[trigger] sets_column(ms@[j], cfg.column_family@, cfg.write_to_wal, e[j].0, e[j].1),
        decreases fields.len() - i,
    {
        assert(e[i as int] == fields@[i as int].pair());
        let mut column = copy_bytes(&cfg.column_family);
        column.push(COLUMN_SEPARATOR);
        append_bytes(&mut column, &fields[i].name);
        assert(column@ =~= column_of(cfg.column_family@, e[i as int].0));
        let m = Mutation {
            is_delete: Some(false),
            column: Some(column),
            value: Some(copy_bytes(&fields[i].value)),
            write_to_w_a_l: Some(cfg.write_to_wal),
        };
        assert(sets_column(m, cfg.column_family@, cfg.write_to_wal, e[i as int].0, e[i as int].1));
        ms.push(m);
        i = i + 1;
    }
    let row = match cfg.policy {
        RowKeyPolicy::StoreAssigned => None,
        RowKeyPolicy::ContentKey => Some(content_key_of(record)),
    };
    BatchMutation { row, mutations: Some(ms) }
}

/// Translates a batch, record by record, keeping the batch order.
pub fn translate_batch(cfg: &TranslateConfig, batch: &Vec<LogRecord>) -> (r: Vec<BatchMutation>)
    requires
        forall|i: int| 0 <= i < batch@.len() ==> #[trigger] batch@[i].wf(),
    ensures
        r@.len() == batch@.len(),
        forall|i: int| 0 <= i < batch@.len() ==> #[trigger] translates_to(*cfg, batch@[i], r@[i]),
{
    let mut out: Vec<BatchMutation> = Vec::with_capacity(batch.len());
    let mut i: usize = 0;
    while i < batch.len()
        invariant
            i <= batch.len(),
            out@.len() == i,
            forall|j: int| 0 <= j < batch@.len() ==> #[trigger] batch@[j].wf(),
            forall|j: int| 0 <= j < i ==> #[trigger] translates_to(*cfg, batch@[j], out@[j]),
        decreases batch.len() - i,
    {
        out.push(translate(cfg, &batch[i]));
        i = i + 1;
    }
    out
}

proof fn lemma_be64_injective(a: u64, b: u64)
    requires
        be64(a as nat) == be64(b as nat),
    ensures
        a == b,
{
    assert(be64(a as nat)[0] == be64(b as nat)[0]);
    assert(be64(a as nat)[1] == be64(b as nat)[1]);
    assert(be64(a as nat)[2] == be64(b as nat)[2]);
    assert(be64(a as nat)[3] == be64(b as nat)[3]);
    assert(be64(a as nat)[4] == be64(b as nat)[4]);
    assert(be64(a as nat)[5] == be64(b as nat)[5]);
    assert(be64(a as nat)[6] == be64(b as nat)[6]);
    assert(be64(a as nat)[7] == be64(b as nat)[7]);
    assert(
        a / 0x100000000000000 % 256 == b / 0x100000000000000 % 256
        && a / 0x1000000000000 % 256 == b / 0x1000000000000 % 256
        && a / 0x10000000000 % 256 == b / 0x10000000000 % 256
        && a / 0x100000000 % 256 == b / 0x100000000 % 256
        && a / 0x1000000 % 256 == b / 0x1000000 % 256
        && a / 0x10000 % 256 == b / 0x10000 % 256
        && a / 0x100 % 256 == b / 0x100 % 256
        && a % 256 == b % 256
    );
    assert(
        (a / 0x100000000000000 % 256 == b / 0x100000000000000 % 256
        && a / 0x1000000000000 % 256 == b / 0x1000000000000 % 256
        && a / 0x10000000000 % 256 == b / 0x10000000000 % 256
        && a / 0x100000000 % 256 == b / 0x100000000 % 256
        && a / 0x1000000 % 256 == b / 0x1000000 % 256
        && a / 0x10000 % 256 == b / 0x10000 % 256
        && a / 0x100 % 256 == b / 0x100 % 256
        && a % 256 == b % 256) ==> a == b
    ) by (bit_vector);
}

/// A framed string can be read back from the front of a key.
proof fn lemma_framed_prefix(a: Seq<u8>, x: Seq<u8>, b: Seq<u8>, y: Seq<u8>)
    requires
        a.len() <= u64::MAX,
        b.len() <= u64::MAX,
        framed(a) + x == framed(b) + y,
    ensures
        a == b,
        x == y,
{
    let k1 = framed(a) + x;
    let k2 = framed(b) + y;
    assert(k1.take(8) =~= be64(a.len()));
    assert(k2.take(8) =~= be64(b.len()));
    lemma_be64_injective(a.len() as u64, b.len() as u64);
    assert(k1.subrange(8, 8 + a.len() as int) =~= a);
    assert(k2.subrange(8, 8 + b.len() as int) =~= b);
    assert(k1.skip(8 + a.len() as int) =~= x);
    assert(k2.skip(8 + b.len() as int) =~= y);
}

/// The content key read from the front: the first field, then the rest.
pub proof fn lemma_content_key_front(s: Seq<(Seq<u8>, Seq<u8>)>)
    requires
        s.len() > 0,
    ensures
        content_key(s) == framed(s[0].0) + framed(s[0].1) + content_key(s.drop_first()),
    decreases s.len(),
{
    if s.len() == 1 {
        assert(s.drop_last() =~= Seq::<(Seq<u8>, Seq<u8>)>::empty());
        assert(s.drop_first() =~= Seq::<(Seq<u8>, Seq<u8>)>::empty());
        assert(content_key(s) =~= framed(s[0].0) + framed(s[0].1) + content_key(s.drop_first()));
    } else {
        lemma_content_key_front(s.drop_last());
        assert(s.drop_first().drop_last() =~= s.drop_last().drop_first());
        assert(s.drop_last()[0] == s[0]);
        assert(s.drop_first().last() == s.last());
        assert(content_key(s) =~= framed(s[0].0) + framed(s[0].1) + content_key(s.drop_first()));
    }
}

/// Different field sequences have different content keys.
pub proof fn lemma_content_key_injective(s1: Seq<(Seq<u8>, Seq<u8>)>, s2: Seq<(Seq<u8>, Seq<u8>)>)
    requires
        forall|i: int| 0 <= i < s1.len() ==> (#[trigger] s1[i]).0.len() <= u64::MAX && s1[i].1.len() <= u64::MAX,
        forall|i: int| 0 <= i < s2.len() ==> (#[trigger] s2[i]).0.len() <= u64::MAX && s2[i].1.len() <= u64::MAX,
        content_key(s1) == content_key(s2),
    ensures
        s1 == s2,
    decreases s1.len(),
{
    if s1.len() == 0 || s2.len() == 0 {
        if s1.len() > 0 {
            lemma_content_key_front(s1);
            assert(content_key(s1).len() >= 16);
        }
        if s2.len() > 0 {
            lemma_content_key_front(s2);
            assert(content_key(s2).len() >= 16);
        }
        assert(s1 =~= s2);
    } else {
        lemma_content_key_front(s1);
        lemma_content_key_front(s2);
        assert(s1[0].0.len() <= u64::MAX && s1[0].1.len() <= u64::MAX);
        assert(s2[0].0.len() <= u64::MAX && s2[0].1.len() <= u64::MAX);
        let r1 = framed(s1[0].1) + content_key(s1.drop_first());
        let r2 = framed(s2[0].1) + content_key(s2.drop_first());
        assert(content_key(s1) =~= framed(s1[0].0) + r1);
        assert(content_key(s2) =~= framed(s2[0].0) + r2);
        lemma_framed_prefix(s1[0].0, r1, s2[0].0, r2);
        lemma_framed_prefix(s1[0].1, content_key(s1.drop_first()), s2[0].1, content_key(s2.drop_first()));
        assert forall|i: int| 0 <= i < s1.drop_first().len() implies (#[trigger] s1.drop_first()[i]).0.len() <= u64::MAX && s1.drop_first()[i].1.len() <= u64::MAX by {
            assert(s1.drop_first()[i] == s1[i + 1]);
        }
        assert forall|i: int| 0 <= i < s2.drop_first().len() implies (#[trigger] s2.drop_first()[i]).0.len() <= u64::MAX && s2.drop_first()[i].1.len() <= u64::MAX by {
            assert(s2.drop_first()[i] == s2[i + 1]);
        }
        lemma_content_key_injective(s1.drop_first(), s2.drop_first());
        assert(s1[0] == s2[0]);
        assert forall|i: int| 0 <= i < s1.len() implies s1[i] == s2[i] by {
            if i > 0 {
                assert(s1[i] == s1.drop_first()[i - 1]);
                assert(s2[i] == s2.drop_first()[i - 1]);
            }
        }
        assert(s1 =~= s2);
    }
}

/// `m` sets one of the fields of `r` to its value.
pub open spec fn sets_a_field(m: Mutation, cfg: TranslateConfig, r: LogRecord) -> bool {
    exists|k: Seq<u8>| #[trigger] r@.contains_key(k) && sets_column(m, cfg.column_family@, cfg.write_to_wal, k, r@[k])
}

/// Translation writes each field of the record exactly once: one mutation per
/// field, on column `family:name`, carrying the field's value unchanged.
pub proof fn lemma_one_mutation_per_field(cfg: TranslateConfig, r: LogRecord, b: BatchMutation)
    requires
        r.wf(),
        translates_to(cfg, r, b),
    ensures
        b.mutations->0.len() == r@.dom().len(),
        forall|k: Seq<u8>| #[trigger] r@.contains_key(k) ==> exists|i: int| 0 <= i < b.mutations->0.len() && sets_column(b.mutations->0[i], cfg.column_family@, cfg.write_to_wal, k, r@[k]),
        forall|i: int| 0 <= i < b.mutations->0.len() ==> sets_a_field(#[trigger] b.mutations->0[i], cfg, r),
        forall|i: int, j: int| 0 <= i < j < b.mutations->0.len() ==> #[trigger] b.mutations->0[i].column != #[trigger] b.mutations->0[j].column,
{
    r.lemma_entries_are_fields();
    let e = r.entries();
    let ms = b.mutations->0;
    assert forall|k: Seq<u8>| #[trigger] r@.contains_key(k) implies exists|i: int| 0 <= i < ms.len() && sets_column(ms[i], cfg.column_family@, cfg.write_to_wal, k, r@[k]) by {
        let i = choose|i: int| 0 <= i < e.len() && e[i].0 == k;
        assert(sets_column(ms[i], cfg.column_family@, cfg.write_to_wal, e[i].0, e[i].1));
    }
    assert forall|i: int| 0 <= i < ms.len() implies sets_a_field(#[trigger] ms[i], cfg, r) by {
        assert(sets_column(ms[i], cfg.column_family@, cfg.write_to_wal, e[i].0, e[i].1));
        assert(r@.contains_key(e[i].0));
    }
    assert forall|i: int, j: int| 0 <= i < j < ms.len() implies #[trigger] ms[i].column != #[trigger] ms[j].column by {
        assert(sets_column(ms[i], cfg.column_family@, cfg.write_to_wal, e[i].0, e[i].1));
        assert(sets_column(ms[j], cfg.column_family@, cfg.write_to_wal, e[j].0, e[j].1));
        let f = cfg.column_family@ + seq![COLUMN_SEPARATOR];
        assert(column_of(cfg.column_family@, e[i].0) == f + e[i].0);
        assert(column_of(cfg.column_family@, e[j].0) == f + e[j].0);
        assert((f + e[i].0).skip(f.len() as int) =~= e[i].0);
        assert((f + e[j].0).skip(f.len() as int) =~= e[j].0);
    }
}

/// Records with the same fields and values, whatever order they were given
/// in, have the same content key, and are translated to the same row with the
/// same mutations.
pub proof fn lemma_same_content_same_row(cfg: TranslateConfig, r1: LogRecord, r2: LogRecord, b1: BatchMutation, b2: BatchMutation)
    requires
        r1.wf(),
        r2.wf(),
        r1@ == r2@,
        translates_to(cfg, r1, b1),
        translates_to(cfg, r2, b2),
    ensures
        row_key_of(r1) == row_key_of(r2),
        cfg.policy is ContentKey ==> b1.row->0@ == b2.row->0@,
        b1.mutations->0.len() == b2.mutations->0.len(),
        forall|i: int| 0 <= i < b1.mutations->0.len() ==> (#[trigger] b1.mutations->0[i]).column->0@ == b2.mutations->0[i].column->0@
            && b1.mutations->0[i].value->0@ == b2.mutations->0[i].value->0@,
{
    r1.lemma_same_content_same_entries(&r2);
    let e = r1.entries();
    assert forall|i: int| 0 <= i < b1.mutations->0.len() implies (#[trigger] b1.mutations->0[i]).column->0@ == b2.mutations->0[i].column->0@
        && b1.mutations->0[i].value->0@ == b2.mutations->0[i].value->0@ by {
        assert(sets_column(b1.mutations->0[i], cfg.column_family@, cfg.write_to_wal, e[i].0, e[i].1));
        assert(sets_column(b2.mutations->0[i], cfg.column_family@, cfg.write_to_wal, e[i].0, e[i].1));
    }
}

/// Records with different fields or values have different content keys, so
/// under content keys they are written to different rows.
pub proof fn lemma_different_content_different_row(r1: LogRecord, r2: LogRecord)
    requires
        r1.wf(),
        r2.wf(),
        r1@ != r2@,
    ensures
        row_key_of(r1) != row_key_of(r2),
{
    if row_key_of(r1) == row_key_of(r2) {
        r1.lemma_entries_fit();
        r2.lemma_entries_fit();
        lemma_content_key_injective(r1.entries(), r2.entries());
    }
}

/// Under content keys, translating the same batch twice names the same rows,
/// record by record, so a resubmission overwrites rows instead of adding any.
pub proof fn lemma_resubmission_same_rows(cfg: TranslateConfig, batch: Seq<LogRecord>, out1: Seq<BatchMutation>, out2: Seq<BatchMutation>)
    requires
        cfg.policy is ContentKey,
        out1.len() == batch.len(),
        out2.len() == batch.len(),
        forall|i: int| 0 <= i < batch.len() ==> #[trigger] batch[i].wf(),
        forall|i: int| 0 <= i < batch.len() ==> #[trigger] translates_to(cfg, batch[i], out1[i]),
        forall|i: int| 0 <= i < batch.len() ==> #[trigger] translates_to(cfg, batch[i], out2[i]),
    ensures
        forall|i: int| 0 <= i < batch.len() ==> (#[trigger] out1[i]).row->0@ == out2[i].row->0@,
        forall|i: int| 0 <= i < batch.len() ==> (#[trigger] out1[i]).row->0@ == row_key_of(batch[i]),
{
    assert forall|i: int| 0 <= i < batch.len() implies (#[trigger] out1[i]).row->0@ == out2[i].row->0@ && out1[i].row->0@ == row_key_of(batch[i]) by {
        assert(translates_to(cfg, batch[i], out1[i]));
        assert(translates_to(cfg, batch[i], out2[i]));
    }
}

} // verus!
