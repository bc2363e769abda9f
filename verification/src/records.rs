//! The data model: records, ordering keys, per-sample record groups and
//! named sorted streams, and the shape of one merged element.

use vstd::prelude::*;

verus! {

/// One observation unit read from a sample's stream.
#[derive(Clone, Copy, PartialEq, Eq, Structural, Debug)]
pub struct Record {
    /// Cell barcode.
    pub barcode: u64,
    /// Unique molecular identifier.
    pub umi: u64,
    /// Equivalence class the read is compatible with.
    pub equivalence_class: u32,
    /// Number of reads collapsed into this record.
    pub read_count: u32,
}

/// Ordering key of a stream: the barcode alone (`umi` held at zero by the
/// producer) or the pair (barcode, umi), compared lexicographically.
#[derive(Clone, Copy, PartialEq, Eq, Structural, Debug)]
pub struct Key {
    /// Cell barcode component of the key.
    pub barcode: u64,
    /// UMI component of the key; zero when grouping by barcode alone.
    pub umi: u64,
}

/// Strict lexicographic order on keys.
pub open spec fn key_lt(a: Key, b: Key) -> bool {
    a.barcode < b.barcode || (a.barcode == b.barcode && a.umi < b.umi)
}

/// Executable comparison agreeing with [`key_lt`].
pub fn key_less(a: Key, b: Key) -> (r: bool)
    ensures
        r == key_lt(a, b),
{
    a.barcode < b.barcode || (a.barcode == b.barcode && a.umi < b.umi)
}

/// All records of one sample sharing one key, contiguous in that sample's
/// stream.
pub struct KeyedGroup {
    /// The shared ordering key.
    pub key: Key,
    /// The records of the group.
    pub records: Vec<Record>,
}

/// One sample's stream: a name and its groups in ascending key order.
pub struct NamedStream {
    /// Sample name; the position of the stream in the input fixes the
    /// sample's slot in fingerprints and size rows.
    pub name: String,
    /// The stream's groups.
    pub groups: Vec<KeyedGroup>,
}

/// The keys of a group sequence are strictly ascending; this is the
/// documented precondition of the merge, not checked at run time by
/// producers.
pub open spec fn groups_sorted(groups: Seq<KeyedGroup>) -> bool {
    forall|i: int, j: int|
        0 <= i < j < groups.len() ==> key_lt(groups[i].key, groups[j].key)
}

/// Every stream of the input is sorted.
pub open spec fn streams_sorted(streams: Seq<NamedStream>) -> bool {
    forall|i: int| 0 <= i < streams.len() ==> #[trigger] groups_sorted(streams[i].groups@)
}

/// Every group of every stream holds at most `u32::MAX` records, so read
/// totals fit in `u64`.
pub open spec fn groups_bounded(streams: Seq<NamedStream>) -> bool {
    forall|i: int, j: int|
        0 <= i < streams.len() && 0 <= j < streams[i].groups@.len()
            ==> (#[trigger] streams[i].groups@[j]).records@.len() <= u32::MAX
}

/// One sample's contribution to a merged element.
pub struct MergedEntry {
    /// Index of the sample in the fixed input order.
    pub sample: usize,
    /// That sample's record group at the element's key.
    pub records: Vec<Record>,
}

/// One element of the merged sequence: a key together with the group of
/// every sample whose stream contains that key.
pub struct MergedElement {
    /// The shared key.
    pub key: Key,
    /// Contributions, in ascending sample index order, one per sample
    /// containing the key; never empty.
    pub entries: Vec<MergedEntry>,
}

impl View for MergedEntry {
    type V = (int, Seq<Record>);

    open spec fn view(&self) -> (int, Seq<Record>) {
        (self.sample as int, self.records@)
    }
}

impl View for MergedElement {
    type V = (Key, Seq<(int, Seq<Record>)>);

    open spec fn view(&self) -> (Key, Seq<(int, Seq<Record>)>) {
        (self.key, self.entries@.map_values(|e: MergedEntry| e@))
    }
}

/// Copy a record group; used when one group feeds several outputs.
pub fn copy_records(records: &Vec<Record>) -> (r: Vec<Record>)
    ensures
        r@ == records@,
{
    let mut out: Vec<Record> = Vec::new();
    let n = records.len();
    let mut i: usize = 0;
    while i < n
        invariant
            0 <= i <= n,
            n == records.len(),
            out@ =~= records@.subrange(0, i as int),
        decreases n - i,
    {
        out.push(records[i]);
        i = i + 1;
    }
    proof {
        assert(records@.subrange(0, n as int) =~= records@);
    }
    out
}

/// Total reads of a record sequence: the sum of the records' read counts.
pub open spec fn seq_reads(records: Seq<Record>) -> int
    decreases records.len(),
{
    if records.len() == 0 {
        0
    } else {
        seq_reads(records.drop_last()) + records.last().read_count
    }
}

/// A record sequence's read total is nonnegative and bounded by its
/// length times the largest single count.
pub proof fn lemma_seq_reads_bounds(records: Seq<Record>)
    ensures
        0 <= seq_reads(records) <= records.len() * (u32::MAX as int),
    decreases records.len(),
{
    if records.len() > 0 {
        lemma_seq_reads_bounds(records.drop_last());
        assert(records.drop_last().len() * (u32::MAX as int) + u32::MAX
            == records.len() * (u32::MAX as int)) by (nonlinear_arith)
            requires records.len() >= 1 && records.drop_last().len() == records.len() - 1;
    }
}

/// Sum the read counts of a group. The group length bound keeps the sum
/// within `u64`.
pub fn group_reads(records: &Vec<Record>) -> (r: u64)
    requires
        records.len() <= u32::MAX,
    ensures
        r == seq_reads(records@),
{
    let mut total: u64 = 0;
    let n = records.len();
    let mut i: usize = 0;
    while i < n
        invariant
            0 <= i <= n,
            n == records.len() <= u32::MAX,
            total == seq_reads(records@.subrange(0, i as int)),
            total <= i * (u32::MAX as int),
        decreases n - i,
    {
        proof {
            assert(records@.subrange(0, i + 1).drop_last() =~= records@.subrange(0, i as int));
            assert(i * (u32::MAX as int) + u32::MAX <= u32::MAX * (u32::MAX as int))
                by (nonlinear_arith)
                requires 0 <= i < u32::MAX as int;
        }
        total = total + records[i].read_count as u64;
        i = i + 1;
    }
    proof {
        assert(records@.subrange(0, n as int) =~= records@);
    }
    total
}

} // verus!
