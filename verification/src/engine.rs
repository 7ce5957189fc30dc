//! The storage engine: a memtable in front of a stack of tables, the newest on top.
//!
//! Writes go to the memtable; once it holds more than [`FLUSH_LIMIT`] bytes of keys
//! and values it is frozen and written out as the next table, whose bytes the
//! caller stores. A read asks the memtable first and then the tables from the
//! newest to the oldest, so the most recent write of a key wins and a tombstone
//! hides every older value.
//!
//! The engine does no I/O itself: [`Engine::set`] hands back the bytes of a table
//! it flushed, and a read either runs over the tables' bytes at once
//! ([`Engine::get`]) or step by step, asking for one table at a time
//! ([`Engine::get_start`], [`Engine::get_continue`]).
use crate::engine_error::EngineError;
use crate::memtable::{memtable_answer, value_decoding, value_encoding, Memtable, Value, ValueView};
use crate::ordered::{keys_sorted, lemma_lookup_absent, lemma_lookup_upsert, lookup, upsert};
use crate::skiplist_error::SkipListError;
use crate::sstable::errors::SsTableReaderError;
use crate::sstable::format::{last_key_before, sstable_layout, sstable_read, ReadFault};
use crate::sstable::reader::{fault_matches, SstableReader};
use crate::sstable::writer::SstableWriter;
use crate::traits::{copy_bytes, lex_lt, KeyOrder, TypeSkipListKey};
use vstd::prelude::*;

verus! {

/// The number of key and value bytes the memtable may hold before it is flushed.
pub const FLUSH_LIMIT: usize = 4096;

/// The bytes of an optional value.
pub open spec fn opt_bytes(x: Option<Vec<u8>>) -> Option<Seq<u8>> {
    match x {
        Some(v) => Some(v@),
        None => None,
    }
}

/// What one layer decides for a key whose stored bytes are `stored`: `Some(Some(d))`
/// for data `d`, `Some(None)` for a tombstone, and `None` when the layer has
/// nothing to say, so that older layers are asked.
pub open spec fn layer_says(stored: Option<Seq<u8>>) -> Option<Option<Seq<u8>>> {
    match stored {
        Some(b) => match value_decoding(b) {
            Some(ValueView::Data(d)) => Some(Some(d)),
            Some(ValueView::Tombstone) => Some(None),
            _ => None,
        },
        None => None,
    }
}

/// The value of `k` in the tables below index `n`, the newest first.
pub open spec fn tables_get(tables: Seq<Seq<(Seq<u8>, Seq<u8>)>>, n: int, k: Seq<u8>) -> Option<
    Seq<u8>,
>
    decreases n,
{
    if n <= 0 {
        None
    } else {
        match layer_says(lookup(tables[n - 1], k)) {
            Some(o) => o,
            None => tables_get(tables, n - 1, k),
        }
    }
}

/// The value of `k` in a store made of the memtable pairs `mem` over `tables`.
pub open spec fn store_get(
    mem: Seq<(Seq<u8>, Seq<u8>)>,
    tables: Seq<Seq<(Seq<u8>, Seq<u8>)>>,
    k: Seq<u8>,
) -> Option<Seq<u8>> {
    match layer_says(lookup(mem, k)) {
        Some(o) => o,
        None => tables_get(tables, tables.len() as int, k),
    }
}

/// Every stored value decodes.
pub open spec fn values_decode(es: Seq<(Seq<u8>, Seq<u8>)>) -> bool {
    forall|k: Seq<u8>| #[trigger] lookup(es, k) is Some ==> value_decoding(lookup(es, k)->0) is Some
}

/// The newest table below index `below` whose last key is not below `k`: the
/// next table that can hold `k`.
pub open spec fn candidate(lasts: Seq<Seq<u8>>, below: int, k: Seq<u8>) -> Option<int>
    decreases below,
{
    if below <= 0 {
        None
    } else if lex_lt(lasts[below - 1], k) {
        candidate(lasts, below - 1, k)
    } else {
        Some(below - 1)
    }
}

/// Why a read failed.
pub enum EngineFault {
    /// A value in the memtable does not decode.
    Memtable,
    /// A table could not be read.
    Table(ReadFault),
    /// A value in a table does not decode.
    Value,
}

/// The engine error that stands for a fault.
pub open spec fn engine_fault_matches(f: EngineFault, e: EngineError) -> bool {
    match f {
        EngineFault::Memtable => e matches EngineError::SkipListError(SkipListError::BitcodeError(_)),
        EngineFault::Table(rf) => e matches EngineError::SsTableReaderError(re) && fault_matches(rf, re),
        EngineFault::Value => e matches EngineError::SsTableReaderError(
            SsTableReaderError::BitcodeError(_),
        ),
    }
}

/// What the memtable pairs `mem` decide for `k`, as in [`layer_says`], or a fault.
pub open spec fn memtable_says(mem: Seq<(Seq<u8>, Seq<u8>)>, k: Seq<u8>) -> Result<
    Option<Option<Seq<u8>>>,
    EngineFault,
> {
    match memtable_answer(lookup(mem, k)) {
        Err(_) => Err(EngineFault::Memtable),
        Ok(ValueView::Data(d)) => Ok(Some(Some(d))),
        Ok(ValueView::Tombstone) => Ok(Some(None)),
        Ok(ValueView::Missing) => Ok(None),
    }
}

/// What the table `bytes` decides for `k`, as in [`layer_says`], or a fault.
pub open spec fn table_says(bytes: Seq<u8>, k: Seq<u8>) -> Result<Option<Option<Seq<u8>>>, EngineFault> {
    match sstable_read(bytes, k) {
        Err(f) => Err(EngineFault::Table(f)),
        Ok(None) => Ok(None),
        Ok(Some(b)) => match value_decoding(b) {
            None => Err(EngineFault::Value),
            Some(ValueView::Data(d)) => Ok(Some(Some(d))),
            Some(ValueView::Tombstone) => Ok(Some(None)),
            Some(ValueView::Missing) => Ok(None),
        },
    }
}

/// Reading `k` from the table bytes `files` below index `below`, the newest first,
/// skipping the tables whose last key in `lasts` is below `k`.
pub open spec fn files_read(files: Seq<Seq<u8>>, lasts: Seq<Seq<u8>>, below: int, k: Seq<u8>) -> Result<
    Option<Seq<u8>>,
    EngineFault,
>
    decreases below,
{
    if below <= 0 {
        Ok(None)
    } else if lex_lt(lasts[below - 1], k) {
        files_read(files, lasts, below - 1, k)
    } else {
        match table_says(files[below - 1], k) {
            Err(f) => Err(f),
            Ok(Some(o)) => Ok(o),
            Ok(None) => files_read(files, lasts, below - 1, k),
        }
    }
}

/// Reading `k` from the memtable pairs `mem` and then from the table bytes `files`.
pub open spec fn engine_read(
    mem: Seq<(Seq<u8>, Seq<u8>)>,
    files: Seq<Seq<u8>>,
    lasts: Seq<Seq<u8>>,
    k: Seq<u8>,
) -> Result<Option<Seq<u8>>, EngineFault> {
    match memtable_says(mem, k) {
        Err(f) => Err(f),
        Ok(Some(o)) => Ok(o),
        Ok(None) => files_read(files, lasts, lasts.len() as int, k),
    }
}

/// The views of some byte vectors.
pub open spec fn files_of(v: Seq<Vec<u8>>) -> Seq<Seq<u8>> {
    v.map_values(|b: Vec<u8>| b@)
}

/// Writing `enc` for `key` keeps every stored value decodable when `enc` decodes.
proof fn lemma_values_upsert(es: Seq<(Seq<u8>, Seq<u8>)>, key: Seq<u8>, enc: Seq<u8>)
    requires
        values_decode(es),
        value_decoding(enc) is Some,
    ensures
        values_decode(upsert::<Vec<u8>, Seq<u8>>(es, key, enc)),
{
    assert forall|k: Seq<u8>| #[trigger]
        lookup(upsert::<Vec<u8>, Seq<u8>>(es, key, enc), k) is Some implies value_decoding(
        lookup(upsert::<Vec<u8>, Seq<u8>>(es, key, enc), k)->0,
    ) is Some by {
        lemma_lookup_upsert::<Vec<u8>, Seq<u8>>(es, key, enc, k);
    }
}

/// The tables below `n` are read the same in two stacks that agree below `n`.
proof fn lemma_tables_get_prefix(
    a: Seq<Seq<(Seq<u8>, Seq<u8>)>>,
    b: Seq<Seq<(Seq<u8>, Seq<u8>)>>,
    n: int,
    k: Seq<u8>,
)
    requires
        n <= a.len(),
        n <= b.len(),
        forall|i: int| 0 <= i < n ==> a[i] == b[i],
    ensures
        tables_get(a, n, k) == tables_get(b, n, k),
    decreases n,
{
    if n > 0 {
        lemma_tables_get_prefix(a, b, n - 1, k);
    }
}

/// Writing `enc` for `key` into the memtable decides `key` by `enc` and leaves
/// every other key as it was.
proof fn lemma_store_upsert(
    mem: Seq<(Seq<u8>, Seq<u8>)>,
    tables: Seq<Seq<(Seq<u8>, Seq<u8>)>>,
    key: Seq<u8>,
    enc: Seq<u8>,
    k: Seq<u8>,
)
    ensures
        store_get(upsert::<Vec<u8>, Seq<u8>>(mem, key, enc), tables, k) == if k == key {
            match layer_says(Some(enc)) {
                Some(o) => o,
                None => tables_get(tables, tables.len() as int, k),
            }
        } else {
            store_get(mem, tables, k)
        },
{
    lemma_lookup_upsert::<Vec<u8>, Seq<u8>>(mem, key, enc, k);
}

/// Moving the memtable onto the stack as its newest table, and starting an empty
/// memtable, changes no key.
proof fn lemma_store_flush(
    mem: Seq<(Seq<u8>, Seq<u8>)>,
    tables: Seq<Seq<(Seq<u8>, Seq<u8>)>>,
    k: Seq<u8>,
)
    ensures
        store_get(Seq::empty(), tables.push(mem), k) == store_get(mem, tables, k),
{
    let t2 = tables.push(mem);
    assert(lookup(Seq::<(Seq<u8>, Seq<u8>)>::empty(), k) is None);
    assert(t2[t2.len() - 1] == mem);
    lemma_tables_get_prefix(t2, tables, tables.len() as int, k);
}

/// The table [`candidate`] names lies below `below` and can hold `k`.
proof fn lemma_candidate_bounds(lasts: Seq<Seq<u8>>, below: int, k: Seq<u8>)
    ensures
        candidate(lasts, below, k) matches Some(j) ==> 0 <= j < below && !lex_lt(lasts[j], k),
    decreases below,
{
    if below > 0 && lex_lt(lasts[below - 1], k) {
        lemma_candidate_bounds(lasts, below - 1, k);
    }
}

/// Reading the tables below `below` reads the table [`candidate`] names and goes on
/// below it, or finds nothing when there is no such table.
proof fn lemma_files_read_step(files: Seq<Seq<u8>>, lasts: Seq<Seq<u8>>, below: int, k: Seq<u8>)
    ensures
        files_read(files, lasts, below, k) == match candidate(lasts, below, k) {
            None => Ok(None),
            Some(j) => match table_says(files[j], k) {
                Err(f) => Err(f),
                Ok(Some(o)) => Ok(o),
                Ok(None) => files_read(files, lasts, j, k),
            },
        },
    decreases below,
{
    if below > 0 && lex_lt(lasts[below - 1], k) {
        lemma_files_read_step(files, lasts, below - 1, k);
    }
}

/// A key above the last key of sorted pairs is not among them.
proof fn lemma_past_last(t: Seq<(Seq<u8>, Seq<u8>)>, k: Seq<u8>)
    requires
        keys_sorted::<Vec<u8>, Seq<u8>>(t),
        lex_lt(last_key_before(t, t.len() as int), k),
    ensures
        lookup(t, k) is None,
{
    if t.len() > 0 {
        let last = t[t.len() - 1].0;
        assert forall|i: int| 0 <= i < t.len() implies (#[trigger] t[i]).0 != k by {
            <Vec<u8> as TypeSkipListKey>::lemma_key_order(t[i].0, last, k);
            <Vec<u8> as TypeSkipListKey>::lemma_key_order(k, k, k);
        }
    }
    lemma_lookup_absent(t, k);
}

/// Where a table lives and the last key it holds.
pub struct SstableMeta {
    pub sstable_no: usize,
    pub last_key: Vec<u8>,
}

impl SstableMeta {
    pub fn new(sstable_no: usize, last_key: &Vec<u8>) -> (r: Self)
        ensures
            r.sstable_no == sstable_no,
            r.last_key@ == last_key@,
    {
        Self { sstable_no, last_key: copy_bytes(last_key) }
    }
}

/// A table written out by a flush: its number and its bytes.
pub struct FlushedTable {
    pub sstable_no: usize,
    pub bytes: Vec<u8>,
}

/// The next step of a read: its answer, or the number of the table to read next.
pub enum GetStep {
    Done(Option<Vec<u8>>),
    ReadSstable(usize),
}

/// `s` goes on to the table `c` names, or ends with no value when there is none.
pub open spec fn next_read(s: GetStep, c: Option<int>) -> bool {
    match c {
        None => s matches GetStep::Done(None),
        Some(j) => s matches GetStep::ReadSstable(n) && n == j,
    }
}

/// The storage engine.
pub struct Engine {
    memtable: Memtable,
    sstable_count: usize,
    sstable_meta_list: Vec<SstableMeta>,
    /// The pairs each table was written from, the oldest first.
    tables: Ghost<Seq<Seq<(Seq<u8>, Seq<u8>)>>>,
}

impl Engine {
    /// The memtable's pairs.
    pub closed spec fn memtable_entries(&self) -> Seq<(Seq<u8>, Seq<u8>)> {
        self.memtable.entries()
    }

    /// The bytes of keys and values written to the memtable since it was last
    /// flushed.
    pub closed spec fn buffered_bytes(&self) -> nat {
        self.memtable.size as nat
    }

    /// The pairs of each table written so far, the oldest first.
    pub closed spec fn tables(&self) -> Seq<Seq<(Seq<u8>, Seq<u8>)>> {
        self.tables@
    }

    /// The bytes of each table written so far.
    pub open spec fn files(&self) -> Seq<Seq<u8>> {
        Seq::new(self.tables().len(), |i: int| sstable_layout(self.tables()[i]))
    }

    /// The last key of each table.
    pub open spec fn last_keys(&self) -> Seq<Seq<u8>> {
        Seq::new(
            self.tables().len(),
            |i: int| last_key_before(self.tables()[i], self.tables()[i].len() as int),
        )
    }

    pub open spec fn table_count(&self) -> nat {
        self.tables().len()
    }

    /// The value the engine holds for `k`.
    pub open spec fn contents(&self, k: Seq<u8>) -> Option<Seq<u8>> {
        store_get(self.memtable_entries(), self.tables(), k)
    }

    /// The table at index `i` is listed with its number and last key, its pairs are
    /// sorted, its values decode, and its bytes read back its pairs.
    closed spec fn table_ok(&self, i: int) -> bool {
        let t = self.tables@[i];
        &&& self.sstable_meta_list@[i].sstable_no == i
        &&& self.sstable_meta_list@[i].last_key@ == last_key_before(t, t.len() as int)
        &&& keys_sorted::<Vec<u8>, Seq<u8>>(t)
        &&& values_decode(t)
        &&& forall|k: Seq<u8>|
            #[trigger] sstable_read(sstable_layout(t), k)
                == Ok::<_, ReadFault>(lookup(t, k))
    }

    closed spec fn tables_wf(&self) -> bool {
        let n = self.tables@.len();
        &&& self.sstable_count == n
        &&& self.sstable_meta_list@.len() == n
        &&& forall|i: int| 0 <= i < n ==> #[trigger] self.table_ok(i)
    }

    closed spec fn inner_wf(&self) -> bool {
        &&& self.memtable.wf()
        &&& values_decode(self.memtable.entries())
        &&& self.tables_wf()
    }

    pub closed spec fn wf(&self) -> bool {
        &&& self.inner_wf()
        &&& self.memtable.size <= FLUSH_LIMIT
    }

    /// An empty engine.
    pub fn new() -> (r: Self)
        ensures
            r.wf(),
            r.memtable_entries() == Seq::<(Seq<u8>, Seq<u8>)>::empty(),
            r.buffered_bytes() == 0,
            r.tables() == Seq::<Seq<(Seq<u8>, Seq<u8>)>>::empty(),
            r.table_count() == 0,
            r.files() == Seq::<Seq<u8>>::empty(),
            forall|k: Seq<u8>| #[trigger] r.contents(k) is None,
    {
        let r = Self {
            memtable: Memtable::new(),
            sstable_count: 0,
            sstable_meta_list: Vec::new(),
            tables: Ghost(Seq::empty()),
        };
        assert forall|k: Seq<u8>| #[trigger] r.contents(k) is None by {
            assert(lookup(r.memtable.entries(), k) is None);
        }
        assert(r.files() =~= Seq::<Seq<u8>>::empty());
        r
    }

    /// Writes the memtable out as the next table and starts an empty memtable.
    fn flush(&mut self) -> (r: Result<FlushedTable, EngineError>)
        requires
            old(self).inner_wf(),
            old(self).table_count() + 1 < usize::MAX,
        ensures
            final(self).wf(),
            r matches Ok(t) && t.sstable_no == old(self).table_count() && t.bytes@ == sstable_layout(
                old(self).memtable_entries(),
            ),
            final(self).tables() == old(self).tables().push(old(self).memtable_entries()),
            final(self).memtable_entries() == Seq::<(Seq<u8>, Seq<u8>)>::empty(),
            final(self).buffered_bytes() == 0,
            forall|k: Seq<u8>| #[trigger] final(self).contents(k) == old(self).contents(k),
    {
        let mut frozen = Memtable::new();
        std::mem::swap(&mut frozen, &mut self.memtable);
        let ghost written = frozen.entries();
        let ghost old_tables = self.tables@;
        proof {
            frozen.skiplist.lemma_view_sorted();
        }
        let mut writer = SstableWriter::new();
        let last_key = match writer.build(frozen) {
            Ok(l) => l,
            Err(e) => {
                return Err(EngineError::SsTableWriterError(e));
            },
        };
        let bytes = writer.into_bytes();
        let no = self.sstable_count;
        self.sstable_meta_list.push(SstableMeta::new(no, &last_key));
        self.sstable_count = no + 1;
        self.tables = Ghost(old_tables.push(written));
        proof {
            let n = old_tables.len();
            assert(self.tables@[n as int] == written);
            assert forall|i: int| 0 <= i < self.tables@.len() implies #[trigger] self.table_ok(i) by {
                if i < n {
                    assert(self.tables@[i] == old_tables[i]);
                    assert(old(self).table_ok(i));
                }
            }
            assert forall|k: Seq<u8>| #[trigger] self.contents(k) == store_get(written, old_tables, k) by {
                lemma_store_flush(written, old_tables, k);
            }
            assert(lookup(self.memtable.entries(), seq![]) is None);
        }
        Ok(FlushedTable { sstable_no: no, bytes })
    }

    /// Binds `key` to `value`. When the memtable then holds more than
    /// [`FLUSH_LIMIT`] bytes it is written out as the next table, whose number and
    /// bytes are returned for the caller to store.
    pub fn set(&mut self, key: &Vec<u8>, value: Vec<u8>) -> (r: Result<Option<FlushedTable>, EngineError>)
        requires
            old(self).wf(),
            key@.len() + value@.len() + FLUSH_LIMIT <= usize::MAX,
            old(self).memtable_entries().len() + 2 < usize::MAX,
            old(self).table_count() + 1 < usize::MAX,
        ensures
            final(self).wf(),
            final(self).buffered_bytes() <= FLUSH_LIMIT,
            final(self).contents(key@) == Some(value@),
            forall|k: Seq<u8>| k != key@ ==> #[trigger] final(self).contents(k) == old(self).contents(k),
            ({
                let written = upsert::<Vec<u8>, Seq<u8>>(
                    old(self).memtable_entries(),
                    key@,
                    value_encoding(ValueView::Data(value@)),
                );
                let size = old(self).buffered_bytes() + key@.len() + value@.len();
                if size > FLUSH_LIMIT {
                    &&& r matches Ok(Some(t)) && t.sstable_no == old(self).table_count() && t.bytes@
                        == sstable_layout(written)
                    &&& final(self).tables() == old(self).tables().push(written)
                    &&& final(self).files() == old(self).files().push(sstable_layout(written))
                    &&& final(self).memtable_entries() == Seq::<(Seq<u8>, Seq<u8>)>::empty()
                    &&& final(self).buffered_bytes() == 0
                } else {
                    &&& r matches Ok(None)
                    &&& final(self).tables() == old(self).tables()
                    &&& final(self).files() == old(self).files()
                    &&& final(self).memtable_entries() == written
                    &&& final(self).buffered_bytes() == size
                }
            }),
    {
        let ghost mem0 = self.memtable.entries();
        let ghost tables0 = self.tables@;
        let ghost enc = value_encoding(ValueView::Data(value@));
        let ghost v = value@;
        let _ = self.memtable.insert(key, value);
        proof {
            assert forall|i: int| 0 <= i < self.tables@.len() implies #[trigger] self.table_ok(i) by {
                assert(old(self).table_ok(i));
            }
            lemma_values_upsert(mem0, key@, enc);
            lemma_store_upsert(mem0, tables0, key@, enc, key@);
            assert forall|k: Seq<u8>| k != key@ implies #[trigger] self.contents(k) == store_get(
                mem0,
                tables0,
                k,
            ) by {
                lemma_store_upsert(mem0, tables0, key@, enc, k);
            }
        }
        if self.memtable.size > FLUSH_LIMIT {
            let ghost before = self.files();
            let ghost written = self.memtable.entries();
            let t = match self.flush() {
                Ok(t) => t,
                Err(e) => {
                    return Err(e);
                },
            };
            assert(self.files() =~= before.push(sstable_layout(written)));
            assert(self.tables@[self.tables@.len() - 1] == written);
            Ok(Some(t))
        } else {
            Ok(None)
        }
    }

    /// Deletes `key`: a tombstone is written for it, which hides every older value.
    pub fn del(&mut self, key: &Vec<u8>)
        requires
            old(self).wf(),
            old(self).memtable_entries().len() + 2 < usize::MAX,
        ensures
            final(self).wf(),
            final(self).buffered_bytes() <= FLUSH_LIMIT,
            final(self).contents(key@) is None,
            forall|k: Seq<u8>| k != key@ ==> #[trigger] final(self).contents(k) == old(self).contents(k),
            final(self).memtable_entries() == upsert::<Vec<u8>, Seq<u8>>(
                old(self).memtable_entries(),
                key@,
                value_encoding(ValueView::Tombstone),
            ),
            final(self).buffered_bytes() == old(self).buffered_bytes(),
            final(self).tables() == old(self).tables(),
            final(self).files() == old(self).files(),
    {
        let ghost mem0 = self.memtable.entries();
        let ghost tables0 = self.tables@;
        let ghost enc = value_encoding(ValueView::Tombstone);
        self.memtable.delete(key);
        proof {
            assert forall|i: int| 0 <= i < self.tables@.len() implies #[trigger] self.table_ok(i) by {
                assert(old(self).table_ok(i));
            }
            lemma_values_upsert(mem0, key@, enc);
            lemma_store_upsert(mem0, tables0, key@, enc, key@);
            assert forall|k: Seq<u8>| k != key@ implies #[trigger] self.contents(k) == store_get(
                mem0,
                tables0,
                k,
            ) by {
                lemma_store_upsert(mem0, tables0, key@, enc, k);
            }
        }
    }

    /// The first step of reading `key`: the memtable's answer, or the first table to
    /// read.
    pub fn get_start(&self, key: &Vec<u8>) -> (r: Result<GetStep, EngineError>)
        requires
            self.wf(),
        ensures
            match memtable_says(self.memtable_entries(), key@) {
                Err(f) => r matches Err(e) && engine_fault_matches(f, e),
                Ok(Some(o)) => r matches Ok(GetStep::Done(x)) && opt_bytes(x) == o,
                Ok(None) => r matches Ok(s) && next_read(
                    s,
                    candidate(self.last_keys(), self.table_count() as int, key@),
                ),
            },
    {
        proof {
            lemma_candidate_bounds(self.last_keys(), self.sstable_count as int, key@);
        }
        match self.memtable.extract(key) {
            Err(e) => Err(EngineError::SkipListError(e)),
            Ok(Value::Data(d)) => Ok(GetStep::Done(Some(d))),
            Ok(Value::Tombstone) => Ok(GetStep::Done(None)),
            Ok(Value::Missing) => match self.get_key_file_path(key, self.sstable_count) {
                Some(j) => Ok(GetStep::ReadSstable(j)),
                None => Ok(GetStep::Done(None)),
            },
        }
    }

    /// The step of reading `key` after the table `sstable_no` was read as `bytes`:
    /// that table's answer, or the next older table to read.
    pub fn get_continue(&self, key: &Vec<u8>, sstable_no: usize, bytes: &[u8]) -> (r: Result<
        GetStep,
        EngineError,
    >)
        requires
            self.wf(),
            sstable_no < self.table_count(),
        ensures
            match table_says(bytes@, key@) {
                Err(f) => r matches Err(e) && engine_fault_matches(f, e),
                Ok(Some(o)) => r matches Ok(GetStep::Done(x)) && opt_bytes(x) == o,
                Ok(None) => r matches Ok(s) && next_read(
                    s,
                    candidate(self.last_keys(), sstable_no as int, key@),
                ),
            },
    {
        proof {
            lemma_candidate_bounds(self.last_keys(), sstable_no as int, key@);
        }
        let reader = SstableReader::new(bytes);
        let found = match reader.binary_search_data(key) {
            Err(e) => {
                return Err(EngineError::SsTableReaderError(e));
            },
            Ok(found) => found,
        };
        if let Some(stored) = found {
            match Value::from_bytes(&stored) {
                Err(e) => {
                    return Err(EngineError::SsTableReaderError(SsTableReaderError::BitcodeError(e)));
                },
                Ok(Value::Data(d)) => {
                    return Ok(GetStep::Done(Some(d)));
                },
                Ok(Value::Tombstone) => {
                    return Ok(GetStep::Done(None));
                },
                Ok(Value::Missing) => {},
            }
        }
        match self.get_key_file_path(key, sstable_no) {
            Some(j) => Ok(GetStep::ReadSstable(j)),
            None => Ok(GetStep::Done(None)),
        }
    }

    /// Reading `k` from the bytes of the tables below `n` gives the value those
    /// tables hold for `k`.
    proof fn lemma_read_tables(&self, n: int, k: Seq<u8>)
        requires
            self.tables_wf(),
            0 <= n <= self.tables@.len(),
        ensures
            files_read(self.files(), self.last_keys(), n, k) == Ok::<_, EngineFault>(
                tables_get(self.tables@, n, k),
            ),
        decreases n,
    {
        if n > 0 {
            self.lemma_read_tables(n - 1, k);
            let t = self.tables@[n - 1];
            assert(self.table_ok(n - 1));
            assert(self.files()[n - 1] == sstable_layout(t));
            assert(self.last_keys()[n - 1] == last_key_before(t, t.len() as int));
            if lex_lt(self.last_keys()[n - 1], k) {
                lemma_past_last(t, k);
            } else {
                assert(sstable_read(sstable_layout(t), k) == Ok::<_, ReadFault>(lookup(t, k)));
            }
        }
    }

    /// Reading `k` from the memtable and from the bytes of the tables written so
    /// far gives the value the engine holds for `k`.
    pub proof fn lemma_get_reads_contents(&self, k: Seq<u8>)
        requires
            self.wf(),
        ensures
            engine_read(self.memtable_entries(), self.files(), self.last_keys(), k) == Ok::<
                _,
                EngineFault,
            >(self.contents(k)),
    {
        self.lemma_read_tables(self.tables@.len() as int, k);
        assert(self.last_keys().len() == self.tables@.len());
    }

    /// Reads `key` from the memtable and then from `sstables`, the bytes of the
    /// tables written so far, the newest first.
    pub fn get(&self, key: &Vec<u8>, sstables: &Vec<Vec<u8>>) -> (r: Result<Option<Vec<u8>>, EngineError>)
        requires
            self.wf(),
            sstables@.len() == self.table_count(),
        ensures
            match engine_read(self.memtable_entries(), files_of(sstables@), self.last_keys(), key@) {
                Ok(o) => r matches Ok(x) && opt_bytes(x) == o,
                Err(f) => r matches Err(e) && engine_fault_matches(f, e),
            },
            files_of(sstables@) == self.files()
                ==> (r matches Ok(x) && opt_bytes(x) == self.contents(key@)),
    {
        let ghost files = files_of(sstables@);
        let ghost lasts = self.last_keys();
        let ghost total = engine_read(self.memtable_entries(), files, lasts, key@);
        proof {
            if files == self.files() {
                self.lemma_get_reads_contents(key@);
            }
            lemma_files_read_step(files, lasts, lasts.len() as int, key@);
            lemma_candidate_bounds(lasts, lasts.len() as int, key@);
        }
        let first = match self.get_start(key) {
            Err(e) => {
                return Err(e);
            },
            Ok(s) => s,
        };
        let mut no = match first {
            GetStep::Done(o) => {
                return Ok(o);
            },
            GetStep::ReadSstable(n) => n,
        };
        proof {
            lemma_files_read_step(files, lasts, no + 1, key@);
        }
        loop
            invariant
                self.wf(),
                sstables@.len() == self.table_count(),
                files == files_of(sstables@),
                lasts == self.last_keys(),
                no < self.table_count(),
                total == engine_read(self.memtable_entries(), files, lasts, key@),
                files == self.files() ==> total
                    == Ok::<_, EngineFault>(self.contents(key@)),
                total == match table_says(files[no as int], key@) {
                    Err(f) => Err(f),
                    Ok(Some(o)) => Ok(o),
                    Ok(None) => files_read(files, lasts, no as int, key@),
                },
            decreases no,
        {
            let bytes = sstables[no].as_slice();
            assert(bytes@ == files[no as int]);
            let step = self.get_continue(key, no, bytes);
            proof {
                lemma_files_read_step(files, lasts, no as int, key@);
                lemma_candidate_bounds(lasts, no as int, key@);
            }
            match step {
                Err(e) => {
                    return Err(e);
                },
                Ok(GetStep::Done(o)) => {
                    return Ok(o);
                },
                Ok(GetStep::ReadSstable(n)) => {
                    no = n;
                },
            }
        }
    }

    /// The number of pairs in the memtable.
    pub fn buffered_entries(&self) -> (r: usize)
        requires
            self.wf(),
        ensures
            r == self.memtable_entries().len(),
    {
        self.memtable.skiplist.len()
    }

    /// The number of tables written so far.
    pub fn sstable_count(&self) -> (r: usize)
        requires
            self.wf(),
        ensures
            r == self.table_count(),
    {
        self.sstable_count
    }

    /// The newest table below `below` that can hold `key`.
    fn get_key_file_path(&self, key: &Vec<u8>, below: usize) -> (r: Option<usize>)
        requires
            self.tables_wf(),
            below <= self.table_count(),
        ensures
            match candidate(self.last_keys(), below as int, key@) {
                None => r is None,
                Some(j) => r == Some(j as usize),
            },
    {
        let ghost lasts = self.last_keys();
        let mut j = below;
        while j > 0
            invariant
                self.tables_wf(),
                lasts == self.last_keys(),
                j <= below <= self.table_count(),
                candidate(lasts, below as int, key@) == candidate(lasts, j as int, key@),
            decreases j,
        {
            let meta = &self.sstable_meta_list[j - 1];
            assert(self.table_ok(j - 1));
            if meta.last_key.compare_key(key) != KeyOrder::Less {
                proof {
                    <Vec<u8> as TypeSkipListKey>::lemma_key_order(meta.last_key@, key@, meta.last_key@);
                    assert(lasts[j - 1] == meta.last_key@);
                }
                return Some(j - 1);
            }
            assert(lasts[j - 1] == meta.last_key@);
            j = j - 1;
        }
        None
    }
}

} // verus!
