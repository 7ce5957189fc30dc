//! Facts about the table layout, leading to the law that reading a table gives
//! back the pairs it was written from.
use crate::bytes_util::{le8, lemma_le8, read_le8};
use crate::codec::{bitcode_of_rows, bitcode_of_u64_pair, bitcode_rows_from, bitcode_u64_pair_from};
use crate::ordered::{keys_sorted, lemma_lookup_absent, lemma_lookup_at, lookup};
use crate::sstable::format::{
    block_bytes, block_of, block_for, data_bytes, entry_size, first_not_below, footer_of,
    footer_section, index_of, index_rows, index_section, keys_increasing, kv_entry,
    last_key_before, parse_entries, rows_nondecreasing, split_blocks, split_rec, sstable_layout,
    sstable_read, ReadFault, BLOCK_LIMIT,
};
use crate::traits::{lex_lt, TypeSkipListKey};
use vstd::prelude::*;

verus! {

pub proof fn lemma_kv_entry_len(k: Seq<u8>, v: Seq<u8>)
    ensures
        kv_entry(k, v).len() == entry_size((k, v)),
{
    lemma_le8(k.len() as u64);
    lemma_le8(v.len() as u64);
}

/// Appending an entry appends its bytes.
pub proof fn lemma_block_bytes_push(es: Seq<(Seq<u8>, Seq<u8>)>, e: (Seq<u8>, Seq<u8>))
    ensures
        block_bytes(es.push(e)) == block_bytes(es) + kv_entry(e.0, e.1),
    decreases es.len(),
{
    if es.len() == 0 {
        assert(es.push(e).drop_first() =~= Seq::<(Seq<u8>, Seq<u8>)>::empty());
        assert(block_bytes(Seq::<(Seq<u8>, Seq<u8>)>::empty()) == Seq::<u8>::empty());
        assert(block_bytes(es.push(e)) =~= kv_entry(e.0, e.1));
    } else {
        lemma_block_bytes_push(es.drop_first(), e);
        assert(es.push(e).drop_first() =~= es.drop_first().push(e));
        assert(block_bytes(es.push(e)) =~= block_bytes(es) + kv_entry(e.0, e.1));
    }
}

/// A run of entries takes at least 16 bytes per entry.
pub proof fn lemma_block_bytes_len(es: Seq<(Seq<u8>, Seq<u8>)>)
    ensures
        block_bytes(es).len() >= 16 * es.len(),
        es.len() > 0 ==> block_bytes(es).len() == entry_size(es[0]) + block_bytes(es.drop_first()).len(),
    decreases es.len(),
{
    if es.len() > 0 {
        lemma_kv_entry_len(es[0].0, es[0].1);
        lemma_block_bytes_len(es.drop_first());
    }
}

/// The block from `start` to `i + 1` is the block to `i` and then entry `i`.
pub proof fn lemma_block_extend(entries: Seq<(Seq<u8>, Seq<u8>)>, start: int, i: int)
    requires
        0 <= start <= i < entries.len(),
    ensures
        block_bytes(entries.subrange(start, i + 1)) == block_bytes(entries.subrange(start, i))
            + kv_entry(entries[i].0, entries[i].1),
{
    assert(entries.subrange(start, i + 1) =~= entries.subrange(start, i).push(entries[i]));
    lemma_block_bytes_push(entries.subrange(start, i), entries[i]);
}

/// A window of a window is a window.
pub proof fn lemma_sub_sub(bytes: Seq<u8>, pos: int, n: int, i: int, j: int)
    requires
        0 <= pos,
        pos + n <= bytes.len(),
        0 <= i <= j <= n,
    ensures
        bytes.subrange(pos + i, pos + j) == bytes.subrange(pos, pos + n).subrange(i, j),
{
    assert(bytes.subrange(pos + i, pos + j) =~= bytes.subrange(pos, pos + n).subrange(i, j));
}

/// Reading at `pos` a run of entries that was written there gives the entries back.
pub proof fn lemma_parse_block(bytes: Seq<u8>, pos: int, es: Seq<(Seq<u8>, Seq<u8>)>)
    requires
        0 <= pos,
        pos + block_bytes(es).len() <= bytes.len(),
        bytes.len() <= u64::MAX,
        bytes.subrange(pos, pos + block_bytes(es).len()) == block_bytes(es),
    ensures
        parse_entries(bytes, pos, block_bytes(es).len() as int) == Ok::<_, crate::sstable::format::ReadFault>(es),
    decreases es.len(),
{
    lemma_block_bytes_len(es);
    if es.len() > 0 {
        let k = es[0].0;
        let v = es[0].1;
        let rest = es.drop_first();
        let kl = k.len() as int;
        let vl = v.len() as int;
        let all = block_bytes(es);
        let n = all.len() as int;
        lemma_block_bytes_len(rest);
        lemma_le8(k.len() as u64);
        lemma_le8(v.len() as u64);
        let lk = le8(k.len() as u64);
        let lv = le8(v.len() as u64);
        let rb = block_bytes(rest);
        assert(all =~= lk + k + lv + v + rb);
        assert(n == 16 + kl + vl + rb.len());
        lemma_sub_sub(bytes, pos, n, 0, 8);
        assert(all.subrange(0, 8) =~= lk);
        assert(read_le8(bytes, pos) == kl);
        lemma_sub_sub(bytes, pos, n, 8, 8 + kl);
        assert(all.subrange(8, 8 + kl) =~= k);
        lemma_sub_sub(bytes, pos, n, 8 + kl, 16 + kl);
        assert(all.subrange(8 + kl, 16 + kl) =~= lv);
        assert(read_le8(bytes, pos + 8 + kl) == vl);
        lemma_sub_sub(bytes, pos, n, 16 + kl, 16 + kl + vl);
        assert(all.subrange(16 + kl, 16 + kl + vl) =~= v);
        let step = 16 + kl + vl;
        if rest.len() > 0 {
            lemma_sub_sub(bytes, pos, n, step, n);
            assert(all.subrange(step, n) =~= rb);
            lemma_parse_block(bytes, pos + step, rest);
            assert(parse_entries(bytes, pos + step, n - step) == Ok::<_, crate::sstable::format::ReadFault>(rest));
            assert(seq![(k, v)] + rest =~= es);
        } else {
            assert(seq![(k, v)] =~= es);
        }
    } else {
        assert(es =~= Seq::<(Seq<u8>, Seq<u8>)>::empty());
    }
}

/// `cuts` are nonempty blocks laid end to end from index 0 to `upto`.
pub open spec fn cuts_ok(entries: Seq<(Seq<u8>, Seq<u8>)>, cuts: Seq<(int, int)>, upto: int) -> bool {
    &&& forall|j: int| 0 <= j < cuts.len() ==> 0 <= (#[trigger] cuts[j]).0 <= cuts[j].1 <= entries.len()
    &&& cuts.len() > 0 ==> cuts[0].0 == 0
    &&& forall|j: int| 0 <= j && j + 1 < cuts.len() ==> (#[trigger] cuts[j]).1 == cuts[j + 1].0
    &&& cuts.len() > 0 ==> cuts.last().1 == upto
    &&& cuts.len() == 0 ==> upto == 0
    &&& forall|j: int| 0 <= j < cuts.len() ==> (#[trigger] cuts[j]).0 < cuts[j].1
}

proof fn lemma_split_rec(entries: Seq<(Seq<u8>, Seq<u8>)>, i: int, start: int, done: Seq<(int, int)>)
    requires
        0 <= start <= i <= entries.len(),
        cuts_ok(entries, done, start),
        start == i ==> i == 0 && done.len() == 0,
    ensures
        cuts_ok(entries, split_rec(entries, i, start, done), entries.len() as int),
    decreases entries.len() - i,
{
    if i >= entries.len() {
        if start < i {
            let d2 = done.push((start, i));
            assert(forall|j: int| 0 <= j < done.len() ==> d2[j] == done[j]);
        }
    } else if start >= i || block_bytes(entries.subrange(start, i)).len() + entry_size(entries[i])
        < BLOCK_LIMIT as int {
        lemma_split_rec(entries, i + 1, start, done);
    } else {
        let d2 = done.push((start, i));
        assert(forall|j: int| 0 <= j < done.len() ==> d2[j] == done[j]);
        assert(cuts_ok(entries, d2, i));
        lemma_split_rec(entries, i + 1, i, d2);
    }
}

/// The writer's blocks are laid end to end over all entries.
pub proof fn lemma_split_blocks(entries: Seq<(Seq<u8>, Seq<u8>)>)
    ensures
        cuts_ok(entries, split_blocks(entries), entries.len() as int),
{
    lemma_split_rec(entries, 0, 0, seq![]);
}

/// A block ends no later than any later block starts.
pub proof fn lemma_cuts_ordered(entries: Seq<(Seq<u8>, Seq<u8>)>, cuts: Seq<(int, int)>, upto: int, j: int, k: int)
    requires
        cuts_ok(entries, cuts, upto),
        0 <= j < k < cuts.len(),
    ensures
        cuts[j].1 <= cuts[k].0,
    decreases k - j,
{
    if j + 1 < k {
        lemma_cuts_ordered(entries, cuts, upto, j + 1, k);
    }
}

/// Every entry before `cuts[m - 1].1` lies in one of the first `m` blocks.
pub proof fn lemma_cut_containing(entries: Seq<(Seq<u8>, Seq<u8>)>, cuts: Seq<(int, int)>, upto: int, t: int, m: int) -> (b: int)
    requires
        cuts_ok(entries, cuts, upto),
        0 < m <= cuts.len(),
        0 <= t < cuts[m - 1].1,
    ensures
        0 <= b < m,
        cuts[b].0 <= t < cuts[b].1,
    decreases m,
{
    if cuts[m - 1].0 <= t {
        m - 1
    } else {
        assert(m - 1 > 0);
        assert(cuts[m - 2].1 == cuts[m - 1].0);
        lemma_cut_containing(entries, cuts, upto, t, m - 1)
    }
}

/// The bytes of the first `j + 1` blocks are those of the first `j`, then block `j`.
pub proof fn lemma_data_take_succ(entries: Seq<(Seq<u8>, Seq<u8>)>, cuts: Seq<(int, int)>, j: int)
    requires
        0 <= j < cuts.len(),
    ensures
        data_bytes(entries, cuts.take(j + 1)) == data_bytes(entries, cuts.take(j)) + block_bytes(
            block_of(entries, cuts[j]),
        ),
{
    assert(cuts.take(j + 1).drop_last() =~= cuts.take(j));
}

/// The bytes of the first `m` blocks begin the bytes of all blocks.
pub proof fn lemma_data_prefix(entries: Seq<(Seq<u8>, Seq<u8>)>, cuts: Seq<(int, int)>, m: int)
    requires
        0 <= m <= cuts.len(),
    ensures
        data_bytes(entries, cuts.take(m)).len() <= data_bytes(entries, cuts).len(),
        data_bytes(entries, cuts).subrange(0, data_bytes(entries, cuts.take(m)).len() as int)
            == data_bytes(entries, cuts.take(m)),
    decreases cuts.len() - m,
{
    if m == cuts.len() {
        assert(cuts.take(m) =~= cuts);
        assert(data_bytes(entries, cuts).subrange(0, data_bytes(entries, cuts).len() as int)
            =~= data_bytes(entries, cuts));
    } else {
        lemma_data_prefix(entries, cuts, m + 1);
        lemma_data_take_succ(entries, cuts, m);
        let a = data_bytes(entries, cuts.take(m));
        let b = data_bytes(entries, cuts.take(m + 1));
        let all = data_bytes(entries, cuts);
        assert(all.subrange(0, a.len() as int) =~= all.subrange(0, b.len() as int).subrange(
            0,
            a.len() as int,
        ));
        assert(b.subrange(0, a.len() as int) =~= a);
    }
}

/// Block `j` sits at its offset in the bytes of all blocks.
pub proof fn lemma_block_located(entries: Seq<(Seq<u8>, Seq<u8>)>, cuts: Seq<(int, int)>, j: int)
    requires
        0 <= j < cuts.len(),
    ensures
        ({
            let off = data_bytes(entries, cuts.take(j)).len() as int;
            let blk = block_bytes(block_of(entries, cuts[j]));
            &&& off + blk.len() <= data_bytes(entries, cuts).len()
            &&& data_bytes(entries, cuts).subrange(off, off + blk.len()) == blk
        }),
{
    lemma_data_prefix(entries, cuts, j + 1);
    lemma_data_take_succ(entries, cuts, j);
    let off = data_bytes(entries, cuts.take(j)).len() as int;
    let blk = block_bytes(block_of(entries, cuts[j]));
    let b = data_bytes(entries, cuts.take(j + 1));
    let all = data_bytes(entries, cuts);
    assert(all.subrange(off, off + blk.len()) =~= b.subrange(off, off + blk.len()));
    assert(b.subrange(off, off + blk.len()) =~= blk);
}

/// `first_not_below` is the place where the last keys stop being below `key`.
pub proof fn lemma_first_not_below_at(rows: Seq<(u64, u64, Seq<u8>)>, key: Seq<u8>, p: int)
    requires
        0 <= p <= rows.len(),
        forall|j: int| 0 <= j < p ==> lex_lt((#[trigger] rows[j]).2, key),
        p < rows.len() ==> !lex_lt(rows[p].2, key),
    ensures
        first_not_below(rows, key) == p,
    decreases p,
{
    if p > 0 {
        let t = rows.drop_first();
        assert forall|j: int| 0 <= j < p - 1 implies lex_lt((#[trigger] t[j]).2, key) by {
            assert(t[j] == rows[j + 1]);
        }
        if p < rows.len() {
            assert(t[p - 1] == rows[p]);
        }
        lemma_first_not_below_at(t, key, p - 1);
    }
}

/// `first_not_below` is between 0 and the number of rows.
pub proof fn lemma_first_not_below_range(rows: Seq<(u64, u64, Seq<u8>)>, key: Seq<u8>)
    ensures
        0 <= first_not_below(rows, key) <= rows.len(),
    decreases rows.len(),
{
    if rows.len() > 0 {
        lemma_first_not_below_range(rows.drop_first(), key);
    }
}

/// No byte string is below the empty one, and the empty one is below every other.
pub proof fn lemma_lex_empty(a: Seq<u8>)
    ensures
        !lex_lt(a, seq![]),
        lex_lt(seq![], a) <==> a.len() > 0,
{
}

/// In sorted entries, an earlier key is below a later one.
pub proof fn lemma_sorted_lt(entries: Seq<(Seq<u8>, Seq<u8>)>, i: int, j: int)
    requires
        keys_sorted::<Vec<u8>, Seq<u8>>(entries),
        0 <= i < j < entries.len(),
    ensures
        lex_lt(entries[i].0, entries[j].0),
{
    assert(<Vec<u8> as TypeSkipListKey>::key_lt(entries[i].0, entries[j].0));
}

/// The last keys of the writer's blocks never go down.
pub proof fn lemma_rows_nondecreasing(entries: Seq<(Seq<u8>, Seq<u8>)>, cuts: Seq<(int, int)>)
    requires
        keys_sorted::<Vec<u8>, Seq<u8>>(entries),
        cuts_ok(entries, cuts, entries.len() as int),
    ensures
        rows_nondecreasing(index_rows(entries, cuts)),
{
    let rows = index_rows(entries, cuts);
    assert forall|i: int| 0 <= i && i + 1 < rows.len() implies !lex_lt(
        #[trigger] rows[i + 1].2,
        rows[i].2,
    ) by {
        let e1 = cuts[i].1;
        let e2 = cuts[i + 1].1;
        assert(e1 <= e2);
        let a = last_key_before(entries, e1);
        let b = last_key_before(entries, e2);
        assert(rows[i].2 == a);
        assert(rows[i + 1].2 == b);
        lemma_lex_empty(b);
        if e1 > 0 && e1 < e2 {
            lemma_sorted_lt(entries, e1 - 1, e2 - 1);
            <Vec<u8> as TypeSkipListKey>::lemma_key_order(entries[e1 - 1].0, entries[e2 - 1].0, entries[e1 - 1].0);
        } else if e1 > 0 {
            <Vec<u8> as TypeSkipListKey>::lemma_key_order(a, a, a);
        }
    }
}

/// The footer and the index of a written table read back as written.
pub proof fn lemma_layout_index(entries: Seq<(Seq<u8>, Seq<u8>)>)
    requires
        keys_sorted::<Vec<u8>, Seq<u8>>(entries),
        sstable_layout(entries).len() <= u64::MAX,
        bitcode_rows_from(bitcode_of_rows(index_rows(entries, split_blocks(entries)))) == Some(
            index_rows(entries, split_blocks(entries)),
        ),
        ({
            let d = data_bytes(entries, split_blocks(entries)).len() as u64;
            let il = index_section(index_rows(entries, split_blocks(entries))).len() as u64;
            bitcode_u64_pair_from(bitcode_of_u64_pair(d, il)) == Some((d, il))
        }),
    ensures
        index_of(sstable_layout(entries)) == Ok::<_, ReadFault>(index_rows(entries, split_blocks(entries))),
{
    let cuts = split_blocks(entries);
    lemma_split_blocks(entries);
    let rows = index_rows(entries, cuts);
    let data = data_bytes(entries, cuts);
    let ib = bitcode_of_rows(rows);
    let index = index_section(rows);
    let d = data.len() as u64;
    let il = index.len() as u64;
    let fb = bitcode_of_u64_pair(d, il);
    let footer = footer_section(d, il);
    let all = data + index + footer;
    assert(all == sstable_layout(entries));
    lemma_le8(fb.len() as u64);
    lemma_le8(ib.len() as u64);
    assert(all.subrange(all.len() - 8, all.len() as int) =~= le8(fb.len() as u64));
    assert(all.subrange(all.len() - 8 - fb.len(), all.len() - 8) =~= fb);
    assert(footer_of(all) == Ok::<_, ReadFault>((d, il)));
    assert(all.subrange(data.len() as int, data.len() + 8 as int) =~= le8(ib.len() as u64));
    assert(all.subrange(data.len() + 8 as int, data.len() + 8 + ib.len() as int) =~= ib);
    lemma_rows_nondecreasing(entries, cuts);
}

/// Reading block `j` of a written table gives its entries.
pub proof fn lemma_layout_block(entries: Seq<(Seq<u8>, Seq<u8>)>, j: int)
    requires
        0 <= j < split_blocks(entries).len(),
        sstable_layout(entries).len() <= u64::MAX,
    ensures
        ({
            let cuts = split_blocks(entries);
            let rows = index_rows(entries, cuts);
            parse_entries(sstable_layout(entries), rows[j].1 as int, rows[j].0 as int) == Ok::<
                _,
                ReadFault,
            >(block_of(entries, cuts[j]))
        }),
{
    let cuts = split_blocks(entries);
    let rows = index_rows(entries, cuts);
    let data = data_bytes(entries, cuts);
    let all = sstable_layout(entries);
    lemma_block_located(entries, cuts, j);
    let off = data_bytes(entries, cuts.take(j)).len() as int;
    let blk = block_bytes(block_of(entries, cuts[j]));
    assert(all.subrange(off, off + blk.len()) =~= data.subrange(off, off + blk.len()));
    lemma_parse_block(all, off, block_of(entries, cuts[j]));
}

/// Every block of a written table holds a sorted run of the entries.
pub proof fn lemma_blocks_increasing(entries: Seq<(Seq<u8>, Seq<u8>)>, b: int)
    requires
        keys_sorted::<Vec<u8>, Seq<u8>>(entries),
        cuts_ok(entries, split_blocks(entries), entries.len() as int),
        0 <= b < split_blocks(entries).len(),
    ensures
        keys_increasing(block_of(entries, split_blocks(entries)[b])),
        keys_sorted::<Vec<u8>, Seq<u8>>(block_of(entries, split_blocks(entries)[b])),
{
    let c = split_blocks(entries)[b];
    let blk = block_of(entries, c);
    assert forall|i: int| 0 <= i && i + 1 < blk.len() implies lex_lt(#[trigger] blk[i].0, blk[i + 1].0) by {
        assert(blk[i] == entries[c.0 + i] && blk[i + 1] == entries[c.0 + i + 1]);
        lemma_sorted_lt(entries, c.0 + i, c.0 + i + 1);
    }
    assert forall|x: int, y: int| 0 <= x < y < blk.len() implies <Vec<u8> as TypeSkipListKey>::key_lt(
        #[trigger] blk[x].0,
        #[trigger] blk[y].0,
    ) by {
        assert(blk[x] == entries[c.0 + x] && blk[y] == entries[c.0 + y]);
        lemma_sorted_lt(entries, c.0 + x, c.0 + y);
    }
}

/// A key held by entry `t` of a written table reads back its value.
#[verifier::spinoff_prover]
#[verifier::rlimit(40)]
proof fn lemma_layout_read_present(entries: Seq<(Seq<u8>, Seq<u8>)>, t: int)
    requires
        keys_sorted::<Vec<u8>, Seq<u8>>(entries),
        sstable_layout(entries).len() <= u64::MAX,
        index_of(sstable_layout(entries)) == Ok::<_, ReadFault>(index_rows(entries, split_blocks(entries))),
        0 <= t < entries.len(),
    ensures
        sstable_read(sstable_layout(entries), entries[t].0) == Ok::<_, ReadFault>(Some(entries[t].1)),
{
    let key = entries[t].0;
    let cuts = split_blocks(entries);
    lemma_split_blocks(entries);
    let rows = index_rows(entries, cuts);
    let all = sstable_layout(entries);
    let n = entries.len() as int;
    assert(cuts.len() > 0);
    let b = lemma_cut_containing(entries, cuts, n, t, cuts.len() as int);
    assert forall|j: int| 0 <= j < b implies lex_lt((#[trigger] rows[j]).2, key) by {
        lemma_cuts_ordered(entries, cuts, n, j, b);
        let e = cuts[j].1;
        lemma_sorted_lt(entries, e - 1, t);
    }
    let e = cuts[b].1;
    if e - 1 > t {
        lemma_sorted_lt(entries, t, e - 1);
    }
    <Vec<u8> as TypeSkipListKey>::lemma_key_order(entries[e - 1].0, key, entries[e - 1].0);
    assert(!lex_lt(rows[b].2, key));
    lemma_first_not_below_at(rows, key, b);
    lemma_layout_block(entries, b);
    lemma_blocks_increasing(entries, b);
    let blk = block_of(entries, cuts[b]);
    assert(block_for(all, key) == Ok::<_, ReadFault>(Some(blk)));
    assert(blk[t - cuts[b].0] == entries[t]);
    lemma_lookup_at::<Vec<u8>, Seq<u8>>(blk, t - cuts[b].0);
}

/// A key that no entry holds reads nothing from a written table.
proof fn lemma_layout_read_absent(entries: Seq<(Seq<u8>, Seq<u8>)>, key: Seq<u8>)
    requires
        keys_sorted::<Vec<u8>, Seq<u8>>(entries),
        sstable_layout(entries).len() <= u64::MAX,
        index_of(sstable_layout(entries)) == Ok::<_, ReadFault>(index_rows(entries, split_blocks(entries))),
        forall|t: int| 0 <= t < entries.len() ==> (#[trigger] entries[t]).0 != key,
    ensures
        sstable_read(sstable_layout(entries), key) == Ok::<_, ReadFault>(None::<Seq<u8>>),
{
    let cuts = split_blocks(entries);
    lemma_split_blocks(entries);
    let rows = index_rows(entries, cuts);
    lemma_first_not_below_range(rows, key);
    let p = first_not_below(rows, key);
    if p < rows.len() {
        lemma_layout_block(entries, p);
        lemma_blocks_increasing(entries, p);
        let blk = block_of(entries, cuts[p]);
        assert forall|i: int| 0 <= i < blk.len() implies (#[trigger] blk[i]).0 != key by {
            assert(blk[i] == entries[cuts[p].0 + i]);
        }
        lemma_lookup_absent(blk, key);
    }
}

/// Reading a key from a written table gives what the entries bind it to.
pub proof fn lemma_layout_read(entries: Seq<(Seq<u8>, Seq<u8>)>, key: Seq<u8>)
    requires
        keys_sorted::<Vec<u8>, Seq<u8>>(entries),
        sstable_layout(entries).len() <= u64::MAX,
        bitcode_rows_from(bitcode_of_rows(index_rows(entries, split_blocks(entries)))) == Some(
            index_rows(entries, split_blocks(entries)),
        ),
        ({
            let d = data_bytes(entries, split_blocks(entries)).len() as u64;
            let il = index_section(index_rows(entries, split_blocks(entries))).len() as u64;
            bitcode_u64_pair_from(bitcode_of_u64_pair(d, il)) == Some((d, il))
        }),
    ensures
        sstable_read(sstable_layout(entries), key) == Ok::<_, ReadFault>(lookup(entries, key)),
{
    lemma_layout_index(entries);
    if exists|t: int| 0 <= t < entries.len() && entries[t].0 == key {
        let t = choose|t: int| 0 <= t < entries.len() && entries[t].0 == key;
        lemma_layout_read_present(entries, t);
        lemma_lookup_at::<Vec<u8>, Seq<u8>>(entries, t);
    } else {
        lemma_lookup_absent(entries, key);
        lemma_layout_read_absent(entries, key);
    }
}

/// Closing one more block appends its bytes.
pub proof fn lemma_data_bytes_push(entries: Seq<(Seq<u8>, Seq<u8>)>, cuts: Seq<(int, int)>, c: (int, int))
    ensures
        data_bytes(entries, cuts.push(c)) == data_bytes(entries, cuts) + block_bytes(block_of(entries, c)),
{
    assert(cuts.push(c).drop_last() =~= cuts);
}

/// Closing one more block appends its row to the index.
pub proof fn lemma_index_rows_push(entries: Seq<(Seq<u8>, Seq<u8>)>, cuts: Seq<(int, int)>, c: (int, int))
    ensures
        index_rows(entries, cuts.push(c)) == index_rows(entries, cuts).push(
            (
                block_bytes(block_of(entries, c)).len() as u64,
                data_bytes(entries, cuts).len() as u64,
                last_key_before(entries, c.1),
            ),
        ),
{
    let d2 = cuts.push(c);
    assert forall|j: int| 0 <= j < cuts.len() implies d2.take(j) == cuts.take(j) by {
        assert(d2.take(j) =~= cuts.take(j));
    }
    assert(d2.take(cuts.len() as int) =~= cuts);
    assert(index_rows(entries, d2) =~= index_rows(entries, cuts).push(
        (
            block_bytes(block_of(entries, c)).len() as u64,
            data_bytes(entries, cuts).len() as u64,
            last_key_before(entries, c.1),
        ),
    ));
}

/// The block `cut` of `entries` stays under `BLOCK_LIMIT` bytes or holds one entry.
pub open spec fn block_small(entries: Seq<(Seq<u8>, Seq<u8>)>, cut: (int, int)) -> bool {
    block_bytes(block_of(entries, cut)).len() < BLOCK_LIMIT as int || cut.1 - cut.0 == 1
}

proof fn lemma_split_rec_small(entries: Seq<(Seq<u8>, Seq<u8>)>, i: int, start: int, done: Seq<(int, int)>)
    requires
        0 <= start <= i <= entries.len(),
        forall|j: int| 0 <= j < done.len() ==> block_small(entries, #[trigger] done[j]),
        block_small(entries, (start, i)),
    ensures
        forall|j: int|
            0 <= j < split_rec(entries, i, start, done).len() ==> block_small(
                entries,
                #[trigger] split_rec(entries, i, start, done)[j],
            ),
    decreases entries.len() - i,
{
    if i < entries.len() {
        lemma_block_extend(entries, start, i);
        lemma_kv_entry_len(entries[i].0, entries[i].1);
        if start >= i || block_bytes(entries.subrange(start, i)).len() + entry_size(entries[i])
            < BLOCK_LIMIT as int {
            assert(split_rec(entries, i, start, done) == split_rec(entries, i + 1, start, done));
            lemma_split_rec_small(entries, i + 1, start, done);
        } else {
            assert(split_rec(entries, i, start, done) == split_rec(entries, i + 1, i, done.push((start, i))));
            let d2 = done.push((start, i));
            assert forall|j: int| 0 <= j < d2.len() implies block_small(entries, #[trigger] d2[j]) by {
                if j < done.len() {
                    assert(d2[j] == done[j]);
                }
            }
            lemma_split_rec_small(entries, i + 1, i, d2);
        }
    } else if start < i {
        let d2 = done.push((start, i));
        assert(split_rec(entries, i, start, done) == d2);
        assert forall|j: int| 0 <= j < d2.len() implies block_small(entries, #[trigger] d2[j]) by {
            if j < done.len() {
                assert(d2[j] == done[j]);
            }
        }
    }
}

/// Every block the writer closes holds fewer than `BLOCK_LIMIT` bytes, or a single
/// entry that alone reaches the limit.
pub proof fn lemma_blocks_small(entries: Seq<(Seq<u8>, Seq<u8>)>)
    ensures
        forall|j: int|
            0 <= j < split_blocks(entries).len() ==> block_small(
                entries,
                #[trigger] split_blocks(entries)[j],
            ),
{
    assert(entries.subrange(0, 0) =~= Seq::<(Seq<u8>, Seq<u8>)>::empty());
    lemma_split_rec_small(entries, 0, 0, seq![]);
}

} // verus!
