//! Insertions, deletions and reads.
use vstd::prelude::*;

use crate::circular_buffer;
use crate::config::Config;
use crate::error::ConfigError;
use crate::nodes::image::RecordView;
use crate::nodes::leaf_node::LeafReadResult;
use crate::nodes::OpType;
use crate::tree::ops;
use crate::tree::ops::LeafInsertResult;
use crate::tree::BfTree;
use crate::wal::operations;

verus! {

/// A key no longer than half of what a page has room for in fences, whose length and
/// that of its value together lie between the least and the greatest record size, is
/// stored, and a read then finds the whole value. Any other is refused, and the tree is
/// left as it was.
pub proof fn law_insert_takes_all_within_the_limits(
    before: &BfTree,
    tree: &BfTree,
    key: Seq<u8>,
    value: Seq<u8>,
    r: LeafInsertResult,
    buffer: Seq<u8>,
    found: LeafReadResult,
    read: Seq<u8>,
)
    requires
        ops::insert_done(before, tree, key, value, r),
        value.len() <= buffer.len(),
        tree.answers(key, buffer, found, read),
    ensures
        key.len() <= before.config.max_fence_len / 2 && before.config.cb_min_record_size
            <= key.len() + value.len() <= before.config.cb_max_record_size ==> {
            &&& r == LeafInsertResult::Success
            &&& found is Found
            &&& found->Found_0 == value.len()
            &&& read.len() == buffer.len()
            &&& read.take(value.len() as int) == value
            &&& read.skip(value.len() as int) == buffer.skip(value.len() as int)
        },
        !(key.len() <= before.config.max_fence_len / 2 && before.config.cb_min_record_size
            <= key.len() + value.len() <= before.config.cb_max_record_size) ==> r
            == LeafInsertResult::InvalidKV && *tree == *before,
{
    if r is Success {
        assert(tree@.contains_pair(key, value));
        assert(read.take(value.len() as int) =~= value);
        assert(read.skip(value.len() as int) =~= buffer.skip(value.len() as int));
    }
}

/// What an insertion leaves in the tree: what was there, with the value under the key.
/// That holds of a tree with a disk, and of one without that has two pages left in its
/// cache; one that has not may hold less, but nothing else.
pub proof fn law_insert_changes_one_key(
    before: &BfTree,
    tree: &BfTree,
    key: Seq<u8>,
    value: Seq<u8>,
    k: Seq<u8>,
)
    requires
        before.wf(),
        ops::insert_done(before, tree, key, value, LeafInsertResult::Success),
    ensures
        tree@.contains_key(key) && tree@[key] == value,
        k != key && tree@.contains_key(k) ==> before@.contains_key(k) && tree@[k] == before@[k],
        !before.cache_only || before.storage.circular_buffer.used + 2
            * before.config.leaf_page_size <= before.config.cb_size_byte ==> (k != key
            && before@.contains_key(k) ==> tree@.contains_key(k) && tree@[k] == before@[k]),
{
    if k != key && tree@.contains_key(k) {
        assert(before@.insert(key, value).contains_key(k));
    }
}

/// A key that was removed is answered with `Deleted` if it is within the limit, and is
/// then in no tree; one that is longer is none of the tree's, before and after.
pub proof fn law_delete_takes_the_key_away(
    before: &BfTree,
    tree: &BfTree,
    key: Seq<u8>,
    k: Seq<u8>,
    buffer: Seq<u8>,
    found: LeafReadResult,
    read: Seq<u8>,
)
    requires
        before.wf(),
        ops::delete_done(before, tree, key),
        tree.answers(key, buffer, found, read),
    ensures
        !tree@.contains_key(key),
        read == buffer,
        key.len() <= before.config.max_fence_len / 2 ==> found == LeafReadResult::Deleted,
        key.len() > before.config.max_fence_len / 2 ==> found == LeafReadResult::InvalidKey && *tree
            == *before,
        tree@.contains_key(k) ==> before@.contains_key(k) && tree@[k] == before@[k],
        !before.cache_only || before.storage.circular_buffer.used + 2
            * before.config.leaf_page_size <= before.config.cb_size_byte ==> (k != key
            && before@.contains_key(k) ==> tree@.contains_key(k) && tree@[k] == before@[k]),
{
    if tree@.contains_key(k) {
        assert(before@.remove(key).contains_key(k));
    }
    if tree@.contains_key(key) {
        assert(before@.remove(key).contains_key(key));
    }
}

/// A read tells what the tree holds: a key of the tree is found, with its whole value at
/// the front of the buffer and the rest of the buffer as it was; of any other key the
/// buffer shows nothing.
pub proof fn law_read_tells_what_is_there(
    tree: &BfTree,
    key: Seq<u8>,
    buffer: Seq<u8>,
    found: LeafReadResult,
    read: Seq<u8>,
)
    requires
        tree.wf(),
        tree@.contains_key(key) ==> tree@[key].len() <= buffer.len(),
        tree.answers(key, buffer, found, read),
    ensures
        tree@.contains_key(key) ==> {
            &&& found is Found
            &&& found->Found_0 == tree@[key].len()
            &&& read.len() == buffer.len()
            &&& read.take(tree@[key].len() as int) == tree@[key]
            &&& read.skip(tree@[key].len() as int) == buffer.skip(tree@[key].len() as int)
        },
        !tree@.contains_key(key) ==> !(found is Found) && read == buffer,
        found == LeafReadResult::InvalidKey <==> key.len() > tree.config.max_fence_len / 2,
{
    if tree@.contains_key(key) {
        let value = tree@[key];
        assert(read.take(value.len() as int) =~= value);
        assert(read.skip(value.len() as int) =~= buffer.skip(value.len() as int));
    }
}

/// A key as long as the configured greatest length is taken.
pub proof fn law_configured_key_length_is_taken(
    config: Config,
    n: usize,
    key: Seq<u8>,
    value: Seq<u8>,
)
    requires
        n <= usize::MAX / 2,
        key.len() <= n,
        config.cb_min_record_size <= key.len() + value.len() <= config.cb_max_record_size,
    ensures
        config.with_key_len(n).valid_kv(key, value),
        config.with_key_len(n).max_fence_len / 2 == n,
{
}

/// An insertion is logged if and only if it is carried out, and so is a deletion.
pub proof fn law_what_is_done_is_logged(tree: &BfTree, key: Seq<u8>, value: Seq<u8>)
    ensures
        tree.takes(RecordView { key, value, op: OpType::Insert }) <==> key.len()
            <= tree.config.max_fence_len / 2 && tree.config.cb_min_record_size <= key.len()
            + value.len() <= tree.config.cb_max_record_size,
        tree.takes(RecordView { key, value: Seq::empty(), op: OpType::Delete }) <==> key.len()
            <= tree.config.max_fence_len / 2,
{
}

/// An operation that was carried out on a tree with a log is the last entry of its log:
/// the key, the value and whether it was stored or removed can be read off that entry,
/// and the entries before it are as they were.
pub proof fn law_the_log_shows_the_operation(
    before: &BfTree,
    tree: &BfTree,
    key: Seq<u8>,
    value: Seq<u8>,
)
    requires
        before.wf(),
        before.wal is Some,
        before.config.ok(),
        key.len() <= before.config.max_fence_len / 2,
    ensures
        ops::insert_done(before, tree, key, value, LeafInsertResult::Success) ==> {
            let es = (before.wal->0)@;
            let now = (tree.wal->0)@;
            &&& tree.wal is Some
            &&& now.len() == es.len() + 1
            &&& forall|i: int| 0 <= i < es.len() ==> now[i] == es[i]
            &&& now.last().lsn == (before.wal->0).inner.next_lsn
            &&& now.last().page_offset == before.model().leaf_of(key) as u64
            &&& (tree.wal->0).durable()
            &&& (tree.wal->0).config == (before.wal->0).config
            &&& (tree.wal->0).inner.next_lsn == now.last().lsn + 1
            &&& operations::parse_op(now.last().data) == Some(
                RecordView { key, value, op: OpType::Insert },
            )
        },
        ops::delete_done(before, tree, key) ==> {
            let es = (before.wal->0)@;
            let now = (tree.wal->0)@;
            &&& tree.wal is Some
            &&& now.len() == es.len() + 1
            &&& forall|i: int| 0 <= i < es.len() ==> now[i] == es[i]
            &&& now.last().lsn == (before.wal->0).inner.next_lsn
            &&& now.last().page_offset == before.model().leaf_of(key) as u64
            &&& (tree.wal->0).durable()
            &&& (tree.wal->0).config == (before.wal->0).config
            &&& (tree.wal->0).inner.next_lsn == now.last().lsn + 1
            &&& operations::parse_op(now.last().data) == Some(
                RecordView { key, value: Seq::empty(), op: OpType::Delete },
            )
        },
{
    operations::law_logged_op_is_read_back(RecordView { key, value, op: OpType::Insert });
    operations::law_logged_op_is_read_back(
        RecordView { key, value: Seq::empty(), op: OpType::Delete },
    );
}

/// A configuration is in order if a leaf page of no more than 32 KiB has room for two
/// records of the greatest size beside its header and its fences, an inner node for three
/// separators of the greatest key length, and the page cache for two leaf pages, and if
/// the record sizes and the version make sense; and in no other case.
pub proof fn law_a_configuration_that_fits_is_in_order(config: Config)
    ensures
        config.ok() <==> {
            let k = config.max_fence_len as int / 2;
            &&& config.leaf_page_size <= 32768
            &&& 64 + 2 * k + 2 * (8 + config.cb_max_record_size) <= config.leaf_page_size
            &&& k <= config.cb_max_record_size
            &&& config.cb_min_record_size <= config.cb_max_record_size
            &&& 80 + 3 * (16 + k) <= 4096
            &&& 2 * config.leaf_page_size <= config.cb_size_byte
            &&& config.snapshot_version < 0x2000_0000_0000_0000
        },
        !config.ok() && 2 * config.leaf_page_size > config.cb_size_byte && (Config {
            cb_size_byte: usize::MAX,
            ..config
        }).ok() ==> config.first_error() == ConfigError::CircularBufferSize,
{
}

/// Why a configuration is refused: what is wrong with it is looked for in a fixed order,
/// and the first thing found is told.
pub proof fn law_why_a_configuration_is_refused(config: Config)
    ensures
        ({
            let k = config.max_fence_len as int / 2;
            let pages = config.leaf_page_size > 32768;
            let least = config.cb_min_record_size > config.cb_max_record_size;
            let keys = k > config.cb_max_record_size;
            let records = 64 + 2 * k + 2 * (8 + config.cb_max_record_size) > config.leaf_page_size;
            let nodes = 80 + 3 * (16 + k) > 4096;
            let cache = 2 * config.leaf_page_size > config.cb_size_byte;
            let e = config.first_error();
            &&& pages ==> e == ConfigError::LeafPageSize
            &&& !pages && least ==> e == ConfigError::MinimumRecordSize
            &&& !pages && !least && keys ==> e == ConfigError::MaxKeyLen
            &&& !pages && !least && !keys && records ==> e == ConfigError::MaximumRecordSize
            &&& !pages && !least && !keys && !records && nodes ==> e == ConfigError::MaxKeyLen
            &&& !pages && !least && !keys && !records && !nodes && cache ==> e
                == ConfigError::CircularBufferSize
        }),
{
}

/// An operation leaves the settings of a tree and the coordinator of its snapshots as they
/// were: no slot is held for longer than the operation.
pub proof fn law_an_operation_holds_no_slot(before: &BfTree, tree: &BfTree)
    requires
        tree.settled(before),
    ensures
        tree.config == before.config,
        tree.cache_only == before.cache_only,
        (tree.snapshot_mgr is Some) == (before.snapshot_mgr is Some),
        before.snapshot_mgr matches Some(m) ==> {
            let n = tree.snapshot_mgr->0;
            &&& n.thread_slots@ == m.thread_slots@
            &&& n.thread_local_states@ == m.thread_local_states@
            &&& n.global_state == m.global_state
            &&& n.snapshot_in_progress == m.snapshot_in_progress
            &&& n.pause_snapshot == m.pause_snapshot
        },
{
}

/// When a tree takes operations: if it has no snapshots, or a slot is free and no pause has
/// been asked for; if the page table has room for four pages more than there are and may
/// come out of the cache; and if its log, where it has one, takes an entry of five bytes
/// besides key and value.
pub proof fn law_when_a_tree_takes_operations(tree: &BfTree, n: nat)
    ensures
        tree.snapshot_mgr is None ==> tree.admits(),
        tree.snapshot_mgr matches Some(m) ==> (tree.admits() <==> !m.pause_snapshot && exists|
            i: int,
        |
            0 <= i < m.thread_slots@.len() && !(#[trigger] m.thread_slots@[i])),
        tree.load() == tree.model().pages.len() + if tree.cache_only {
            0
        } else {
            tree.storage.circular_buffer.entries@.len()
        },
        tree.wal is None ==> tree.log_admits(n),
        tree.wal matches Some(w) ==> (tree.log_admits(n) <==> w.wf() && w.admits(n + 5)),
{
}

/// How many pages are evicted to make room: the oldest ones, until the rest leaves room
/// for two pages, and not one more.
pub proof fn law_no_more_is_evicted_than_needed(entries: Seq<(u64, usize)>, most: int)
    requires
        most >= 0,
    ensures
        ({
            let n = circular_buffer::evictions(entries, most) as int;
            &&& 0 <= n <= entries.len()
            &&& circular_buffer::total(entries.skip(n)) <= most
            &&& forall|i: int|
                0 <= i < n ==> circular_buffer::total(#[trigger] entries.skip(i)) > most
        }),
    decreases entries.len(),
{
    assert(entries.skip(0) =~= entries);
    if entries.len() > 0 && circular_buffer::total(entries) > most {
        let rest = entries.remove(0);
        law_no_more_is_evicted_than_needed(rest, most);
        let n = circular_buffer::evictions(entries, most) as int;
        assert(entries.skip(n) =~= rest.skip(n - 1));
        assert forall|i: int| 0 <= i < n implies circular_buffer::total(
            #[trigger] entries.skip(i),
        ) > most by {
            if i > 0 {
                assert(entries.skip(i) =~= rest.skip(i - 1));
            }
        }
    }
}

/// What an operation on a tree without a disk forgets: keys of the oldest pages in the
/// cache, so many of them that the rest leaves room for two pages. A tree with a disk
/// forgets nothing, nor does one that has the room.
pub proof fn law_only_the_oldest_pages_are_forgotten(tree: &BfTree, k: Seq<u8>)
    requires
        tree.wf(),
    ensures
        !tree.cache_only ==> !tree.forgets(k),
        tree.storage.circular_buffer.used + 2 * tree.config.leaf_page_size
            <= tree.config.cb_size_byte ==> !tree.forgets(k),
        tree.forgets(k) ==> exists|i: int|
            #![trigger tree.storage.circular_buffer.entries@[i]]
            {
                let es = tree.storage.circular_buffer.entries@;
                &&& 0 <= i < es.len()
                &&& es[i].0 == tree.model().leaf_of(k)
                &&& circular_buffer::total(es.skip(i)) + 2 * tree.config.leaf_page_size
                    > tree.config.cb_size_byte
            },
        forall|i: int|
            #![trigger tree.storage.circular_buffer.entries@[i]]
            ({
                let es = tree.storage.circular_buffer.entries@;
                &&& tree.cache_only
                &&& 0 <= i < es.len()
                &&& es[i].0 == tree.model().leaf_of(k)
                &&& circular_buffer::total(es.skip(i)) + 2 * tree.config.leaf_page_size
                    > tree.config.cb_size_byte
            }) ==> tree.forgets(k),
        tree@.contains_key(k) && !tree.forgets(k) ==> tree.left().contains_key(k) && tree.left()[k]
            == tree@[k],
        tree.left().contains_key(k) ==> tree@.contains_key(k) && !tree.forgets(k),
{
    let es = tree.storage.circular_buffer.entries@;
    let most = tree.config.cb_size_byte - 2 * tree.config.leaf_page_size;
    law_no_more_is_evicted_than_needed(es, most);
    if tree.forgets(k) {
        let n = tree.evicts();
        let i = choose|i: int|
            0 <= i < n && i < es.len() && (#[trigger] es[i]).0 == tree.model().leaf_of(k);
        assert(circular_buffer::total(es.skip(i)) > most);
    }
    assert forall|i: int|
        #![trigger es[i]]
        tree.cache_only && 0 <= i < es.len() && es[i].0 == tree.model().leaf_of(k)
            && circular_buffer::total(es.skip(i)) > most implies tree.forgets(k) by {
        let n = tree.evicts() as int;
        if n <= i {
            lemma_less_behind(es, n, i);
        }
    }
}

/// The later pages alone take no more than with those before them.
proof fn lemma_less_behind(entries: Seq<(u64, usize)>, n: int, i: int)
    requires
        0 <= n <= i <= entries.len(),
    ensures
        circular_buffer::total(entries.skip(i)) <= circular_buffer::total(entries.skip(n)),
    decreases i - n,
{
    if n < i {
        circular_buffer::lemma_total_remove(entries.skip(n), 0);
        assert(entries.skip(n).remove(0) =~= entries.skip(n + 1));
        lemma_less_behind(entries, n + 1, i);
    }
}

/// The pages in the cache take what they are listed with, altogether.
pub proof fn law_what_the_cache_holds(entries: Seq<(u64, usize)>, e: (u64, usize))
    ensures
        circular_buffer::total(Seq::empty()) == 0,
        circular_buffer::total(entries.push(e)) == circular_buffer::total(entries) + e.1,
{
    assert(entries.push(e).drop_last() =~= entries);
}

} // verus!
