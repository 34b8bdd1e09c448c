//! Bringing a tree back from a snapshot and a log.
use vstd::prelude::*;

use crate::config::{Config, WalConfig};
use crate::error::ConfigError;
use crate::model;
use crate::model::Core;
use crate::nodes::image::RecordView;
use crate::nodes::OpType;
use crate::snapshot::finalize;
use crate::snapshot::meta;
use crate::snapshot::meta::BfTreeMeta;
use crate::snapshot::recovery;
use crate::storage::PAGE_LIMIT;
use crate::tree::evict;
use crate::tree::growth;
use crate::tree::BfTree;
use crate::wal::log::WriteAheadLog;
use crate::wal::operations;
use crate::wal::operations::WriteOp;
use crate::wal::reader;
use crate::wal::reader::{LogEntry, WalReader, WalSegment};

verus! {

/// The segment size of a log where none is configured.
pub const DEFAULT_SEGMENT_SIZE: usize = 1_048_576;

/// What an entry of the log does to the keys that are present. What is no
/// operation, or not one that the tree takes, does nothing.
pub open spec fn replay_entry(
    m: Map<Seq<u8>, Seq<u8>>,
    e: LogEntry,
    config: Config,
) -> Map<Seq<u8>, Seq<u8>> {
    match operations::parse_op(e.data) {
        None => m,
        Some(r) => if r.op == OpType::Insert {
            if config.valid_kv(r.key, r.value) {
                m.insert(r.key, r.value)
            } else {
                m
            }
        } else {
            m.remove(r.key)
        },
    }
}

/// What the entries of a log do, one after the other.
pub open spec fn replayed(
    m: Map<Seq<u8>, Seq<u8>>,
    es: Seq<LogEntry>,
    config: Config,
) -> Map<Seq<u8>, Seq<u8>>
    decreases es.len(),
{
    if es.len() == 0 {
        m
    } else {
        replay_entry(replayed(m, es.drop_last(), config), es.last(), config)
    }
}

pub proof fn lemma_replayed_concat(
    m: Map<Seq<u8>, Seq<u8>>,
    a: Seq<LogEntry>,
    b: Seq<LogEntry>,
    config: Config,
)
    ensures
        replayed(m, a + b, config) == replayed(replayed(m, a, config), b, config),
    decreases b.len(),
{
    if b.len() == 0 {
        assert(a + b =~= a);
    } else {
        assert((a + b).drop_last() =~= a + b.drop_last());
        lemma_replayed_concat(m, a, b.drop_last(), config);
    }
}

/// Fewer keys before an insertion or a removal are fewer keys after it.
proof fn lemma_submap_kept(
    a: Map<Seq<u8>, Seq<u8>>,
    b: Map<Seq<u8>, Seq<u8>>,
    key: Seq<u8>,
    value: Seq<u8>,
)
    requires
        a.submap_of(b),
    ensures
        a.insert(key, value).submap_of(b.insert(key, value)),
        a.remove(key).submap_of(b.remove(key)),
{
    assert forall|k: Seq<u8>| #[trigger] a.insert(key, value).dom().contains(k) implies b.insert(
        key,
        value,
    ).dom().contains(k) && b.insert(key, value)[k] == a.insert(key, value)[k] by {
        if k != key {
            assert(a.dom().contains(k));
        }
    }
    assert forall|k: Seq<u8>| #[trigger] a.remove(key).dom().contains(k) implies b.remove(
        key,
    ).dom().contains(k) && b.remove(key)[k] == a.remove(key)[k] by {
        assert(a.dom().contains(k));
    }
}

proof fn lemma_submap_chain(
    a: Map<Seq<u8>, Seq<u8>>,
    b: Map<Seq<u8>, Seq<u8>>,
    c: Map<Seq<u8>, Seq<u8>>,
)
    requires
        a.submap_of(b),
        b.submap_of(c),
    ensures
        a.submap_of(c),
{
    assert forall|k: Seq<u8>| #[trigger] a.dom().contains(k) implies c.dom().contains(k) && c[k]
        == a[k] by {
        assert(b.dom().contains(k));
    }
}

/// An operation on the tree forgets nothing: there is a disk, or space in the cache.
pub open spec fn keeps_all(t: &BfTree) -> bool {
    !t.cache_only || t.has_space()
}

/// Nothing is done to the keys of tree `before`. One with a disk may have emptied its
/// cache.
pub open spec fn left_alone(before: &BfTree, after: &BfTree) -> bool {
    &&& after@ == before@
    &&& before.cache_only ==> *after == *before
}

/// `after` is what comes of tree `before` when entry `e` is replayed on it: its
/// operation is done as the tree does any other. What is no operation, or not one
/// that the tree takes, does nothing.
pub open spec fn replay_step(before: &BfTree, after: &BfTree, e: LogEntry) -> bool {
    &&& replaying(after)
    &&& after.config == before.config
    &&& after.cache_only == before.cache_only
    &&& after.fills(before)
    &&& match operations::parse_op(e.data) {
        None => left_alone(before, after),
        Some(r) => if r.op == OpType::Insert {
            if before.config.valid_kv(r.key, r.value) {
                after.inserted(before, r.key, r.value)
            } else {
                left_alone(before, after)
            }
        } else {
            &&& after.removed(before, r.key)
            &&& r.key.len() > before.config.key_max() ==> left_alone(before, after)
        },
    }
}

/// The trees that tree `before` is in turn when entries `es` are replayed on it, until
/// it is `after`, which may since have been given a log.
pub open spec fn replay_way(
    ts: Seq<BfTree>,
    before: &BfTree,
    after: &BfTree,
    es: Seq<LogEntry>,
) -> bool {
    &&& ts.len() == es.len() + 1
    &&& ts[0] == *before
    &&& ts.last() == (BfTree { wal: None, ..*after })
    &&& forall|i: int, j: int|
        #![trigger ts[i], ts[j]]
        0 <= i < es.len() && j == i + 1 ==> replay_step(&ts[i], &ts[j], es[i])
}

proof fn lemma_way_joined(
    t0: &BfTree,
    t1: &BfTree,
    t2: &BfTree,
    a: Seq<LogEntry>,
    b: Seq<LogEntry>,
    us: Seq<BfTree>,
    vs: Seq<BfTree>,
)
    requires
        t1.wal is None,
        replay_way(us, t0, t1, a),
        replay_way(vs, t1, t2, b),
    ensures
        replay_way(us + vs.drop_first(), t0, t2, a + b),
{
    let ts = us + vs.drop_first();
    let n = a.len() as int;
    assert(us[n] == *t1);
    assert forall|i: int| n <= i <= n + b.len() implies #[trigger] ts[i] == vs[i - n] by {}
    assert forall|i: int, j: int|
        #![trigger ts[i], ts[j]]
        0 <= i < (a + b).len() && j == i + 1 implies replay_step(&ts[i], &ts[j], (a + b)[i]) by {
        if j <= n {
            assert(replay_step(&us[i], &us[j], a[i]));
        } else {
            assert(replay_step(&vs[i - n], &vs[j - n], b[i - n]));
        }
    }
}

/// What the entries replayed so far have come to: what the log says, or, where a full
/// cache made the tree forget, no more than that.
pub(crate) proof fn lemma_way(ts: Seq<BfTree>, before: &BfTree, after: &BfTree, es: Seq<LogEntry>, n: nat)
    requires
        replay_way(ts, before, after, es),
        n <= es.len(),
    ensures
        ts[n as int].config == before.config,
        ts[n as int].cache_only == before.cache_only,
        ts[n as int]@.submap_of(replayed(before@, es.take(n as int), before.config)),
        (forall|i: int| 0 <= i < n ==> keeps_all(&#[trigger] ts[i])) ==> ts[n as int]@ == replayed(
            before@,
            es.take(n as int),
            before.config,
        ),
    decreases n,
{
    if n == 0 {
        assert(es.take(0) =~= Seq::empty());
    } else {
        let i = n - 1;
        lemma_way(ts, before, after, es, i as nat);
        assert(es.take(n as int).drop_last() =~= es.take(i));
        assert(replay_step(&ts[i], &ts[n as int], es[i]));
        let so_far = replayed(before@, es.take(i), before.config);
        assert(ts[i]@.submap_of(so_far));
        match operations::parse_op(es[i].data) {
            None => {},
            Some(r) => {
                lemma_submap_kept(ts[i]@, so_far, r.key, r.value);
                if r.op == OpType::Insert {
                    if before.config.valid_kv(r.key, r.value) {
                        lemma_submap_chain(
                            ts[n as int]@,
                            ts[i]@.insert(r.key, r.value),
                            so_far.insert(r.key, r.value),
                        );
                    }
                } else {
                    lemma_submap_chain(
                        ts[n as int]@,
                        ts[i]@.remove(r.key),
                        so_far.remove(r.key),
                    );
                }
            },
        }
    }
}

/// What replaying comes to: what the log says, or, where a full cache makes a tree
/// forget, no more than that. It is what the log says if no operation finds the cache
/// of a tree without a disk too full.
pub proof fn law_replay_forgets_only_what_is_evicted(
    ts: Seq<BfTree>,
    before: &BfTree,
    after: &BfTree,
    es: Seq<LogEntry>,
)
    requires
        replay_way(ts, before, after, es),
    ensures
        after@.submap_of(replayed(before@, es, before.config)),
        (forall|i: int| 0 <= i < es.len() ==> keeps_all(&#[trigger] ts[i])) ==> after@ == replayed(
            before@,
            es,
            before.config,
        ),
{
    lemma_way(ts, before, after, es, es.len());
    assert(es.take(es.len() as int) =~= es);
    assert(after.model() == ts.last().model());
}

/// The last operation of a log is done whatever the cache forgets: a pair that it
/// inserts is present, and a key that it deletes has the record of that.
pub proof fn law_last_operation_stands(
    ts: Seq<BfTree>,
    before: &BfTree,
    after: &BfTree,
    es: Seq<LogEntry>,
    r: RecordView,
)
    requires
        replay_way(ts, before, after, es),
        es.len() > 0,
        operations::parse_op(es.last().data) == Some(r),
    ensures
        r.op == OpType::Insert && before.config.valid_kv(r.key, r.value)
            ==> after@.contains_pair(r.key, r.value),
        r.op != OpType::Insert && r.key.len() <= before.config.key_max() ==> after.model().find(
            r.key,
        ) == Some(RecordView { key: r.key, value: Seq::empty(), op: OpType::Delete }),
{
    let n = es.len() as int;
    lemma_way(ts, before, after, es, (n - 1) as nat);
    assert(replay_step(&ts[n - 1], &ts[n], es[n - 1]));
    assert(after.model() == ts[n].model());
}

/// A cache that has room for two pages for each entry of a log, besides what it
/// holds, is never too full while the log is replayed.
pub proof fn law_two_pages_an_entry_keep_all(
    ts: Seq<BfTree>,
    before: &BfTree,
    after: &BfTree,
    es: Seq<LogEntry>,
)
    requires
        before.wf(),
        replay_way(ts, before, after, es),
        before.storage.circular_buffer.used + 2 * before.config.leaf_page_size * es.len()
            <= before.config.cb_size_byte,
    ensures
        forall|i: int| 0 <= i < es.len() ==> keeps_all(&#[trigger] ts[i]),
{
    assert forall|i: int| 0 <= i < es.len() implies keeps_all(&#[trigger] ts[i]) by {
        lemma_way_fills(ts, before, after, es, i as nat);
        assert(2 * before.config.leaf_page_size * i + 2 * before.config.leaf_page_size <= 2
            * before.config.leaf_page_size * es.len()) by (nonlinear_arith)
            requires
                i + 1 <= es.len(),
        ;
    }
}

proof fn lemma_way_fills(
    ts: Seq<BfTree>,
    before: &BfTree,
    after: &BfTree,
    es: Seq<LogEntry>,
    n: nat,
)
    requires
        before.wf(),
        replay_way(ts, before, after, es),
        before.storage.circular_buffer.used + 2 * before.config.leaf_page_size * es.len()
            <= before.config.cb_size_byte,
        n <= es.len(),
    ensures
        ts[n as int].wf(),
        ts[n as int].config == before.config,
        ts[n as int].storage.circular_buffer.used <= before.storage.circular_buffer.used + 2
            * before.config.leaf_page_size * n,
    decreases n,
{
    if n > 0 {
        let i = n - 1;
        lemma_way_fills(ts, before, after, es, i as nat);
        let page = before.config.leaf_page_size as int;
        assert(2 * page * i + 2 * page == 2 * page * n) by (nonlinear_arith)
            requires
                i + 1 == n,
        ;
        assert(2 * page * n <= 2 * page * es.len()) by (nonlinear_arith)
            requires
                n <= es.len(),
                page >= 0,
        ;
        assert(replay_step(&ts[i], &ts[n as int], es[i]));
    }
}

/// The keys that the operations of a log are about.
pub open spec fn logged_keys(es: Seq<LogEntry>) -> Set<Seq<u8>>
    decreases es.len(),
{
    if es.len() == 0 {
        Set::empty()
    } else {
        let front = logged_keys(es.drop_last());
        match operations::parse_op(es.last().data) {
            None => front,
            Some(r) => front.insert(r.key),
        }
    }
}

proof fn lemma_logged_keys(a: Seq<LogEntry>, b: Seq<LogEntry>)
    ensures
        logged_keys(a + b) == logged_keys(a).union(logged_keys(b)),
        logged_keys(b).finite(),
    decreases b.len(),
{
    if b.len() == 0 {
        assert(a + b =~= a);
        assert(logged_keys(a).union(logged_keys(b)) =~= logged_keys(a));
    } else {
        lemma_logged_keys(a, b.drop_last());
        assert((a + b).drop_last() =~= a + b.drop_last());
        assert(logged_keys(a + b) =~= logged_keys(a).union(logged_keys(b)));
    }
}

/// Replaying adds no keys but those of the log.
proof fn lemma_replayed_keys(m: Map<Seq<u8>, Seq<u8>>, es: Seq<LogEntry>, config: Config)
    ensures
        replayed(m, es, config).dom().subset_of(m.dom().union(logged_keys(es))),
    decreases es.len(),
{
    if es.len() > 0 {
        lemma_replayed_keys(m, es.drop_last(), config);
    }
}

/// The leaf pages that there are when `es` has been replayed on `before`: those that
/// are added start with a key of the tree or of the log.
pub open spec fn pages_added(before: &BfTree, after: &BfTree, es: Seq<LogEntry>) -> bool {
    growth::grown(before.model(), after.model(), before@.dom().union(logged_keys(es)))
}

proof fn lemma_pages_added(
    t0: &BfTree,
    t1: &BfTree,
    t2: &BfTree,
    a: Seq<LogEntry>,
    b: Seq<LogEntry>,
)
    requires
        t1@.submap_of(replayed(t0@, a, t1.config)),
        pages_added(t0, t1, a),
        pages_added(t1, t2, b),
    ensures
        pages_added(t0, t2, a + b),
{
    let ka = t0@.dom().union(logged_keys(a));
    let kb = t1@.dom().union(logged_keys(b));
    let all = t0@.dom().union(logged_keys(a + b));
    lemma_logged_keys(a, b);
    lemma_replayed_keys(t0@, a, t1.config);
    growth::lemma_grown_twice(t0.model(), t1.model(), t2.model(), ka, kb);
    assert(ka.union(kb).subset_of(all)) by {
        assert forall|k: Seq<u8>| t1@.dom().contains(k) implies all.contains(k) by {
            assert(replayed(t0@, a, t1.config).dom().contains(k));
        }
    }
    growth::lemma_grown_more(t0.model(), t2.model(), ka.union(kb), all);
}

/// The page table has no room for an operation on a tree that comes of `before` when
/// some of `es` have been replayed.
pub open spec fn pages_run_out(before: &BfTree, es: Seq<LogEntry>) -> bool {
    before.model().pages.len() + before@.dom().union(logged_keys(es)).len() + 4 > PAGE_LIMIT
}

proof fn lemma_pages_run_out(before: &BfTree, after: &BfTree, es: Seq<LogEntry>)
    requires
        before.wf(),
        pages_added(before, after, es),
        after.model().pages.len() + 4 > PAGE_LIMIT,
    ensures
        pages_run_out(before, es),
{
    lemma_logged_keys(Seq::empty(), es);
    growth::lemma_view_finite(before.model(), before.params());
    growth::lemma_growth_bound(
        before.model(),
        after.model(),
        before@.dom().union(logged_keys(es)),
    );
}

/// A tree that takes operations and does not log them.
pub open spec fn replaying(t: &BfTree) -> bool {
    t.wf() && t.admits() && t.wal is None
}

/// `after` is what comes of tree `before` when entries `es` are replayed on it.
pub open spec fn replayed_on(before: &BfTree, after: &BfTree, es: Seq<LogEntry>) -> bool {
    &&& replaying(after)
    &&& after.config == before.config
    &&& after.cache_only == before.cache_only
    &&& (after.snapshot_mgr is Some) == (before.snapshot_mgr is Some)
    &&& pages_added(before, after, es)
    &&& exists|ts: Seq<BfTree>| #[trigger] replay_way(ts, before, after, es)
}

/// Replaying goes on where it stopped.
proof fn lemma_replayed_on(
    t0: &BfTree,
    t1: &BfTree,
    t2: &BfTree,
    a: Seq<LogEntry>,
    b: Seq<LogEntry>,
)
    requires
        replaying(t0),
        replayed_on(t0, t1, a),
        replayed_on(t1, t2, b),
    ensures
        replayed_on(t0, t2, a + b),
{
    let us = choose|ts: Seq<BfTree>| #[trigger] replay_way(ts, t0, t1, a);
    let vs = choose|ts: Seq<BfTree>| #[trigger] replay_way(ts, t1, t2, b);
    law_replay_forgets_only_what_is_evicted(us, t0, t1, a);
    lemma_pages_added(t0, t1, t2, a, b);
    lemma_way_joined(t0, t1, t2, a, b, us, vs);
}

proof fn lemma_nothing_replayed(t: &BfTree)
    requires
        replaying(t),
    ensures
        replayed_on(t, t, Seq::empty()),
{
    assert(t@.dom().union(logged_keys(Seq::empty())) =~= t@.dom());
    growth::lemma_not_grown(t.model(), t.model(), t@.dom());
    assert(replay_way(seq![*t], t, t, Seq::empty()));
}

/// Does what one log entry says, if the page table has room. A tree with a disk
/// empties its cache before it gives up: pages that come out of the cache may need
/// room too.
fn replay_one(tree: &mut BfTree, data: &[u8], Ghost(e): Ghost<LogEntry>) -> (r: bool)
    requires
        replaying(&*old(tree)),
        e.data == data@,
    ensures
        r ==> replayed_on(&*old(tree), &*final(tree), seq![e]),
        !r ==> pages_added(&*old(tree), &*final(tree), Seq::empty()) && final(
            tree).model().pages.len() + 4 > PAGE_LIMIT,
{
    let ghost before = *tree;
    proof {
        assert(before@.dom().union(logged_keys(Seq::empty())) =~= before@.dom());
        growth::lemma_not_grown(before.model(), before.model(), before@.dom());
    }
    if !tree.has_page_room() {
        tree.empty_cache();
        if !tree.has_page_room() {
            return false;
        }
    }
    let ghost mid = *tree;
    proof {
        evict::lemma_same_live(before.model(), mid.model());
        before.lemma_left();
        mid.lemma_left();
        growth::lemma_not_grown(mid.model(), mid.model(), mid@.dom());
    }
    match WriteOp::try_read_from_buffer(data) {
        None => {},
        Some(op) => {
            match op.op_type {
                OpType::Insert => {
                    let _r = tree.insert(op.key, op.value);
                },
                _ => {
                    tree.delete(op.key);
                },
            }
        },
    }
    proof {
        let keys = before@.dom().union(logged_keys(seq![e]));
        let one = match operations::parse_op(e.data) {
            None => before@.dom(),
            Some(r) => before@.dom().insert(r.key),
        };
        assert(logged_keys(seq![e].drop_last()) =~= Set::empty());
        assert(one =~= keys);
        growth::lemma_grown_twice(
            before.model(),
            mid.model(),
            tree.model(),
            before@.dom(),
            one,
        );
        assert(before@.dom().union(one) =~= keys);
        assert(replay_step(&before, &*tree, e));
        assert(replay_way(seq![before, *tree], &before, &*tree, seq![e]));
    }
    true
}

/// Does what the entries of a segment say, as long as the page table has room.
fn replay_segment(tree: &mut BfTree, segment: &WalSegment) -> (r: bool)
    requires
        replaying(&*old(tree)),
    ensures
        r ==> replayed_on(&*old(tree), &*final(tree), segment@),
        !r ==> pages_added(&*old(tree), &*final(tree), segment@) && final(
            tree).model().pages.len() + 4 > PAGE_LIMIT,
{
    let ghost start = *tree;
    let ghost all = segment@;
    let ghost mut done: int = 0;
    let mut iter = segment.entry_iter();
    proof {
        assert(all.skip(0) =~= all);
        assert(all.take(0) =~= Seq::empty());
        lemma_nothing_replayed(&start);
    }
    loop
        invariant
            iter.segment == segment,
            all == segment@,
            0 <= done <= all.len(),
            iter.remaining() == all.skip(done),
            start == *old(tree),
            replaying(&start),
            replayed_on(&start, &*tree, all.take(done)),
        ensures
            done == all.len(),
        decreases all.len() - done,
    {
        match iter.next() {
            None => {
                break;
            },
            Some((_, data)) => {
                let ghost e = all[done];
                let ghost mid = *tree;
                if !replay_one(tree, data, Ghost(e)) {
                    proof {
                        let rest = all.skip(done);
                        let ts = choose|ts: Seq<BfTree>| #[trigger]
                            replay_way(ts, &start, &mid, all.take(done));
                        law_replay_forgets_only_what_is_evicted(ts, &start, &mid, all.take(done));
                        lemma_pages_added(&start, &mid, &*tree, all.take(done), Seq::empty());
                        assert(all.take(done) + Seq::<LogEntry>::empty() =~= all.take(done));
                        lemma_logged_keys(all.take(done), rest);
                        assert(all.take(done) + rest =~= all);
                        growth::lemma_grown_more(
                            start.model(),
                            tree.model(),
                            start@.dom().union(logged_keys(all.take(done))),
                            start@.dom().union(logged_keys(all)),
                        );
                    }
                    return false;
                }
                proof {
                    assert(all.skip(done).drop_first() =~= all.skip(done + 1));
                    assert(all.take(done + 1) =~= all.take(done) + seq![e]);
                    lemma_replayed_on(&start, &mid, &*tree, all.take(done), seq![e]);
                    done = done + 1;
                }
            },
        }
    }
    assert(all.take(done) =~= all);
    true
}

/// Does what the log says, as long as the page table has room.
fn replay(tree: &mut BfTree, reader: &WalReader) -> (r: bool)
    requires
        replaying(&*old(tree)),
        reader.segment_size >= reader::LOG_HEADER_SIZE,
    ensures
        r ==> replayed_on(&*old(tree), &*final(tree), reader@),
        !r ==> pages_run_out(&*old(tree), reader@),
{
    let ghost start = *tree;
    let ghost f = reader.log_file@;
    let ghost size = reader.segment_size as nat;
    let ghost count = reader::segment_count(f, size);
    let ghost mut k: nat = 0;
    let n = reader.log_file.len();
    let mut iter = reader.segment_iter();
    proof {
        lemma_cursor(n as int, size as int, 0);
        lemma_nothing_replayed(&start);
    }
    loop
        invariant
            n == f.len(),
            iter.reader == reader,
            f == reader.log_file@,
            size == reader.segment_size,
            size >= reader::LOG_HEADER_SIZE,
            count == reader::segment_count(f, size),
            k <= count,
            k < count ==> iter.cursor == k * size,
            k == count ==> iter.cursor >= f.len(),
            start == *old(tree),
            replaying(&start),
            replayed_on(&start, &*tree, reader::entries_upto(f, size, k)),
        ensures
            k == count,
        decreases count - k,
    {
        proof {
            lemma_cursor(f.len() as int, size as int, k as int);
        }
        match iter.next() {
            None => {
                break;
            },
            Some(segment) => {
                let ghost done = reader::entries_upto(f, size, k);
                let ghost es = reader::entries_from(reader::segment_of(f, size, k as int), 0);
                let ghost mid = *tree;
                proof {
                    assert(segment.data@ =~= reader::segment_of(f, size, k as int));
                    assert(reader::entries_upto(f, size, k + 1) == done + es);
                }
                if !replay_segment(tree, &segment) {
                    proof {
                        let ts = choose|ts: Seq<BfTree>| #[trigger]
                            replay_way(ts, &start, &mid, done);
                        law_replay_forgets_only_what_is_evicted(ts, &start, &mid, done);
                        lemma_pages_added(&start, &mid, &*tree, done, es);
                        lemma_pages_run_out(&start, &*tree, done + es);
                        lemma_upto_keys(f, size, k + 1, count);
                        let some = start@.dom().union(logged_keys(done + es));
                        let all = start@.dom().union(logged_keys(reader@));
                        lemma_logged_keys(Seq::empty(), reader@);
                        growth::lemma_view_finite(start.model(), start.params());
                        vstd::set_lib::lemma_len_subset(some, all);
                    }
                    return false;
                }
                proof {
                    lemma_replayed_on(&start, &mid, &*tree, done, es);
                    if k + 1 < count {
                        lemma_cursor(f.len() as int, size as int, (k + 1) as int);
                    }
                    k = k + 1;
                }
            },
        }
    }
    true
}

proof fn lemma_upto_keys(f: Seq<u8>, size: nat, a: nat, b: nat)
    requires
        a <= b,
    ensures
        logged_keys(reader::entries_upto(f, size, a)).subset_of(
            logged_keys(reader::entries_upto(f, size, b)),
        ),
    decreases b - a,
{
    if a < b {
        lemma_upto_keys(f, size, a, (b - 1) as nat);
        lemma_logged_keys(
            reader::entries_upto(f, size, (b - 1) as nat),
            reader::entries_from(reader::segment_of(f, size, b - 1), 0),
        );
    }
}

/// Where segment `k` of a file of `n` bytes starts.
proof fn lemma_cursor(n: int, size: int, k: int)
    requires
        0 <= n,
        size > 0,
        0 <= k <= (n + size - 1) / size,
    ensures
        k < (n + size - 1) / size ==> k * size < n && (k + 1) * size == k * size + size,
        k + 1 == (n + size - 1) / size ==> (k + 1) * size >= n,
        k == (n + size - 1) / size ==> k * size >= n,
        k == 0 ==> k * size == 0,
{
    let c = (n + size - 1) / size;
    vstd::arithmetic::div_mod::lemma_fundamental_div_mod(n + size - 1, size);
    vstd::arithmetic::div_mod::lemma_mod_bound(n + size - 1, size);
    vstd::arithmetic::mul::lemma_mul_is_commutative(size, c);
    assert((k + 1) * size == k * size + size) by (nonlinear_arith);
    if k < c {
        assert((k + 1) * size <= c * size) by (nonlinear_arith)
            requires
                k + 1 <= c,
                size > 0,
        ;
    }
}

/// What comes of replaying the entries `es` of a log on tree `before`, which then gets
/// log `wal`. It fails if the page table has no room for the leaf pages that the log
/// adds. That takes more different keys, in the tree and in the log together, than the
/// table has room for pages.
pub open spec fn log_replayed(
    before: &BfTree,
    es: Seq<LogEntry>,
    wal: Option<(WalConfig, Vec<u8>)>,
    r: Result<BfTree, ConfigError>,
) -> bool {
    match r {
        Err(e) => e == ConfigError::PageTableFull && pages_run_out(before, es),
        Ok(t) => {
            &&& t.wf()
            &&& t.admits()
            &&& t.config == before.config
            &&& (t.snapshot_mgr is Some) == (before.snapshot_mgr is Some)
            &&& exists|ts: Seq<BfTree>| #[trigger] replay_way(ts, before, &t, es)
            &&& match wal {
                None => t.wal is None,
                Some((w, log_file)) => t.wal is Some && (t.wal->0).resumes(w, log_file@),
            }
        },
    }
}

/// What comes of the recovery of tree `f` from file `b`, with configuration `c` and the
/// entries `es` of a log: the tree is brought back, and then what the log says is done
/// to it. It fails if the page cache is too small, and as replaying fails.
pub open spec fn recovery_result(
    b: Seq<u8>,
    m: BfTreeMeta,
    f: Core,
    c: Config,
    es: Seq<LogEntry>,
    wal: Option<(WalConfig, Vec<u8>)>,
    r: Result<BfTree, ConfigError>,
) -> bool {
    if c.ok() && model::mini_total(f.pages) <= c.cb_size_byte {
        exists|start: BfTree|
            {
                &&& #[trigger] recovery::recovered(b, &start, m, f, c, None)
                &&& log_replayed(&start, es, wal, r)
            }
    } else {
        r is Err && r->Err_0 == ConfigError::CircularBufferSize
    }
}

/// What comes of replaying log file `wal_file` on tree `before`. The file is read with the
/// segment size of the log that the tree gets, and with the default one if it gets none.
pub open spec fn replays(
    before: &BfTree,
    wal_file: Seq<u8>,
    wal: Option<(WalConfig, Vec<u8>)>,
    r: Result<BfTree, ConfigError>,
) -> bool {
    log_replayed(
        before,
        reader::log_entries(wal_file, replay_segment_size(recovery::log_config(wal))),
        wal,
        r,
    )
}

/// What comes of recovery from snapshot file `b` and log file `wal_file`: the tree of the
/// snapshot is brought back without a log, and the log file is replayed on it.
pub open spec fn recovers(
    b: Seq<u8>,
    wal_file: Seq<u8>,
    use_snapshot: bool,
    buffer_size: Option<usize>,
    wal: Option<(WalConfig, Vec<u8>)>,
    r: Result<BfTree, ConfigError>,
) -> bool {
    exists|start: Result<BfTree, ConfigError>| #[trigger]
        recovery::comes_back(b, use_snapshot, buffer_size, None, start) && match start {
            Ok(t) => replays(&t, wal_file, wal, r),
            Err(e) => r == Err::<BfTree, ConfigError>(e),
        }
}

impl BfTree {
    /// Does what the log file `wal_file` says, without logging it a second time. Only
    /// then does the tree get a log of its own, which goes on in the file that comes
    /// with its configuration.
    pub fn replay_log(
        self,
        wal_file: Vec<u8>,
        wal: Option<(WalConfig, Vec<u8>)>,
    ) -> (r: Result<BfTree, ConfigError>)
        requires
            replaying(&self),
            recovery::log_ok(wal),
        ensures
            replays(&self, wal_file@, wal, r),
            wal is None ==> log_replayed(&self, reader::log_entries(wal_file@, 1_048_576), None, r),
            log_replayed(
                &self,
                reader::log_entries(wal_file@, replay_segment_size(recovery::log_config(wal))),
                wal,
                r,
            ),
    {
        let mut tree = self;
        let segment_size: usize = match &wal {
            Some((w, _)) => w.segment_size,
            None => DEFAULT_SEGMENT_SIZE,
        };
        let reader = WalReader::new(wal_file, segment_size);
        if !replay(&mut tree, &reader) {
            return Err(ConfigError::PageTableFull);
        }
        let ghost replayed = tree;
        proof {
            let ts = choose|ts: Seq<BfTree>| #[trigger] replay_way(ts, &self, &replayed, reader@);
            assert(replayed == ts.last());
        }
        tree.wal =
        match wal {
            None => None,
            Some((w, log_file)) => Some(WriteAheadLog::new(w, log_file)),
        };
        proof {
            let ts = choose|ts: Seq<BfTree>| #[trigger] replay_way(ts, &self, &replayed, reader@);
            assert(replay_way(ts, &self, &tree, reader@));
        }
        Ok(tree)
    }

    /// Brings a tree back from a snapshot and the log file `wal_file`. A file that has
    /// the header of a snapshot and is none gives some tree, or an error.
    pub fn recovery(
        b: &[u8],
        wal_file: Vec<u8>,
        use_snapshot: bool,
        buffer_size: Option<usize>,
        wal: Option<(WalConfig, Vec<u8>)>,
    ) -> (r: Result<BfTree, ConfigError>)
        requires
            recovery::log_ok(wal),
        ensures
            recovers(b@, wal_file@, use_snapshot, buffer_size, wal, r),
            !recovery::has_header(b@) ==> r is Err && r->Err_0 == ConfigError::SnapshotFileInvalid,
            (r is Err && recovery::refused(b@, use_snapshot, buffer_size, None, r->Err_0)) || exists|
                start: BfTree,
            |
                {
                    &&& #[trigger] recovery::comes_out(
                        &start,
                        meta::parse_meta(b@)->0,
                        use_snapshot,
                        buffer_size,
                        None,
                    )
                    &&& log_replayed(
                        &start,
                        reader::log_entries(
                            wal_file@,
                            replay_segment_size(recovery::log_config(wal)),
                        ),
                        wal,
                        r,
                    )
                },
            forall|f: Core, config: Config, v: u64| #[trigger]
                finalize::holds(b@, f, config, v) ==> recovery_result(
                    b@,
                    meta::parse_meta(b@)->0,
                    f,
                    recovery::recovered_config(config, v, use_snapshot, buffer_size, None),
                    reader::log_entries(
                        wal_file@,
                        replay_segment_size(recovery::log_config(wal)),
                    ),
                    wal,
                    r,
                ),
    {
        let tree = match BfTree::new_from_cpr_snapshot(b, use_snapshot, buffer_size, None) {
            Err(e) => {
                return Err(e);
            },
            Ok(t) => t,
        };
        let ghost start = tree;
        proof {
            assert forall|f: Core, config: Config, v: u64| #[trigger]
                finalize::holds(b@, f, config, v) implies recovery::recovered(
                b@,
                &start,
                meta::parse_meta(b@)->0,
                f,
                recovery::recovered_config(config, v, use_snapshot, buffer_size, None),
                None,
            ) by {}
        }
        tree.replay_log(wal_file, wal)
    }
}

/// The segment size that a log is read with.
pub open spec fn replay_segment_size(wal: Option<WalConfig>) -> nat {
    match wal {
        Some(w) => w.segment_size as nat,
        None => DEFAULT_SEGMENT_SIZE as nat,
    }
}

/// An operation either settles what becomes of a key, whatever was there, or
/// leaves the key alone.
proof fn lemma_settled_or_left(
    m1: Map<Seq<u8>, Seq<u8>>,
    m2: Map<Seq<u8>, Seq<u8>>,
    es: Seq<LogEntry>,
    config: Config,
    k: Seq<u8>,
)
    ensures
        ({
            let r1 = replayed(m1, es, config);
            let r2 = replayed(m2, es, config);
            ||| r1.contains_key(k) == r2.contains_key(k) && (r1.contains_key(k) ==> r1[k] == r2[k])
            ||| {
                &&& r1.contains_key(k) == m1.contains_key(k)
                &&& r1.contains_key(k) ==> r1[k] == m1[k]
                &&& r2.contains_key(k) == m2.contains_key(k)
                &&& r2.contains_key(k) ==> r2[k] == m2[k]
            }
        }),
    decreases es.len(),
{
    if es.len() > 0 {
        lemma_settled_or_left(m1, m2, es.drop_last(), config, k);
    }
}

/// To replay a log twice is to replay it once. A log may so begin before the
/// snapshot that it is replayed over: what the snapshot has of it is done again,
/// to no effect.
pub proof fn law_replay_is_idempotent(
    m: Map<Seq<u8>, Seq<u8>>,
    done: Seq<LogEntry>,
    rest: Seq<LogEntry>,
    config: Config,
)
    ensures
        replayed(replayed(m, done, config), done + rest, config) == replayed(
            m,
            done + rest,
            config,
        ),
{
    let once = replayed(m, done, config);
    let twice = replayed(once, done, config);
    assert(twice =~= once) by {
        assert forall|k: Seq<u8>| twice.contains_key(k) == once.contains_key(k) && (
        twice.contains_key(k) ==> #[trigger] twice[k] == once[k]) by {
            lemma_settled_or_left(m, once, done, config, k);
        }
        assert(twice.dom() =~= once.dom()) by {
            assert forall|k: Seq<u8>| twice.dom().contains(k) == once.dom().contains(k) by {
                lemma_settled_or_left(m, once, done, config, k);
            }
        }
    }
    lemma_replayed_concat(once, done, rest, config);
    lemma_replayed_concat(m, done, rest, config);
}

/// A tree that is recovered holds what the log says, done to what the snapshot holds;
/// one without a disk may hold less, but not if its page cache has room for two pages for
/// each entry of the log. The last operation of the log is done in any case.
pub proof fn law_recovery_does_what_the_log_says(
    b: Seq<u8>,
    m: BfTreeMeta,
    f: Core,
    c: Config,
    es: Seq<LogEntry>,
    wal: Option<(WalConfig, Vec<u8>)>,
    t: BfTree,
)
    requires
        recovery_result(b, m, f, c, es, wal, Ok(t)),
    ensures
        t@.submap_of(replayed(f.view(), es, c)),
        !c.cache_only || model::mini_total(f.pages) + 2 * c.leaf_page_size * es.len()
            <= c.cb_size_byte ==> t@ == replayed(f.view(), es, c),
        es.len() > 0 ==> (operations::parse_op(es.last().data) matches Some(r) ==> {
            &&& r.op == OpType::Insert && c.valid_kv(r.key, r.value) ==> t@.contains_pair(
                r.key,
                r.value,
            )
            &&& r.op != OpType::Insert && r.key.len() <= c.key_max() ==> t.model().find(r.key)
                == Some(RecordView { key: r.key, value: Seq::empty(), op: OpType::Delete })
        }),
{
    let r: Result<BfTree, ConfigError> = Ok(t);
    let start = choose|start: BfTree|
        {
            &&& #[trigger] recovery::recovered(b, &start, m, f, c, None)
            &&& log_replayed(&start, es, wal, r)
        };
    let ts = choose|ts: Seq<BfTree>| #[trigger] replay_way(ts, &start, &t, es);
    law_replay_forgets_only_what_is_evicted(ts, &start, &t, es);
    if !c.cache_only {
        assert forall|i: int| 0 <= i < es.len() implies keeps_all(&#[trigger] ts[i]) by {
            lemma_way(ts, &start, &t, es, i as nat);
        }
    } else if model::mini_total(f.pages) + 2 * c.leaf_page_size * es.len() <= c.cb_size_byte {
        law_two_pages_an_entry_keep_all(ts, &start, &t, es);
    }
    if es.len() > 0 && operations::parse_op(es.last().data) is Some {
        law_last_operation_stands(
            ts,
            &start,
            &t,
            es,
            operations::parse_op(es.last().data)->0,
        );
    }
}

/// The log of a tree tells all that was done to it since it held `m`.
pub open spec fn log_tells(t: &BfTree, m: Map<Seq<u8>, Seq<u8>>) -> bool {
    &&& t.wal is Some
    &&& t@ == replayed(m, (t.wal->0)@, t.config)
}

/// An insert leaves the log telling all that was done to the tree.
pub proof fn law_log_tells_every_insert(
    before: &BfTree,
    tree: &BfTree,
    m: Map<Seq<u8>, Seq<u8>>,
    key: Seq<u8>,
    value: Seq<u8>,
)
    requires
        before.wf(),
        log_tells(before, m),
        !before.cache_only || before.has_space(),
        before.valid_kv(key, value),
        tree.config == before.config,
        tree.inserted(before, key, value),
        tree.logged(before, RecordView { key, value, op: OpType::Insert }),
    ensures
        log_tells(tree, m),
{
    let r = RecordView { key, value, op: OpType::Insert };
    operations::law_logged_op_is_read_back(r);
    let es = (tree.wal->0)@;
    assert(es.drop_last() =~= (before.wal->0)@);
}

/// So does a deletion.
pub proof fn law_log_tells_every_delete(
    before: &BfTree,
    tree: &BfTree,
    m: Map<Seq<u8>, Seq<u8>>,
    key: Seq<u8>,
)
    requires
        before.wf(),
        log_tells(before, m),
        !before.cache_only || before.has_space(),
        key.len() <= before.config.key_max(),
        tree.config == before.config,
        tree.removed(before, key),
        tree.logged(before, RecordView { key, value: Seq::empty(), op: OpType::Delete }),
    ensures
        log_tells(tree, m),
{
    let r = RecordView { key, value: Seq::empty(), op: OpType::Delete };
    operations::law_logged_op_is_read_back(r);
    let es = (tree.wal->0)@;
    assert(es.drop_last() =~= (before.wal->0)@);
}

/// Entries are told apart only by what two configurations take.
pub(crate) proof fn lemma_same_limits(
    m: Map<Seq<u8>, Seq<u8>>,
    es: Seq<LogEntry>,
    a: Config,
    b: Config,
)
    requires
        a.key_max() == b.key_max(),
        a.cb_min_record_size == b.cb_min_record_size,
        a.cb_max_record_size == b.cb_max_record_size,
    ensures
        replayed(m, es, a) == replayed(m, es, b),
    decreases es.len(),
{
    if es.len() > 0 {
        lemma_same_limits(m, es.drop_last(), a, b);
    }
}

/// Recovery loses nothing: a tree that was brought back from a snapshot of
/// `tree`, taken when its log had come to any length, and from that log holds
/// what `tree` holds, unless it has no disk and an operation of the log found its
/// cache too full. `start` is the tree as the snapshot has it, and `ts` what it is in
/// turn as the log is replayed.
pub proof fn law_recovery_loses_nothing(
    tree: &BfTree,
    recovered: &BfTree,
    m: Map<Seq<u8>, Seq<u8>>,
    snapshot: Core,
    at_snapshot: int,
    b: Seq<u8>,
    header: BfTreeMeta,
    config: Config,
    start: &BfTree,
    ts: Seq<BfTree>,
)
    requires
        log_tells(tree, m),
        0 <= at_snapshot <= (tree.wal->0)@.len(),
        snapshot.view() == replayed(m, (tree.wal->0)@.take(at_snapshot), tree.config),
        exists|v: u64, use_snapshot: bool, buffer_size: Option<usize>|
            config == #[trigger] recovery::recovered_config(
                tree.config,
                v,
                use_snapshot,
                buffer_size,
                None,
            ),
        recovery::recovered(b, start, header, snapshot, config, None),
        replay_way(ts, start, recovered, (tree.wal->0)@),
        forall|i: int| 0 <= i < (tree.wal->0)@.len() ==> keeps_all(&#[trigger] ts[i]),
    ensures
        recovered@ == tree@,
{
    let es = (tree.wal->0)@;
    let done = es.take(at_snapshot);
    let rest = es.skip(at_snapshot);
    assert(done + rest =~= es);
    law_replay_forgets_only_what_is_evicted(ts, start, recovered, es);
    law_replay_is_idempotent(m, done, rest, tree.config);
    lemma_same_limits(replayed(m, done, tree.config), es, tree.config, start.config);
}

} // verus!
