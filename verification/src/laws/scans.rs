//! Scans over a range of keys.
use vstd::prelude::*;

use crate::error::{ScanIterError, TreeError};
use crate::order;
use crate::range_scan;
use crate::range_scan::{ScanLock, ScanPosition, ScanReturnField};
use crate::tree::traverse::Descent;
use crate::tree::BfTree;

verus! {

/// A key comes before another if it is the beginning of that, or if its byte is the
/// lesser one at the first place where the two differ.
pub proof fn law_keys_are_ordered_byte_by_byte(a: Seq<u8>, b: Seq<u8>, i: int)
    requires
        0 <= i <= a.len(),
        i <= b.len(),
        a.take(i) == b.take(i),
    ensures
        i < a.len() && i < b.len() && a[i] < b[i] ==> order::lex_lt(a, b) && !order::lex_lt(b, a),
        i == a.len() && i < b.len() ==> order::lex_lt(a, b) && !order::lex_lt(b, a),
        i == a.len() && i == b.len() ==> !order::lex_lt(a, b) && !order::lex_lt(b, a),
    decreases i,
{
    if i > 0 {
        assert(a[0] == a.take(i)[0]);
        assert(b[0] == b.take(i)[0]);
        assert(a.skip(1).take(i - 1) =~= a.take(i).skip(1));
        assert(b.skip(1).take(i - 1) =~= b.take(i).skip(1));
        law_keys_are_ordered_byte_by_byte(a.skip(1), b.skip(1), i - 1);
    }
}

/// One record of a scan, in full: it is the one with the least key from `cursor` on, and
/// not beyond the end key if there is one. The lengths are those of its key and of the
/// value that the tree has under it, zero for what was not asked for, and that is what
/// the front of the buffer holds; the rest of the buffer is as it was. A scan gives
/// nothing only if there is no such key.
pub proof fn law_a_scan_gives_the_whole_record(
    view: Map<Seq<u8>, Seq<u8>>,
    cursor: Seq<u8>,
    end_key: Option<Seq<u8>>,
    field: ScanReturnField,
    before: Seq<u8>,
    after: Seq<u8>,
    next_cursor: Seq<u8>,
    r: Option<(usize, usize)>,
)
    requires
        range_scan::scanned(view, cursor, end_key, field, before, after, next_cursor, r),
    ensures
        r matches Some((kl, vl)) ==> exists|k: Seq<u8>|
            #![trigger view.contains_key(k)]
            {
                &&& view.contains_key(k)
                &&& !order::lex_lt(k, cursor)
                &&& end_key matches Some(e) ==> !order::lex_lt(e, k)
                &&& forall|k2: Seq<u8>|
                    #![trigger view.contains_key(k2)]
                    view.contains_key(k2) && order::lex_lt(k2, k) ==> order::lex_lt(k2, cursor)
                &&& field == ScanReturnField::Value ==> kl == 0 && vl == view[k].len() && (vl
                    <= before.len() ==> after.take(vl as int) == view[k])
                &&& field == ScanReturnField::Key ==> kl == k.len() && vl == 0 && (kl
                    <= before.len() ==> after.take(kl as int) == k)
                &&& field == ScanReturnField::KeyAndValue ==> kl == k.len() && vl == view[k].len()
                    && (kl + vl <= before.len() ==> after.take(kl as int) == k && after.subrange(
                    kl as int,
                    kl + vl,
                ) == view[k])
                &&& kl + vl <= before.len() ==> after.len() == before.len() && after.skip(kl + vl)
                    == before.skip(kl + vl)
            },
        r is None ==> after == before && forall|k: Seq<u8>| #[trigger]
            view.contains_key(k) && !order::lex_lt(k, cursor) ==> end_key is Some && order::lex_lt(
                end_key->0,
                k,
            ),
{
    order::lemma_lex_order();
    match r {
        Some((kl, vl)) => {
            let k = choose|k: Seq<u8>|
                {
                    &&& #[trigger] range_scan::comes_next(view, cursor, end_key, k)
                    &&& (kl as nat, vl as nat) == field.lengths(k, view[k])
                    &&& after == field.pick(k, view[k]) + before.skip(
                        field.pick(k, view[k]).len() as int,
                    )
                    &&& next_cursor == range_scan::successor(k)
                };
            assert(view.contains_key(k));
            assert forall|k2: Seq<u8>|
                #![trigger view.contains_key(k2)]
                view.contains_key(k2) && order::lex_lt(k2, k) implies order::lex_lt(k2, cursor) by {
                if !order::lex_lt(k2, cursor) {
                    assert(range_scan::to_come(view, cursor, end_key, k2));
                }
            }
            if kl + vl <= before.len() {
                assert(after.take(kl as int) =~= field.pick(k, view[k]).take(kl as int));
                assert(after.take((kl + vl) as int) =~= field.pick(k, view[k]));
                assert(after.skip(kl + vl) =~= before.skip(kl + vl));
                if field == ScanReturnField::KeyAndValue {
                    assert((k + view[k]).take(kl as int) =~= k);
                    assert(after.subrange(kl as int, kl + vl) =~= view[k]);
                }
            }
        },
        None => {
            assert forall|k: Seq<u8>| #[trigger]
                view.contains_key(k) && !order::lex_lt(k, cursor) implies end_key is Some
                && order::lex_lt(end_key->0, k) by {
                assert(!range_scan::to_come(view, cursor, end_key, k));
            }
        },
    }
}

/// A call of `next`: the buffer before and after it, and what it gave.
pub struct ScanCall {
    pub before: Seq<u8>,
    pub after: Seq<u8>,
    pub r: Option<(usize, usize)>,
}

/// The calls of a scan, one after the other, and where the scan stood before and after
/// each: how many records were still to be given, and from which key on.
pub open spec fn scan_calls(
    view: Map<Seq<u8>, Seq<u8>>,
    end_key: Option<Seq<u8>>,
    field: ScanReturnField,
    at: Seq<(usize, Seq<u8>)>,
    calls: Seq<ScanCall>,
) -> bool {
    &&& at.len() == calls.len() + 1
    &&& forall|i: int, j: int|
        #![trigger at[i], at[j]]
        0 <= i < calls.len() && j == i + 1 ==> range_scan::gives(
            view,
            at[i].0,
            at[i].1,
            end_key,
            field,
            calls[i].before,
            calls[i].after,
            at[j].0,
            at[j].1,
            calls[i].r,
        )
}

/// Key `k` of the tree lies between `start` and the end key, both included.
pub open spec fn in_range(
    view: Map<Seq<u8>, Seq<u8>>,
    start: Seq<u8>,
    end_key: Option<Seq<u8>>,
    k: Seq<u8>,
) -> bool {
    &&& view.contains_key(k)
    &&& !order::lex_lt(k, start)
    &&& end_key matches Some(e) ==> !order::lex_lt(e, k)
}

/// A call gave the record of key `k`: its lengths, and its bytes at the front of the
/// buffer.
pub open spec fn gave(
    view: Map<Seq<u8>, Seq<u8>>,
    field: ScanReturnField,
    call: ScanCall,
    k: Seq<u8>,
) -> bool {
    let value = view[k];
    match field {
        ScanReturnField::Key => call.r matches Some((kl, vl)) && kl == k.len() && vl == 0
            && call.after == k + call.before.skip(k.len() as int),
        ScanReturnField::Value => call.r matches Some((kl, vl)) && kl == 0 && vl == value.len()
            && call.after == value + call.before.skip(value.len() as int),
        ScanReturnField::KeyAndValue => call.r matches Some((kl, vl)) && kl == k.len() && vl
            == value.len() && call.after == k + value + call.before.skip(
            (k.len() + value.len()) as int,
        ),
    }
}

/// What the first `n` calls of a scan come to, where `ks` are the keys that they gave.
spec fn came_to(
    view: Map<Seq<u8>, Seq<u8>>,
    start: Seq<u8>,
    cnt: usize,
    end_key: Option<Seq<u8>>,
    field: ScanReturnField,
    at: Seq<(usize, Seq<u8>)>,
    calls: Seq<ScanCall>,
    n: int,
    ks: Seq<Seq<u8>>,
) -> bool {
    &&& ks.len() <= n
    &&& end_key is None ==> ks.len() <= cnt
    &&& forall|i: int| 0 <= i < ks.len() ==> #[trigger] gave(view, field, calls[i], ks[i])
    &&& forall|i: int|
        ks.len() <= i < n ==> (#[trigger] calls[i]).r is None && calls[i].after == calls[i].before
    &&& forall|i: int| 0 <= i < ks.len() ==> in_range(view, start, end_key, #[trigger] ks[i])
    &&& forall|i: int, j: int|
        0 <= i < j < ks.len() ==> order::lex_lt(#[trigger] ks[i], #[trigger] ks[j])
    &&& ks.len() == n ==> {
        &&& forall|k: Seq<u8>| #[trigger]
            in_range(view, start, end_key, k) ==> ks.contains(k) || !order::lex_lt(k, at[n].1)
        &&& forall|i: int| 0 <= i < ks.len() ==> order::lex_lt(#[trigger] ks[i], at[n].1)
        &&& !order::lex_lt(at[n].1, start)
        &&& end_key is None ==> at[n].0 == cnt - n
    }
    &&& ks.len() < n ==> {
        &&& at[n].0 == 0
        &&& end_key is Some ==> forall|k: Seq<u8>|
            !#[trigger] range_scan::to_come(view, at[n].1, end_key, k)
        &&& (end_key is None && ks.len() == cnt) || forall|k: Seq<u8>| #[trigger]
            in_range(view, start, end_key, k) ==> ks.contains(k)
    }
    &&& forall|k: Seq<u8>, i: int|
        #![trigger in_range(view, start, end_key, k), ks[i]]
        in_range(view, start, end_key, k) && 0 <= i < ks.len() && order::lex_lt(k, ks[i])
            ==> ks.contains(k)
}

proof fn lemma_came_to(
    view: Map<Seq<u8>, Seq<u8>>,
    start: Seq<u8>,
    cnt: usize,
    end_key: Option<Seq<u8>>,
    field: ScanReturnField,
    at: Seq<(usize, Seq<u8>)>,
    calls: Seq<ScanCall>,
    n: int,
) -> (ks: Seq<Seq<u8>>)
    requires
        scan_calls(view, end_key, field, at, calls),
        at[0] == (cnt, start),
        0 <= n <= calls.len(),
    ensures
        came_to(view, start, cnt, end_key, field, at, calls, n, ks),
    decreases n,
{
    order::lemma_lex_order();
    if n == 0 {
        Seq::empty()
    } else {
        let m = n - 1;
        let ks = lemma_came_to(view, start, cnt, end_key, field, at, calls, m);
        let call = calls[m];
        assert(range_scan::gives(
            view,
            at[m].0,
            at[m].1,
            end_key,
            field,
            call.before,
            call.after,
            at[n].0,
            at[n].1,
            call.r,
        ));
        if at[m].0 == 0 && end_key is None {
            ks
        } else {
            match call.r {
                None => {
                    if ks.len() == m {
                        assert forall|k: Seq<u8>| #[trigger]
                            in_range(view, start, end_key, k) implies ks.contains(k) by {
                            assert(!range_scan::to_come(view, at[m].1, end_key, k));
                        }
                    }
                    ks
                },
                Some((kl, vl)) => {
                    let k = choose|k: Seq<u8>|
                        {
                            &&& #[trigger] range_scan::comes_next(view, at[m].1, end_key, k)
                            &&& (kl as nat, vl as nat) == field.lengths(k, view[k])
                            &&& call.after == field.pick(k, view[k]) + call.before.skip(
                                field.pick(k, view[k]).len() as int,
                            )
                            &&& at[n].1 == range_scan::successor(k)
                        };
                    let more = ks.push(k);
                    assert(range_scan::to_come(view, at[m].1, end_key, k));
                    assert(ks.len() == m);
                    assert(in_range(view, start, end_key, k));
                    assert(!order::lex_lt(k, at[m].1));
                    range_scan::lemma_successor(k, k);
                    assert forall|i: int| 0 <= i < more.len() implies #[trigger] gave(
                        view,
                        field,
                        calls[i],
                        more[i],
                    ) by {
                        if i < m {
                            assert(gave(view, field, calls[i], ks[i]));
                        }
                    }
                    assert forall|i: int, j: int| 0 <= i < j < more.len() implies order::lex_lt(
                        #[trigger] more[i],
                        #[trigger] more[j],
                    ) by {
                        if j == m {
                            assert(order::lex_lt(ks[i], at[m].1));
                        }
                    }
                    assert forall|i: int| 0 <= i < more.len() implies order::lex_lt(
                        #[trigger] more[i],
                        at[n].1,
                    ) && in_range(view, start, end_key, more[i]) by {
                        if i < m {
                            assert(order::lex_lt(ks[i], at[m].1));
                            assert(order::lex_lt(ks[i], k));
                            assert(in_range(view, start, end_key, ks[i]));
                        }
                    }
                    assert forall|x: Seq<u8>| #[trigger]
                        in_range(view, start, end_key, x) implies more.contains(x)
                        || !order::lex_lt(x, at[n].1) by {
                        if ks.contains(x) {
                            let i = choose|i: int| 0 <= i < ks.len() && ks[i] == x;
                            assert(more[i] == x);
                        } else {
                            assert(range_scan::to_come(view, at[m].1, end_key, x));
                            if x == k {
                                assert(more[m] == k);
                            } else {
                                assert(order::lex_lt(k, x));
                                range_scan::lemma_successor(k, x);
                            }
                        }
                    }
                    more
                },
            }
        }
    }
}

/// A scan as a whole, call by call. Its calls give the records of the keys from the start
/// key on, one after the other in ascending order and none left out, each in full; from
/// then on they give nothing. It gives nothing more only if it has given the number of
/// records asked for or there is no further key in its range.
pub proof fn law_a_scan_gives_the_range_in_order(
    view: Map<Seq<u8>, Seq<u8>>,
    start: Seq<u8>,
    cnt: usize,
    end_key: Option<Seq<u8>>,
    field: ScanReturnField,
    at: Seq<(usize, Seq<u8>)>,
    calls: Seq<ScanCall>,
) -> (ks: Seq<Seq<u8>>)
    requires
        scan_calls(view, end_key, field, at, calls),
        at[0] == (cnt, start),
    ensures
        ks.len() <= calls.len(),
        end_key is None ==> ks.len() <= cnt,
        forall|i: int| 0 <= i < ks.len() ==> #[trigger] gave(view, field, calls[i], ks[i]),
        forall|i: int|
            ks.len() <= i < calls.len() ==> (#[trigger] calls[i]).r is None && calls[i].after
                == calls[i].before,
        forall|i: int| 0 <= i < ks.len() ==> in_range(view, start, end_key, #[trigger] ks[i]),
        forall|i: int, j: int|
            0 <= i < j < ks.len() ==> order::lex_lt(#[trigger] ks[i], #[trigger] ks[j]),
        forall|k: Seq<u8>, i: int|
            #![trigger in_range(view, start, end_key, k), ks[i]]
            in_range(view, start, end_key, k) && 0 <= i < ks.len() && order::lex_lt(k, ks[i])
                ==> ks.contains(k),
        ks.len() < calls.len() ==> (end_key is None && ks.len() == cnt) || forall|k: Seq<u8>|
            #[trigger] in_range(view, start, end_key, k) ==> ks.contains(k),
{
    lemma_came_to(view, start, cnt, end_key, field, at, calls, calls.len() as int)
}

/// A tree can be scanned whenever it takes operations, with a buffer that is long enough
/// for the longest key and value in it together.
pub proof fn law_when_a_tree_can_be_scanned(
    t: &BfTree,
    cursor: Seq<u8>,
    end_key: Option<Seq<u8>>,
    field: ScanReturnField,
    n: nat,
)
    ensures
        range_scan::scannable(t) <==> t.wf() && t.admits() && t.load() + 4 <= 0x800_0000,
        (forall|k: Seq<u8>| #[trigger] t@.contains_key(k) ==> k.len() + t@[k].len() <= n)
            ==> range_scan::roomy(t@, cursor, end_key, field, n),
{
    if forall|k: Seq<u8>| #[trigger] t@.contains_key(k) ==> k.len() + t@[k].len() <= n {
        assert forall|k: Seq<u8>| #[trigger]
            range_scan::comes_next(t@, cursor, end_key, k) implies field.pick(k, t@[k]).len()
            <= n by {
            assert(t@.contains_key(k));
        }
    }
}

/// A scan changes nothing that can be seen: the keys and values, the configuration, the
/// log, and what the coordinator of snapshots knows of its workers are as they were.
pub proof fn law_a_scan_changes_nothing(before: &BfTree, after: &BfTree)
    requires
        range_scan::scan_kept(before, after),
    ensures
        after@ == before@,
        after.config == before.config,
        after.cache_only == before.cache_only,
        after.wal == before.wal,
        after.wf(),
        after.admits(),
        (after.snapshot_mgr is Some) == (before.snapshot_mgr is Some),
        before.snapshot_mgr matches Some(m) ==> {
            let n = after.snapshot_mgr->0;
            &&& n.global_state == m.global_state
            &&& n.thread_slots@ == m.thread_slots@
            &&& n.thread_local_states@ == m.thread_local_states@
            &&& n.snapshot_in_progress == m.snapshot_in_progress
            &&& n.pause_snapshot == m.pause_snapshot
        },
{
    range_scan::lemma_same_view(before.model(), after.model());
}

/// When a scan takes a page on disk into the cache: if the page has records, and the cache
/// has room for a page and the page table for what may become of it. An empty page stays
/// where it is, and where there is no room nothing is done.
pub proof fn law_when_a_scan_promotes_a_page(
    before: &BfTree,
    after: &BfTree,
    pid: int,
    r: Result<ScanPosition, TreeError>,
)
    requires
        before.wf(),
        !before.cache_only,
        range_scan::page_promoted(before, after, pid, r),
    ensures
        ({
            let room = before.storage.circular_buffer.used + before.config.leaf_page_size
                <= before.config.cb_size_byte && before.model().pages.len()
                + before.storage.circular_buffer.entries@.len() + 16 <= 0x800_0000;
            let n = before.model().pages[pid].top().len();
            &&& n == 0 ==> (r matches Ok(pos) && pos is Base)
            &&& n > 0 && room ==> (r matches Ok(pos) && pos is Full)
            &&& n > 0 && !room ==> r == Err::<ScanPosition, TreeError>(
                TreeError::CircularBufferFull,
            ) && *after == *before
        }),
{
}

/// When a scan can merge a delta page into the page under it: if the inner node above has
/// room for one more separator of the greatest length, and in no other case. A page that
/// had to be split is looked for anew; otherwise the scan stands on the page, in the cache
/// or not as the promotion rate says.
pub proof fn law_when_a_scan_merges_a_page(
    before: &BfTree,
    after: &BfTree,
    d: &Descent,
    r: Result<ScanPosition, TreeError>,
)
    requires
        range_scan::delta_merged(before, after, d, r),
        d.parent is Some,
    ensures
        ({
            let n = before.model().sk.nodes[(d.parent->0).0 as int].keys.len();
            let full = n >= 4016int / (16 + before.config.max_fence_len as int / 2);
            let s = after.model().pages[d.pid as int];
            &&& full ==> r == Err::<ScanPosition, TreeError>(TreeError::NeedRestart) && *after
                == *before
            &&& !full && after.model().pages.len() == before.model().pages.len() ==> r
                != Err::<ScanPosition, TreeError>(TreeError::NeedRestart)
            &&& !full && before.config.scan_promotion_rate == 0 && (r matches Ok(pos))
                ==> r->Ok_0 is Base
            &&& !full && before.config.scan_promotion_rate >= 100 && s.top().len() > 0 && r is Ok
                ==> r->Ok_0 is Full
        }),
{
}

/// How a scan holds the page that it stands on: for reading alone if the page is read where
/// it is, and for itself if a delta page had to be merged or the page is always promoted.
pub proof fn law_how_a_scan_holds_its_page(before: &BfTree, key: Seq<u8>, lock: ScanLock)
    requires
        range_scan::lock_taken(before, key, lock),
    ensures
        ({
            let s = before.model().pages[before.model().leaf_of(key)];
            let rate = before.config.scan_promotion_rate;
            &&& before.cache_only || before.root.raw < 0x8000_0000_0000_0000 ==> lock is S
            &&& s is Full ==> lock is S
            &&& s is Base && rate == 0 ==> lock is S
            &&& !before.cache_only && before.root.raw >= 0x8000_0000_0000_0000 && (s is Mini || (
            s is Base && rate >= 100)) ==> lock is X
        }),
{
}

/// A scan that may change what it finds leaves the page that it stands on marked with the
/// present version, so that a snapshot of an earlier one has its copy.
pub proof fn law_a_page_under_change_is_marked(t: &BfTree, pid: int)
    requires
        range_scan::marked(t, pid),
        t.model().pages[pid] is Base,
    ensures
        t.snapshot_mgr matches Some(m) ==> t.model().pages[pid].version() == m.global_state
            % 0x2000_0000_0000_0000,
        t.snapshot_mgr is None ==> t.model().pages[pid].version() == 0x7fff_ffff_ffff_ffff,
{
}

/// A scan of `scan_cnt` records starts from every key no longer than the greatest key
/// length, for every number but zero, and from no other.
pub proof fn law_where_a_counted_scan_starts(t: &BfTree, key: Seq<u8>, scan_cnt: usize)
    ensures
        key.len() > t.config.max_fence_len / 2 <==> range_scan::count_error(t, key, scan_cnt)
            == Some(ScanIterError::InvalidStartKey),
        key.len() <= t.config.max_fence_len / 2 && scan_cnt == 0 <==> range_scan::count_error(
            t,
            key,
            scan_cnt,
        ) == Some(ScanIterError::InvalidCount),
        key.len() <= t.config.max_fence_len / 2 && scan_cnt > 0 <==> range_scan::count_error(
            t,
            key,
            scan_cnt,
        ) is None,
{
}

/// A scan up to an end key starts where neither key is longer than the greatest key
/// length and the end key does not come before the start key, and nowhere else; what is
/// wrong with the start key is told first, then what is wrong with the end key.
pub proof fn law_where_a_scan_to_a_key_starts(t: &BfTree, start_key: Seq<u8>, end_key: Seq<u8>)
    ensures
        range_scan::end_key_error(t, start_key, end_key) is None <==> start_key.len()
            <= t.config.max_fence_len / 2 && end_key.len() <= t.config.max_fence_len / 2
            && !order::lex_lt(end_key, start_key),
        range_scan::end_key_error(t, start_key, end_key) == Some(ScanIterError::InvalidStartKey)
            <==> start_key.len() > t.config.max_fence_len / 2,
        range_scan::end_key_error(t, start_key, end_key) == Some(ScanIterError::InvalidEndKey)
            <==> start_key.len() <= t.config.max_fence_len / 2 && end_key.len()
            > t.config.max_fence_len / 2,
{
}

} // verus!
