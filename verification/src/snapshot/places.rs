//! Where the pages of a snapshot are in its file: of all places that were
//! noted for a page, by operations and by the sweep, the first counts.
use vstd::prelude::*;

use crate::nodes::PageID;
use crate::snapshot;
use crate::snapshot::capture;
use crate::snapshot::run;
use crate::snapshot::{Mappings, NULL_PAGE_LOCATION_OFFSET};

verus! {

/// Some slot, or the sweep, noted exactly `e`.
pub open spec fn noted(
    local: Seq<Seq<(PageID, usize)>>,
    swept: Seq<(PageID, usize)>,
    e: (PageID, usize),
) -> bool {
    ||| exists|s: int, i: int|
        #![trigger local[s][i]]
        0 <= s < local.len() && 0 <= i < local[s].len() && local[s][i] == e
    ||| exists|i: int| 0 <= i < swept.len() && #[trigger] swept[i] == e
}

/// All places are for pages number `base` to `base + n`.
pub open spec fn within(l: Seq<(PageID, usize)>, base: u64, n: nat) -> bool {
    forall|i: int| 0 <= i < l.len() ==> base <= (#[trigger] l[i]).0.raw < base + n
}

pub open spec fn nth(base: u64, i: int) -> PageID {
    PageID { raw: (base + i) as u64 }
}

/// The first place that `l` has for page `id`.
pub open spec fn first_in(l: Seq<(PageID, usize)>, id: PageID) -> Option<usize>
    decreases l.len(),
{
    if l.len() == 0 {
        None
    } else {
        match first_in(l.drop_last(), id) {
            Some(off) => Some(off),
            None => if l.last().0 == id {
                Some(l.last().1)
            } else {
                None
            },
        }
    }
}

/// The first place that a slot has for page `id`: the slots are looked at in
/// their order.
pub open spec fn first_of(local: Seq<Seq<(PageID, usize)>>, id: PageID) -> Option<usize>
    decreases local.len(),
{
    if local.len() == 0 {
        None
    } else {
        match first_of(local.drop_last(), id) {
            Some(off) => Some(off),
            None => first_in(local.last(), id),
        }
    }
}

/// The place of page `id`: the first that a slot has for it, else the first of
/// the sweep.
pub open spec fn place_of(
    local: Seq<Seq<(PageID, usize)>>,
    swept: Seq<(PageID, usize)>,
    id: PageID,
) -> Option<usize> {
    match first_of(local, id) {
        Some(off) => Some(off),
        None => first_in(swept, id),
    }
}

/// The first place in `l` stands before all others for the same page.
pub proof fn lemma_first_in(l: Seq<(PageID, usize)>, id: PageID)
    ensures
        first_in(l, id) is Some <==> run::listed(l, id),
        first_in(l, id) matches Some(off) ==> exists|i: int|
            0 <= i < l.len() && #[trigger] l[i] == (id, off) && forall|k: int|
                0 <= k < i ==> (#[trigger] l[k]).0 != id,
    decreases l.len(),
{
    if l.len() > 0 {
        let front = l.drop_last();
        let n = l.len() - 1;
        lemma_first_in(front, id);
        assert(l =~= front.push(l[n]));
        run::lemma_listed_push(front, l[n]);
        match first_in(front, id) {
            Some(off) => {
                let i = choose|i: int|
                    0 <= i < front.len() && #[trigger] front[i] == (id, off) && forall|k: int|
                        0 <= k < i ==> (#[trigger] front[k]).0 != id;
                assert(l[i] == (id, off));
                assert forall|k: int| 0 <= k < i implies (#[trigger] l[k]).0 != id by {
                    assert(front[k].0 != id);
                }
            },
            None => {
                assert forall|k: int| 0 <= k < n implies (#[trigger] l[k]).0 != id by {
                    assert(front[k] == l[k]);
                }
                if l[n].0 == id {
                    assert(l[n] == (id, l[n].1));
                }
            },
        }
    }
}

/// The first place that a slot has was noted by it, and by no slot before it.
pub proof fn lemma_first_of(local: Seq<Seq<(PageID, usize)>>, id: PageID)
    ensures
        first_of(local, id) is Some <==> capture::has_entry(local, id),
        first_of(local, id) matches Some(off) ==> exists|s: int|
            0 <= s < local.len() && first_in(#[trigger] local[s], id) == Some(off) && forall|k: int|
                0 <= k < s ==> !run::listed(#[trigger] local[k], id),
    decreases local.len(),
{
    if local.len() > 0 {
        let front = local.drop_last();
        let n = local.len() - 1;
        lemma_first_of(front, id);
        lemma_first_in(local[n], id);
        match first_of(front, id) {
            Some(off) => {
                let (x, y) = choose|s: int, i: int|
                    #![trigger front[s][i]]
                    0 <= s < front.len() && 0 <= i < front[s].len() && front[s][i].0 == id;
                assert(local[x][y].0 == id);
                let s = choose|s: int|
                    0 <= s < front.len() && first_in(#[trigger] front[s], id) == Some(off)
                        && forall|k: int| 0 <= k < s ==> !run::listed(#[trigger] front[k], id);
                assert(first_in(local[s], id) == Some(off));
                assert forall|k: int| 0 <= k < s implies !run::listed(#[trigger] local[k], id) by {
                    assert(front[k] == local[k]);
                }
            },
            None => {
                assert forall|k: int| 0 <= k < n implies !run::listed(#[trigger] local[k], id) by {
                    if run::listed(local[k], id) {
                        let i = choose|i: int|
                            0 <= i < local[k].len() && (#[trigger] local[k][i]).0 == id;
                        assert(front[k][i].0 == id);
                    }
                }
                if run::listed(local[n], id) {
                    let i = choose|i: int|
                        0 <= i < local[n].len() && (#[trigger] local[n][i]).0 == id;
                    assert(local[n][i].0 == id);
                } else if capture::has_entry(local, id) {
                    let (s, i) = choose|s: int, i: int|
                        #![trigger local[s][i]]
                        0 <= s < local.len() && 0 <= i < local[s].len() && local[s][i].0 == id;
                    assert(run::listed(local[s], id));
                }
            },
        }
    }
}

/// A page has a place if one was noted for it, and the place is one that was.
pub proof fn lemma_place_of(
    local: Seq<Seq<(PageID, usize)>>,
    swept: Seq<(PageID, usize)>,
    id: PageID,
)
    ensures
        place_of(local, swept, id) is Some <==> run::kept(local, swept, id),
        place_of(local, swept, id) matches Some(off) ==> noted(local, swept, (id, off)),
{
    lemma_first_of(local, id);
    lemma_first_in(swept, id);
    match first_of(local, id) {
        Some(off) => {
            let s = choose|s: int|
                0 <= s < local.len() && first_in(#[trigger] local[s], id) == Some(off);
            lemma_first_in(local[s], id);
            let i = choose|i: int| 0 <= i < local[s].len() && #[trigger] local[s][i] == (id, off);
            assert(local[s][i] == (id, off));
        },
        None => {},
    }
}

/// Table `before` with the places of `l` for pages that had none.
pub open spec fn filled(
    before: Seq<Option<usize>>,
    l: Seq<(PageID, usize)>,
    base: u64,
) -> Seq<Option<usize>> {
    Seq::new(
        before.len(),
        |i: int|
            match before[i] {
                Some(off) => Some(off),
                None => first_in(l, nth(base, i)),
            },
    )
}

/// Enters the places of `l` in the table for pages that have none.
fn fill(table: &mut Vec<Option<usize>>, l: &Vec<(PageID, usize)>, base: u64)
    requires
        within(l@, base, old(table)@.len()),
        base + old(table)@.len() <= u64::MAX,
    ensures
        final(table)@ == filled(old(table)@, l@, base),
{
    let ghost before = table@;
    let n = l.len();
    let size = table.len();
    let mut j: usize = 0;
    assert(l@.take(0) =~= Seq::<(PageID, usize)>::empty());
    assert(table@ =~= filled(before, l@.take(0), base));
    while j < n
        invariant
            j <= n,
            n == l@.len(),
            size == table@.len(),
            size == before.len(),
            within(l@, base, size as nat),
            base + size <= u64::MAX,
            table@ == filled(before, l@.take(j as int), base),
        decreases n - j,
    {
        let ghost t0 = table@;
        let ghost more = l@.take(j + 1);
        let (id, off) = l[j];
        assert(base <= l@[j as int].0.raw < base + size);
        let at: usize = (id.raw - base) as usize;
        if table[at].is_none() {
            table[at] = Some(off);
        }
        proof {
            assert(more.drop_last() =~= l@.take(j as int));
            assert(more.last() == (id, off));
            assert(nth(base, at as int) == id);
            assert forall|i: int| 0 <= i < size implies #[trigger] table@[i] == filled(
                before,
                more,
                base,
            )[i] by {
                assert(t0[i] == filled(before, l@.take(j as int), base)[i]);
                assert(i != at ==> nth(base, i) != id);
            }
            assert(table@ =~= filled(before, more, base));
        }
        j += 1;
    }
    assert(l@.take(n as int) =~= l@);
}

/// The places of pages number `base` to `base + n`.
pub open spec fn place_table(
    local: Seq<Seq<(PageID, usize)>>,
    swept: Seq<(PageID, usize)>,
    base: u64,
    n: nat,
) -> Seq<Option<usize>> {
    Seq::new(n, |i: int| place_of(local, swept, nth(base, i)))
}

/// The place of each page: the first that a slot noted, else the first of the
/// sweep.
pub fn first_places(
    local: &Mappings,
    swept: &Vec<(PageID, usize)>,
    base: u64,
    n: usize,
) -> (table: Vec<Option<usize>>)
    requires
        forall|s: int| 0 <= s < local@.len() ==> within(#[trigger] local@[s]@, base, n as nat),
        within(swept@, base, n as nat),
        base + n <= u64::MAX,
    ensures
        table@ == place_table(snapshot::maps(*local), swept@, base, n as nat),
        forall|i: int|
            0 <= i < n ==> {
                &&& #[trigger] table@[i] is Some <==> run::kept(
                    snapshot::maps(*local),
                    swept@,
                    nth(base, i),
                )
                &&& table@[i] matches Some(off) ==> noted(
                    snapshot::maps(*local),
                    swept@,
                    (nth(base, i), off),
                )
            },
{
    let ghost m = snapshot::maps(*local);
    let mut table: Vec<Option<usize>> = Vec::new();
    let mut k: usize = 0;
    while k < n
        invariant
            k <= n,
            table@.len() == k,
            forall|i: int| 0 <= i < k ==> #[trigger] table@[i] is None,
        decreases n - k,
    {
        table.push(None);
        k += 1;
    }
    let slots = local.len();
    let mut s: usize = 0;
    while s < slots
        invariant
            s <= slots,
            slots == local@.len(),
            m == snapshot::maps(*local),
            table@.len() == n,
            forall|x: int| 0 <= x < local@.len() ==> within(#[trigger] local@[x]@, base, n as nat),
            base + n <= u64::MAX,
            forall|i: int|
                0 <= i < n ==> #[trigger] table@[i] == first_of(m.take(s as int), nth(base, i)),
        decreases slots - s,
    {
        let ghost t0 = table@;
        let ghost more = m.take(s + 1);
        assert(m[s as int] == local@[s as int]@);
        fill(&mut table, &local[s], base);
        proof {
            assert(more.drop_last() =~= m.take(s as int));
            assert(more.last() == local@[s as int]@);
            assert forall|i: int| 0 <= i < n implies #[trigger] table@[i] == first_of(
                more,
                nth(base, i),
            ) by {
                assert(t0[i] == first_of(m.take(s as int), nth(base, i)));
            }
        }
        s += 1;
    }
    assert(m.take(slots as int) =~= m);
    let ghost t1 = table@;
    fill(&mut table, swept, base);
    assert forall|i: int| 0 <= i < n implies {
        &&& #[trigger] table@[i] is Some <==> run::kept(m, swept@, nth(base, i))
        &&& table@[i] matches Some(off) ==> noted(m, swept@, (nth(base, i), off))
        &&& table@[i] == place_of(m, swept@, nth(base, i))
    } by {
        assert(t1[i] == first_of(m, nth(base, i)));
        lemma_place_of(m, swept@, nth(base, i));
    }
    assert(table@ =~= place_table(m, swept@, base, n as nat));
    table
}

/// A place as it stands in the file.
pub open spec fn place(off: usize) -> u64 {
    if off == NULL_PAGE_LOCATION_OFFSET {
        u64::MAX
    } else {
        off as u64
    }
}

/// The pages that have a place, in ascending order, each with its place.
pub open spec fn places(table: Seq<Option<usize>>, base: u64) -> Seq<(u64, u64)>
    decreases table.len(),
{
    if table.len() == 0 {
        Seq::empty()
    } else {
        let front = places(table.drop_last(), base);
        match table.last() {
            None => front,
            Some(off) => front.push(((base + table.len() - 1) as u64, place(off))),
        }
    }
}

/// The list of pages number `base` to `base + n`: each page that an operation or
/// the sweep noted stands in it once, with its first place.
pub open spec fn listing(
    local: Seq<Seq<(PageID, usize)>>,
    swept: Seq<(PageID, usize)>,
    base: u64,
    n: nat,
) -> Seq<(u64, u64)> {
    places(place_table(local, swept, base, n), base)
}

/// The list of a table.
pub fn table_list(table: &Vec<Option<usize>>, base: u64) -> (v: Vec<(u64, u64)>)
    requires
        base + table@.len() <= u64::MAX,
    ensures
        v@ == places(table@, base),
{
    let n = table.len();
    let mut v: Vec<(u64, u64)> = Vec::new();
    let mut i: usize = 0;
    assert(table@.take(0) =~= Seq::<Option<usize>>::empty());
    while i < n
        invariant
            i <= n,
            n == table@.len(),
            base + n <= u64::MAX,
            v@ == places(table@.take(i as int), base),
        decreases n - i,
    {
        proof {
            assert(table@.take(i + 1).drop_last() =~= table@.take(i as int));
            assert(table@.take(i + 1).last() == table@[i as int]);
        }
        match table[i] {
            None => {},
            Some(off) => {
                let at: u64 = if off == NULL_PAGE_LOCATION_OFFSET {
                    u64::MAX
                } else {
                    off as u64
                };
                v.push((base + i as u64, at));
            },
        }
        i += 1;
    }
    assert(table@.take(n as int) =~= table@);
    v
}

/// Ids ascend.
pub open spec fn ascending(l: Seq<(u64, u64)>) -> bool {
    forall|i: int, j: int| 0 <= i < j < l.len() ==> (#[trigger] l[i]).0 < (#[trigger] l[j]).0
}

pub open spec fn has_id(l: Seq<(u64, u64)>, id: u64) -> bool {
    exists|i: int| 0 <= i < l.len() && (#[trigger] l[i]).0 == id
}

/// The list of a table holds the pages of the table and no others.
pub proof fn lemma_places(table: Seq<Option<usize>>, base: u64)
    requires
        base + table.len() <= u64::MAX,
    ensures
        ascending(places(table, base)),
        places(table, base).len() <= table.len(),
        forall|j: int|
            0 <= j < places(table, base).len() ==> {
                let e = #[trigger] places(table, base)[j];
                &&& base <= e.0 < base + table.len()
                &&& table[e.0 - base] matches Some(off) && e.1 == place(off)
            },
        forall|i: int|
            0 <= i < table.len() && #[trigger] table[i] is Some ==> has_id(
                places(table, base),
                (base + i) as u64,
            ),
    decreases table.len(),
{
    if table.len() > 0 {
        let front = table.drop_last();
        let fl = places(front, base);
        let all = places(table, base);
        lemma_places(front, base);
        assert forall|j: int| 0 <= j < all.len() implies {
            let e = #[trigger] all[j];
            &&& base <= e.0 < base + table.len()
            &&& table[e.0 - base] matches Some(off) && e.1 == place(off)
        } by {
            if j < fl.len() {
                assert(all[j] == fl[j]);
                assert(front[fl[j].0 - base] == table[fl[j].0 - base]);
            }
        }
        assert forall|i: int, j: int| 0 <= i < j < all.len() implies (#[trigger] all[i]).0 < (
        #[trigger] all[j]).0 by {
            assert(all[i] == fl[i]);
            if j < fl.len() {
                assert(all[j] == fl[j]);
            }
        }
        assert forall|i: int| 0 <= i < table.len() && #[trigger] table[i] is Some implies has_id(
            all,
            (base + i) as u64,
        ) by {
            if i < front.len() {
                assert(front[i] == table[i]);
                assert(has_id(fl, (base + i) as u64));
                let j = choose|j: int|
                    0 <= j < fl.len() && (#[trigger] fl[j]).0 == (base + i) as u64;
                assert(all[j] == fl[j]);
            } else {
                assert(all[fl.len() as int].0 == (base + i) as u64);
            }
        }
    }
}

/// Two tables for the same pages have lists with the same pages.
pub proof fn lemma_places_parallel(a: Seq<Option<usize>>, b: Seq<Option<usize>>, base: u64)
    requires
        a.len() == b.len(),
        forall|i: int| 0 <= i < a.len() ==> (#[trigger] a[i] is Some <==> b[i] is Some),
    ensures
        places(a, base).len() == places(b, base).len(),
        forall|j: int|
            0 <= j < places(a, base).len() ==> (#[trigger] places(a, base)[j]).0 == places(
                b,
                base,
            )[j].0,
    decreases a.len(),
{
    if a.len() > 0 {
        assert forall|i: int| 0 <= i < a.drop_last().len() implies (#[trigger] a.drop_last()[i] is Some
            <==> b.drop_last()[i] is Some) by {
            assert(a[i] is Some <==> b[i] is Some);
        }
        lemma_places_parallel(a.drop_last(), b.drop_last(), base);
        assert(a[a.len() - 1] is Some <==> b[b.len() - 1] is Some);
    }
}

/// Where the first `m` pages and no others have a place, the list holds them
/// one after the other.
pub proof fn lemma_places_dense(table: Seq<Option<usize>>, base: u64, m: nat)
    requires
        base + table.len() <= u64::MAX,
        m <= table.len(),
        forall|i: int| 0 <= i < table.len() ==> (#[trigger] table[i] is Some <==> i < m),
    ensures
        places(table, base).len() == m,
        forall|j: int|
            0 <= j < m ==> #[trigger] places(table, base)[j] == (
                (base + j) as u64,
                place(table[j]->0),
            ),
    decreases table.len(),
{
    if table.len() > 0 {
        let front = table.drop_last();
        assert forall|i: int| 0 <= i < front.len() implies (#[trigger] front[i] is Some <==> i
            < m) by {
            assert(front[i] == table[i]);
        }
        assert(table[table.len() - 1] is Some <==> table.len() - 1 < m);
        lemma_places_dense(
            front,
            base,
            if m == table.len() {
                (m - 1) as nat
            } else {
                m
            },
        );
    }
}

} // verus!
