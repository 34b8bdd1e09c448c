//! Leaf pages, inner nodes, and how they stand in a file.
use vstd::prelude::*;

use crate::circular_buffer;
use crate::codec;
use crate::config;
use crate::model::{Core, PageState};
use crate::nodes::image;
use crate::nodes::image::{ImageView, RecordView};
use crate::nodes::inner_node;
use crate::nodes::inner_node::InnerView;
use crate::nodes::leaf_node;
use crate::nodes::leaf_node::LeafNode;
use crate::nodes::leaf_page;
use crate::nodes::{OpType, PageID};
use crate::order;
use crate::snapshot::finalize;
use crate::snapshot::meta;
use crate::snapshot::meta::BfTreeMeta;

verus! {

/// A page that is tidied up keeps the records below its high fence, each as it is, but
/// for the one under the key that is to be left out and, if asked, those that stand for
/// nothing; it keeps no others.
pub proof fn law_what_a_tidied_page_keeps(
    rs: Seq<RecordView>,
    high: Seq<u8>,
    skip_tombstone: bool,
    skip_key: Option<Seq<u8>>,
    i: int,
    k: Seq<u8>,
)
    requires
        leaf_node::sorted(rs),
        0 <= i < rs.len(),
    ensures
        ({
            let now = leaf_page::kept(rs, high, skip_tombstone, skip_key);
            let stands = rs[i].op == OpType::Insert || rs[i].op == OpType::Cache;
            &&& (high.len() == 0 || order::lex_lt(rs[i].key, high)) && skip_key != Some(rs[i].key)
                && (!skip_tombstone || stands) ==> leaf_node::lookup(now, rs[i].key) == Some(rs[i])
            &&& high.len() > 0 && !order::lex_lt(rs[i].key, high) ==> leaf_node::lookup(
                now,
                rs[i].key,
            ) is None
            &&& skip_key == Some(rs[i].key) ==> leaf_node::lookup(now, rs[i].key) is None
            &&& skip_tombstone && !stands ==> leaf_node::lookup(now, rs[i].key) is None
            &&& !leaf_node::has_key(rs, k) ==> leaf_node::lookup(now, k) is None
        }),
{
    leaf_node::lemma_lookup_at(rs, i);
    leaf_page::law_tidied_page_answers_alike(rs, high, skip_tombstone, skip_key, rs[i].key);
    leaf_page::law_tidied_page_answers_alike(rs, high, skip_tombstone, skip_key, k);
}

/// When a page takes a record: if the key begins as both fences do, and the record, in
/// place of one that is there under its key, finds room beside the header, the records and
/// the room for fences. A record takes eight bytes besides its key and its value.
pub proof fn law_when_a_page_takes_a_record(
    n: LeafNode,
    r: RecordView,
    max_fence_len: int,
    prefix: Seq<u8>,
    p: int,
)
    requires
        n.page_ok(),
        leaf_node::is_lower_bound(n@.records, r.key, p),
        leaf_page::common_prefix(n@.low, n@.high, prefix),
        n@.low.len() + n@.high.len() <= max_fence_len,
    ensures
        ({
            let there = p < n@.records.len() && n@.records[p].key == r.key;
            let freed = if there {
                8 + r.key.len() + n@.records[p].value.len()
            } else {
                0
            };
            let need = image::recs_size(n@.records) - freed + 8 + r.key.len() + r.value.len();
            n.accepts(r, max_fence_len) <==> prefix.is_prefix_of(r.key) && r.key.len() < 0x4000
                && r.value.len() < 0x8000 && need <= n.node_size - 64 - max_fence_len
        }),
{
    assert forall|q: Seq<u8>| #[trigger]
        leaf_page::common_prefix(n@.low, n@.high, q) implies q == prefix by {
        leaf_page::lemma_one_prefix(n@.low, n@.high, prefix, q);
    }
    leaf_page::lemma_upserted(n@.records, r, p);
    if p < n@.records.len() && n@.records[p].key == r.key {
        leaf_node::lemma_recs_size_update(n@.records, p, r);
    } else {
        leaf_node::lemma_recs_size_insert(n@.records, p, r);
    }
}

/// The size of records is that of their keys and values, and eight bytes for each.
pub proof fn law_the_size_of_records(rs: Seq<RecordView>, r: RecordView)
    ensures
        image::recs_size(Seq::empty()) == 0,
        image::recs_size(rs.push(r)) == image::recs_size(rs) + 8 + r.key.len() + r.value.len(),
{
    image::lemma_recs_size_push(rs, r);
}

/// A page that was written is read back as it was, whatever it holds.
pub proof fn law_a_page_is_read_back(v: ImageView)
    requires
        v.fits(),
    ensures
        image::image_bytes(v).len() == v.size,
        image::parse_image(image::image_bytes(v)) == Some(v),
{
    image::lemma_image_len(v);
    image::lemma_image_round_trip(v);
}

/// A page that holds any records that find room in it can be written: a header of 64
/// bytes, its fences, and its records.
pub proof fn law_what_finds_room_is_written(v: ImageView)
    ensures
        v.fits() <==> 64 + v.low.len() + v.high.len() + image::recs_size(v.records) <= v.size
            <= u64::MAX && v.records.len() <= u64::MAX && forall|i: int|
            0 <= i < v.records.len() ==> (#[trigger] v.records[i]).key.len() <= 0xffff
                && v.records[i].value.len() <= 0xffff,
{
}

/// An inner node that was written is read back as it was.
pub proof fn law_a_node_is_read_back(v: InnerView, lock: u64)
    requires
        v.shaped(),
        v.fits(),
    ensures
        image::image_bytes(inner_node::inner_image(v, lock)).len() == 4096,
        inner_node::parse_inner(image::image_bytes(inner_node::inner_image(v, lock))) == Some(v),
{
    inner_node::lemma_inner_round_trip(v, lock);
}

/// The room that the separators of an inner node take: sixteen bytes for each, and its own.
pub proof fn law_the_size_of_separators(keys: Seq<Seq<u8>>, k: Seq<u8>)
    ensures
        inner_node::keys_size(Seq::empty()) == 0,
        inner_node::keys_size(keys.push(k)) == inner_node::keys_size(keys) + 16 + k.len(),
{
    assert(keys.push(k).drop_last() =~= keys);
}

/// Which child of an inner node a key leads to: the one behind the last separator that is
/// not above the key.
pub proof fn law_which_child_a_key_leads_to(keys: Seq<Seq<u8>>, k: Seq<u8>, p: int)
    requires
        inner_node::keys_sorted(keys),
        inner_node::is_child_of(keys, k, p),
    ensures
        0 <= p <= keys.len(),
        p > 0 ==> !order::lex_lt(k, keys[p - 1]),
        p < keys.len() ==> order::lex_lt(k, keys[p]),
{
    order::lemma_lex_order();
}

/// Page ids tell leaf pages from inner nodes, and neither is lost in one.
pub proof fn law_page_ids(i: int)
    requires
        0 <= i < 0x8000_0000_0000_0000,
    ensures
        PageID::leaf(i).spec_is_id(),
        PageID::leaf(i).raw == i,
        !PageID::inner(i).spec_is_id(),
        PageID::inner(i).inner_no() == i,
        PageID::inner(i).raw == 0x8000_0000_0000_0000 + i,
{
}

/// What the header of a snapshot file tells, and where.
pub proof fn law_how_a_header_is_written(m: BfTreeMeta, b: Seq<u8>)
    requires
        b.len() >= 512,
        b.subrange(0, 512) == meta::meta_bytes(m),
    ensures
        meta::parse_meta(b) == Some(m),
        codec::u64_at(b, 16) == m.root_id,
        codec::u64_at(b, 24) == m.inner_offset,
        codec::u64_at(b, 32) == m.inner_size,
        codec::u64_at(b, 40) == m.mini_offset,
        codec::u64_at(b, 48) == m.mini_size,
        codec::u64_at(b, 56) == m.mini_size_offset,
        codec::u64_at(b, 64) == m.mini_size_size,
        codec::u64_at(b, 72) == m.base_offset,
        codec::u64_at(b, 80) == m.base_size,
        codec::u64_at(b, 88) == m.file_size,
        codec::u64_at(b, 96) == m.leaf_page_num,
        codec::u64_at(b, 104) == m.cb_size_byte,
        codec::u64_at(b, 112) == m.snapshot_version,
        b[120] == 0 <==> !m.cache_only,
        codec::u64_at(b, 128) == m.read_promotion_rate,
        codec::u64_at(b, 136) == m.scan_promotion_rate,
        codec::u64_at(b, 144) == m.cb_min_record_size,
        codec::u64_at(b, 152) == m.cb_max_record_size,
        codec::u64_at(b, 160) == m.leaf_page_size,
        codec::u64_at(b, 168) == m.cb_max_key_len,
        codec::u64_at(b, 176) == m.max_fence_len,
        codec::u64_at(b, 184) == m.cb_copy_on_access_ratio,
        b[192] == 0 <==> !m.read_record_cache,
        codec::u64_at(b, 200) == m.max_mini_page_size,
        b[208] == 0 <==> !m.mini_page_binary_search,
        b[209] == 0 <==> !m.write_load_full_page,
{
    meta::lemma_meta_round_trip(m, b);
}

/// A list of pairs stands in a file as their numbers, eight bytes for each.
pub proof fn law_how_a_list_is_read(b: Seq<u8>, off: int, n: nat, i: int)
    requires
        0 <= i < n,
    ensures
        meta::list_at::<(u64, u64)>(b, off, n).len() == n,
        meta::list_at::<(u64, u64)>(b, off, n)[i].0 == codec::u64_at(b, off + 16 * i),
        meta::list_at::<(u64, u64)>(b, off, n)[i].1 == codec::u64_at(b, off + 16 * i + 8),
{
}

/// The next multiple of the sector size.
pub proof fn law_sectors(n: nat)
    ensures
        meta::aligned(n) % 512 == 0,
        n <= meta::aligned(n) < n + 512,
{
}

/// What a search in a page comes upon: the record of a delta page before that of the page
/// under it, and in any other page its own.
pub proof fn law_a_delta_comes_before_what_is_under_it(v: ImageView, b: ImageView, k: Seq<u8>)
    ensures
        leaf_node::has_key(v.records, k) ==> PageState::Mini(v, Some(b)).find(k)
            == leaf_node::lookup(v.records, k),
        !leaf_node::has_key(v.records, k) ==> PageState::Mini(v, Some(b)).find(k)
            == leaf_node::lookup(b.records, k),
        PageState::Mini(v, None).find(k) == leaf_node::lookup(v.records, k),
        PageState::Base(v).find(k) == leaf_node::lookup(v.records, k),
        PageState::Full(v).find(k) == leaf_node::lookup(v.records, k),
        PageState::Null(v.version).find(k) is None,
        PageState::Mini(v, Some(b)).version() == v.version,
        PageState::Base(v).version() == v.version,
        PageState::Full(v).version() == v.version,
        PageState::Mini(v, Some(b)).size() == v.size,
{
}

/// A key is present in a tree if a search in its page comes upon a record that stands for a
/// value, and has that value.
pub proof fn law_what_a_tree_holds(c: Core, k: Seq<u8>)
    ensures
        ({
            let found = c.pages[c.leaf_of(k)].find(k);
            let stands = found matches Some(r) && (r.op == OpType::Insert || r.op == OpType::Cache);
            &&& c.view().contains_key(k) <==> stands
            &&& stands ==> c.view()[k] == (found->0).value
        }),
{
}

/// The settings that the header of a snapshot file tells.
pub proof fn law_what_a_header_tells_of_the_settings(m: BfTreeMeta)
    requires
        finalize::settings_match(m, config::config_of(m)),
    ensures
        ({
            let c = config::config_of(m);
            &&& c.cb_size_byte == m.cb_size_byte
            &&& c.read_promotion_rate == m.read_promotion_rate
            &&& c.scan_promotion_rate == m.scan_promotion_rate
            &&& c.cb_min_record_size == m.cb_min_record_size
            &&& c.cb_max_record_size == m.cb_max_record_size
            &&& c.leaf_page_size == m.leaf_page_size
            &&& c.cb_max_key_len == m.cb_max_key_len
            &&& c.max_fence_len == m.max_fence_len
            &&& c.cb_copy_on_access_ratio == m.cb_copy_on_access_ratio
            &&& c.max_mini_page_size == m.max_mini_page_size
            &&& c.cache_only == m.cache_only
            &&& c.read_record_cache == m.read_record_cache
            &&& c.mini_page_binary_search == m.mini_page_binary_search
            &&& c.write_load_full_page == m.write_load_full_page
            &&& c.snapshot_version == m.snapshot_version
            &&& !c.use_snapshot
            &&& c.write_ahead_log is None
        }),
{
}

/// The first entry of a page in the list of the cache: there is none of it before.
pub proof fn law_the_first_entry_of_a_page(es: Seq<(u64, usize)>, id: u64, i: int, j: int)
    requires
        circular_buffer::first_of(es, id, i),
    ensures
        0 <= i < es.len(),
        es[i].0 == id,
        0 <= j < i ==> es[j].0 != id,
{
}

} // verus!
