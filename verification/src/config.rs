//! Configuration of a tree.
use vstd::prelude::*;

use crate::error::ConfigError;
use crate::model::Params;
use crate::nodes::image::{KV_META_SIZE, PAGE_HEADER_SIZE};
use crate::nodes::inner_node::{INNER_FIXED_SIZE, INNER_NODE_SIZE, SEPARATOR_OVERHEAD};
use crate::snapshot::finalize;
use crate::snapshot::meta::BfTreeMeta;
use crate::snapshot::SNAPSHOT_STATE_VERSION_NUM;
use crate::wal::log::BLOCK_SIZE;

verus! {

/// Where pages and logs are kept.
#[derive(Debug, Clone, Copy, PartialEq, Eq, Structural)]
pub enum StorageBackend {
    Memory,
    Std,
}

/// Configuration of a write-ahead log.
#[derive(Debug, Clone, Copy)]
pub struct WalConfig {
    /// The size of a log segment, a multiple of the block size.
    pub segment_size: usize,
    /// The longest time between two flushes, in microseconds.
    pub flush_interval: u64,
    pub storage_backend: StorageBackend,
}

impl WalConfig {
    /// The segment size is a positive multiple of the block size.
    pub open spec fn ok(&self) -> bool {
        self.segment_size >= BLOCK_SIZE && self.segment_size % BLOCK_SIZE == 0
    }

    pub fn new() -> (r: WalConfig)
        ensures
            r.segment_size == 1_048_576,
            r.flush_interval == 1,
            r.storage_backend == StorageBackend::Std,
    {
        WalConfig {
            segment_size: 1_048_576,
            flush_interval: 1,
            storage_backend: StorageBackend::Std,
        }
    }

    pub fn segment_size(&mut self, segment_size: usize) -> (r: &mut WalConfig)
        ensures
            *r == (WalConfig { segment_size, ..*old(self) }),
            *final(self) == *final(r),
    {
        self.segment_size = segment_size;
        self
    }

    pub fn flush_interval(&mut self, flush_interval: u64) -> (r: &mut WalConfig)
        ensures
            *r == (WalConfig { flush_interval, ..*old(self) }),
            *final(self) == *final(r),
    {
        self.flush_interval = flush_interval;
        self
    }
}

/// Configuration of a tree.
#[derive(Debug, Clone, Copy)]
pub struct Config {
    /// How many scans out of a hundred may promote a page to the cache.
    pub scan_promotion_rate: usize,
    pub read_promotion_rate: usize,
    /// The size of the page cache.
    pub cb_size_byte: usize,
    pub cb_min_record_size: usize,
    pub cb_max_record_size: usize,
    pub leaf_page_size: usize,
    pub cb_max_key_len: usize,
    /// Room in a leaf page for its two fence keys.
    pub max_fence_len: usize,
    /// The part of the page cache that is copied on access, as the bits of a
    /// double-precision number.
    pub cb_copy_on_access_ratio: u64,
    pub read_record_cache: bool,
    /// The greatest size of a cached delta page.
    pub max_mini_page_size: usize,
    pub mini_page_binary_search: bool,
    pub write_load_full_page: bool,
    /// Leaf pages live in the cache alone and are lost on eviction.
    pub cache_only: bool,
    pub storage_backend: StorageBackend,
    pub snapshot_backend: StorageBackend,
    pub use_snapshot: bool,
    pub snapshot_version: u64,
    pub write_ahead_log: Option<WalConfig>,
}

impl Config {
    /// The greatest length of a key.
    pub open spec fn key_max(&self) -> nat {
        (self.max_fence_len / 2) as nat
    }

    /// The limits that the configuration sets.
    pub open spec fn params(&self) -> Params {
        let k = self.key_max();
        Params {
            key_max: k,
            fanout: ((INNER_NODE_SIZE - INNER_FIXED_SIZE) / (SEPARATOR_OVERHEAD + k)) as nat,
            page: self.leaf_page_size as nat,
            cap: (self.leaf_page_size - PAGE_HEADER_SIZE - 2 * k) as nat,
            rec_max: self.cb_max_record_size as nat,
            cache_only: self.cache_only,
        }
    }

    pub open spec fn ok(&self) -> bool {
        &&& self.leaf_page_size <= 32768
        &&& 2 * (KV_META_SIZE + self.cb_max_record_size) + PAGE_HEADER_SIZE + 2 * self.key_max()
            <= self.leaf_page_size
        &&& self.cb_min_record_size <= self.cb_max_record_size
        &&& self.key_max() <= self.cb_max_record_size
        &&& INNER_FIXED_SIZE + 3 * (SEPARATOR_OVERHEAD + self.key_max()) <= INNER_NODE_SIZE
        &&& self.cb_size_byte >= 2 * self.leaf_page_size
        &&& self.snapshot_version < SNAPSHOT_STATE_VERSION_NUM
    }

    /// A key and a value that a tree takes.
    pub open spec fn valid_kv(&self, key: Seq<u8>, value: Seq<u8>) -> bool {
        &&& key.len() <= self.key_max()
        &&& self.cb_min_record_size <= key.len() + value.len() <= self.cb_max_record_size
    }

    /// The configuration with another greatest key length.
    pub open spec fn with_key_len(self, cb_max_key_len: usize) -> Config {
        Config { cb_max_key_len, max_fence_len: (2 * cb_max_key_len) as usize, ..self }
    }

    /// What is wrong with a configuration that is not in order.
    pub open spec fn first_error(&self) -> ConfigError {
        if self.leaf_page_size > 32768 {
            ConfigError::LeafPageSize
        } else if self.cb_min_record_size > self.cb_max_record_size {
            ConfigError::MinimumRecordSize
        } else if self.key_max() > self.cb_max_record_size {
            ConfigError::MaxKeyLen
        } else if 2 * (KV_META_SIZE + self.cb_max_record_size) + PAGE_HEADER_SIZE + 2
            * self.key_max() > self.leaf_page_size {
            ConfigError::MaximumRecordSize
        } else if INNER_FIXED_SIZE + 3 * (SEPARATOR_OVERHEAD + self.key_max()) > INNER_NODE_SIZE {
            ConfigError::MaxKeyLen
        } else if self.cb_size_byte < 2 * self.leaf_page_size {
            ConfigError::CircularBufferSize
        } else {
            ConfigError::SnapshotFileInvalid
        }
    }

    /// A tree on disk with a page cache of `cache_size` bytes.
    pub fn new(cache_size: usize) -> (r: Config)
        ensures
            r == (Config { cb_size_byte: cache_size, ..default_config() }),
    {
        let mut config = Config::default();
        config.cb_size_byte = cache_size;
        config
    }

    pub fn default() -> (r: Config)
        ensures
            r == default_config(),
            r.ok(),
            r.cb_size_byte == 32 * 1024 * 1024,
            r.cb_min_record_size == 4,
            r.cb_max_record_size == 1952,
            r.leaf_page_size == 4096,
            r.max_fence_len == 2 * r.cb_max_key_len == 32,
            r.scan_promotion_rate == r.read_promotion_rate == 30,
            !r.cache_only,
            !r.use_snapshot,
            r.write_ahead_log is None,
    {
        Config {
            scan_promotion_rate: 30,
            read_promotion_rate: 30,
            cb_size_byte: 33_554_432,
            cb_min_record_size: 4,
            cb_max_record_size: 1952,
            leaf_page_size: 4096,
            cb_max_key_len: 16,
            max_fence_len: 32,
            cb_copy_on_access_ratio: 0x3fb9_9999_9999_999a,
            read_record_cache: true,
            max_mini_page_size: 2048,
            mini_page_binary_search: true,
            write_load_full_page: true,
            cache_only: false,
            storage_backend: StorageBackend::Memory,
            snapshot_backend: StorageBackend::Std,
            use_snapshot: false,
            snapshot_version: 0,
            write_ahead_log: None,
        }
    }

    /// The configuration that the header of a snapshot file tells; nothing if a
    /// number in it does not fit this machine.
    pub fn new_from_snapshot(meta: &BfTreeMeta) -> (r: Option<Config>)
        ensures
            r is Some <==> finalize::settings_match(*meta, config_of(*meta)),
            r matches Some(c) ==> c == config_of(*meta),
    {
        let top: u64 = usize::MAX as u64;
        if meta.cb_size_byte > top || meta.read_promotion_rate > top || meta.scan_promotion_rate
            > top || meta.cb_min_record_size > top || meta.cb_max_record_size > top
            || meta.leaf_page_size > top || meta.cb_max_key_len > top || meta.max_fence_len > top
            || meta.max_mini_page_size > top {
            return None;
        }
        Some(
            Config {
                scan_promotion_rate: meta.scan_promotion_rate as usize,
                read_promotion_rate: meta.read_promotion_rate as usize,
                cb_size_byte: meta.cb_size_byte as usize,
                cb_min_record_size: meta.cb_min_record_size as usize,
                cb_max_record_size: meta.cb_max_record_size as usize,
                leaf_page_size: meta.leaf_page_size as usize,
                cb_max_key_len: meta.cb_max_key_len as usize,
                max_fence_len: meta.max_fence_len as usize,
                cb_copy_on_access_ratio: meta.cb_copy_on_access_ratio,
                read_record_cache: meta.read_record_cache,
                max_mini_page_size: meta.max_mini_page_size as usize,
                mini_page_binary_search: meta.mini_page_binary_search,
                write_load_full_page: meta.write_load_full_page,
                cache_only: meta.cache_only,
                storage_backend: StorageBackend::Memory,
                snapshot_backend: StorageBackend::Std,
                use_snapshot: false,
                snapshot_version: meta.snapshot_version,
                write_ahead_log: None,
            },
        )
    }

    pub fn cache_only(&mut self, cache_only: bool) -> (r: &mut Config)
        ensures
            *r == (Config { cache_only, ..*old(self) }),
            *final(self) == *final(r),
    {
        self.cache_only = cache_only;
        self
    }

    pub fn cb_size_byte(&mut self, cb_size_byte: usize) -> (r: &mut Config)
        ensures
            *r == (Config { cb_size_byte, ..*old(self) }),
            *final(self) == *final(r),
    {
        self.cb_size_byte = cb_size_byte;
        self
    }

    pub fn cb_min_record_size(&mut self, cb_min_record_size: usize) -> (r: &mut Config)
        ensures
            *r == (Config { cb_min_record_size, ..*old(self) }),
            *final(self) == *final(r),
    {
        self.cb_min_record_size = cb_min_record_size;
        self
    }

    pub fn cb_max_record_size(&mut self, cb_max_record_size: usize) -> (r: &mut Config)
        ensures
            *r == (Config { cb_max_record_size, ..*old(self) }),
            *final(self) == *final(r),
    {
        self.cb_max_record_size = cb_max_record_size;
        self
    }

    /// Sets the greatest key length and makes room for two such fence keys.
    pub fn cb_max_key_len(&mut self, cb_max_key_len: usize) -> (r: &mut Config)
        requires
            cb_max_key_len <= usize::MAX / 2,
        ensures
            *r == old(self).with_key_len(cb_max_key_len),
            *r == (Config {
                cb_max_key_len,
                max_fence_len: (2 * cb_max_key_len) as usize,
                ..*old(self)
            }),
            r.max_fence_len == 2 * cb_max_key_len,
            *final(self) == *final(r),
    {
        self.cb_max_key_len = cb_max_key_len;
        self.max_fence_len = 2 * cb_max_key_len;
        self
    }

    pub fn scan_promotion_rate(&mut self, scan_promotion_rate: usize) -> (r: &mut Config)
        ensures
            *r == (Config { scan_promotion_rate, ..*old(self) }),
            *final(self) == *final(r),
    {
        self.scan_promotion_rate = scan_promotion_rate;
        self
    }

    pub fn read_promotion_rate(&mut self, read_promotion_rate: usize) -> (r: &mut Config)
        ensures
            *r == (Config { read_promotion_rate, ..*old(self) }),
            *final(self) == *final(r),
    {
        self.read_promotion_rate = read_promotion_rate;
        self
    }

    pub fn use_snapshot(&mut self, use_snapshot: bool) -> (r: &mut Config)
        ensures
            *r == (Config { use_snapshot, ..*old(self) }),
            *final(self) == *final(r),
    {
        self.use_snapshot = use_snapshot;
        self
    }

    pub fn storage_backend(&mut self, storage_backend: StorageBackend) -> (r: &mut Config)
        ensures
            *r == (Config { storage_backend, ..*old(self) }),
            *final(self) == *final(r),
    {
        self.storage_backend = storage_backend;
        self
    }

    pub fn enable_write_ahead_log(&mut self, wal: WalConfig) -> (r: &mut Config)
        ensures
            *r == (Config { write_ahead_log: Some(wal), ..*old(self) }),
            *final(self) == *final(r),
    {
        self.write_ahead_log = Some(wal);
        self
    }

    /// Checks that pages, nodes and the cache can hold what the configuration
    /// allows.
    pub fn validate(&self) -> (r: Result<(), ConfigError>)
        ensures
            r is Ok <==> self.ok(),
            self.ok() ==> self.params().ok(),
            r matches Err(e) ==> e == self.first_error(),
    {
        let k: usize = self.max_fence_len / 2;
        if self.leaf_page_size > 32768 {
            return Err(ConfigError::LeafPageSize);
        }
        if self.cb_min_record_size > self.cb_max_record_size {
            return Err(ConfigError::MinimumRecordSize);
        }
        if k > self.cb_max_record_size {
            return Err(ConfigError::MaxKeyLen);
        }
        if self.cb_max_record_size > self.leaf_page_size {
            return Err(ConfigError::MaximumRecordSize);
        }
        if 2 * (KV_META_SIZE + self.cb_max_record_size) + PAGE_HEADER_SIZE + 2 * k
            > self.leaf_page_size {
            return Err(ConfigError::MaximumRecordSize);
        }
        if INNER_FIXED_SIZE + 3 * (SEPARATOR_OVERHEAD + k) > INNER_NODE_SIZE {
            return Err(ConfigError::MaxKeyLen);
        }
        proof {
            self.lemma_params();
        }
        if self.cb_size_byte < 2 * self.leaf_page_size {
            return Err(ConfigError::CircularBufferSize);
        }
        if self.snapshot_version >= SNAPSHOT_STATE_VERSION_NUM {
            return Err(ConfigError::SnapshotFileInvalid);
        }
        Ok(())
    }

    /// A valid configuration sets valid limits.
    pub proof fn lemma_params(&self)
        requires
            self.leaf_page_size <= 32768,
            2 * (KV_META_SIZE + self.cb_max_record_size) + PAGE_HEADER_SIZE + 2 * self.key_max()
                <= self.leaf_page_size,
            self.key_max() <= self.cb_max_record_size,
            INNER_FIXED_SIZE + 3 * (SEPARATOR_OVERHEAD + self.key_max()) <= INNER_NODE_SIZE,
        ensures
            self.params().ok(),
    {
        let w = (SEPARATOR_OVERHEAD + self.key_max()) as int;
        let room = (INNER_NODE_SIZE - INNER_FIXED_SIZE) as int;
        vstd::arithmetic::div_mod::lemma_fundamental_div_mod(room, w);
        vstd::arithmetic::div_mod::lemma_div_is_ordered(3 * w, room, w);
        vstd::arithmetic::div_mod::lemma_div_multiples_vanish(3, w);
        vstd::arithmetic::mul::lemma_mul_is_commutative(w, room / w);
        vstd::arithmetic::mul::lemma_mul_is_commutative(w, 3);
    }

    /// The greatest number of separators in an inner node.
    pub fn max_separators(&self) -> (r: usize)
        requires
            self.ok(),
        ensures
            r == self.params().fanout,
            r >= 3,
            r == 4016int / (16 + self.max_fence_len as int / 2),
    {
        proof {
            self.lemma_params();
        }
        (INNER_NODE_SIZE - INNER_FIXED_SIZE) / (SEPARATOR_OVERHEAD + self.max_fence_len / 2)
    }

    /// The bytes of a leaf page that records may take.
    pub fn record_capacity(&self) -> (r: usize)
        requires
            self.ok(),
        ensures
            r == self.params().cap,
            r == self.leaf_page_size - 64 - 2 * (self.max_fence_len / 2),
    {
        self.leaf_page_size - PAGE_HEADER_SIZE - 2 * (self.max_fence_len / 2)
    }
}

/// The configuration that the header of a snapshot file tells.
pub open spec fn config_of(m: BfTreeMeta) -> Config {
    Config {
        scan_promotion_rate: m.scan_promotion_rate as usize,
        read_promotion_rate: m.read_promotion_rate as usize,
        cb_size_byte: m.cb_size_byte as usize,
        cb_min_record_size: m.cb_min_record_size as usize,
        cb_max_record_size: m.cb_max_record_size as usize,
        leaf_page_size: m.leaf_page_size as usize,
        cb_max_key_len: m.cb_max_key_len as usize,
        max_fence_len: m.max_fence_len as usize,
        cb_copy_on_access_ratio: m.cb_copy_on_access_ratio,
        read_record_cache: m.read_record_cache,
        max_mini_page_size: m.max_mini_page_size as usize,
        mini_page_binary_search: m.mini_page_binary_search,
        write_load_full_page: m.write_load_full_page,
        cache_only: m.cache_only,
        storage_backend: StorageBackend::Memory,
        snapshot_backend: StorageBackend::Std,
        use_snapshot: false,
        snapshot_version: m.snapshot_version,
        write_ahead_log: None,
    }
}

/// What a configuration is before anything is set.
pub open spec fn default_config() -> Config {
    Config {
        scan_promotion_rate: 30,
        read_promotion_rate: 30,
        cb_size_byte: 33_554_432,
        cb_min_record_size: 4,
        cb_max_record_size: 1952,
        leaf_page_size: 4096,
        cb_max_key_len: 16,
        max_fence_len: 32,
        cb_copy_on_access_ratio: 0x3fb9_9999_9999_999a,
        read_record_cache: true,
        max_mini_page_size: 2048,
        mini_page_binary_search: true,
        write_load_full_page: true,
        cache_only: false,
        storage_backend: StorageBackend::Memory,
        snapshot_backend: StorageBackend::Std,
        use_snapshot: false,
        snapshot_version: 0,
        write_ahead_log: None,
    }
}

} // verus!
