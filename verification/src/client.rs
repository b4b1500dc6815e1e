//! The client facade: bucket namespace, object lifecycle, cache budget
//! accounting, relocation, the configuration plane and subscriptions.
//!
//! All object state is held in one place and every operation is a transition
//! on it.  Mutating operations are only valid between `start` and `stop`;
//! outside that window they fail with `InvalidState` rather than misbehave.

use vstd::prelude::*;
use vstd::string::*;

use crate::bytes::{read_into, read_len, read_window, resize_bytes, resize_to, splice_bytes, splice_into};
use crate::config::{budget_of, combined_budget, GEDSConfig};
use crate::errors::{GedsError, GedsErrorKind};
use crate::model::{
    contains_object, index_of_object, int_max, lemma_object_index_unique,
    lemma_resident_sum_nonneg, lemma_resident_sum_pointwise_le, lemma_resident_sum_push,
    lemma_resident_sum_remove, lemma_resident_sum_update, lemma_resident_weight_le_sum,
    lemma_unique_push, lemma_unique_remove, lemma_unique_update, object_at, resident_sum,
    resident_weight, unique_objects, EntryModel, ObjModel, ObjectState, StoredObject,
};
use crate::text::{
    concat_strs, find_char_from, has_prefix, has_suffix, is_marker_key, is_prefix_of,
    lemma_append_cancels, lemma_split_at_prefix, marker_suffix, marker_suffix_str, marker_tail,
    marker_tail_str, str_eq, suffix_from,
};

verus! {

/// The granularity of a change-notification subscription.
#[derive(Clone, Copy, Debug, PartialEq, Eq, Structural)]
pub enum SubscriptionType {
    NoSubscription,
    Bucket,
    Object,
    Prefix,
}

/// The subscription type encoded by the numeric code `c`, if any: 0 is no
/// subscription, 1 a bucket, 2 an object, 3 a prefix.
pub open spec fn subscription_type_of(c: int) -> Option<SubscriptionType> {
    if c == 0 {
        Some(SubscriptionType::NoSubscription)
    } else if c == 1 {
        Some(SubscriptionType::Bucket)
    } else if c == 2 {
        Some(SubscriptionType::Object)
    } else if c == 3 {
        Some(SubscriptionType::Prefix)
    } else {
        None
    }
}

/// The model of one registered subscription.
pub ghost struct SubscriptionModel {
    pub bucket: Seq<char>,
    pub key: Seq<char>,
    pub kind: SubscriptionType,
}

/// One registered change-notification interest.
struct Subscription {
    bucket: String,
    key: String,
    kind: SubscriptionType,
}

impl Subscription {
    /// The model this subscription denotes.
    spec fn model(&self) -> SubscriptionModel {
        SubscriptionModel { bucket: self.bucket@, key: self.key@, kind: self.kind }
    }
}

/// The model of one per-bucket object-store configuration.
pub ghost struct StoreConfigModel {
    pub bucket: Seq<char>,
    pub endpoint_url: Seq<char>,
    pub access_key: Seq<char>,
    pub secret_key: Seq<char>,
}

/// Some registered store configuration is for this bucket.
pub open spec fn has_conf_for(s: Seq<StoreConfigModel>, b: Seq<char>) -> bool {
    exists|i: int| 0 <= i < s.len() && s[i].bucket == b
}

/// The index of the registered store configuration for this bucket.
pub open spec fn conf_index_for(s: Seq<StoreConfigModel>, b: Seq<char>) -> int {
    choose|i: int| 0 <= i < s.len() && s[i].bucket == b
}

/// The configurations after registering `m`: an existing configuration for
/// the same bucket is overwritten, otherwise `m` is appended.
pub open spec fn upsert_conf(s: Seq<StoreConfigModel>, m: StoreConfigModel) -> Seq<
    StoreConfigModel,
> {
    if has_conf_for(s, m.bucket) {
        s.update(conf_index_for(s, m.bucket), m)
    } else {
        s.push(m)
    }
}

/// Connection credentials and endpoint for one bucket's backing store.
struct StoreConfig {
    bucket: String,
    endpoint_url: String,
    access_key: String,
    secret_key: String,
}

impl StoreConfig {
    /// The model this configuration denotes.
    spec fn model(&self) -> StoreConfigModel {
        StoreConfigModel {
            bucket: self.bucket@,
            endpoint_url: self.endpoint_url@,
            access_key: self.access_key@,
            secret_key: self.secret_key@,
        }
    }
}

/// The client: the composition of the metadata view, the sparse cache with
/// its budgets, the prefix engine, the relocation policy and the
/// configuration plane.
pub struct GEDS {
    config: GEDSConfig,
    started: bool,
    buckets: Vec<String>,
    objects: Vec<StoredObject>,
    store_configs: Vec<StoreConfig>,
    configs_synced: bool,
    subscriptions: Vec<Subscription>,
    resident_total: usize,
}

/// `e` after a cache eviction pass: a durable resident entry gives up its
/// local residency, anything else is untouched.  Bytes that are not durable
/// are never evicted.
pub open spec fn evicted_entry(e: EntryModel) -> EntryModel {
    EntryModel {
        bucket: e.bucket,
        key: e.key,
        obj: ObjModel {
            data: e.obj.data,
            metadata: e.obj.metadata,
            sealed: e.obj.sealed,
            resident: e.obj.resident && !e.obj.durable,
            durable: e.obj.durable,
        },
    }
}

/// The entries after evicting every durable resident entry except the one at
/// `keep`.
pub open spec fn evict_others(s: Seq<EntryModel>, keep: int) -> Seq<EntryModel> {
    Seq::new(s.len(), |j: int| if j == keep { s[j] } else { evicted_entry(s[j]) })
}

/// `e` after a relocation flush: its bytes are durable in the backing store.
pub open spec fn flushed_entry(e: EntryModel) -> EntryModel {
    EntryModel {
        bucket: e.bucket,
        key: e.key,
        obj: ObjModel {
            data: e.obj.data,
            metadata: e.obj.metadata,
            sealed: e.obj.sealed,
            resident: e.obj.resident,
            durable: true,
        },
    }
}

/// The entries after a full relocation pass.
pub open spec fn flush_all(s: Seq<EntryModel>) -> Seq<EntryModel> {
    s.map_values(|e: EntryModel| flushed_entry(e))
}

impl GEDS {
    /// The client accepts operations: `start` has run and `stop` has not.
    pub closed spec fn is_started(&self) -> bool {
        self.started
    }

    /// The models of all tracked objects, in tracking order.
    pub closed spec fn entries(&self) -> Seq<EntryModel> {
        self.objects@.map_values(|o: StoredObject| o.model())
    }

    /// The names of the registered buckets, in registration order.
    pub closed spec fn bucket_names(&self) -> Seq<Seq<char>> {
        self.buckets@.map_values(|b: String| b@)
    }

    /// A bucket with this name is registered.
    pub open spec fn has_bucket(&self, b: Seq<char>) -> bool {
        self.bucket_names().contains(b)
    }

    /// The configuration the client was built with.
    pub closed spec fn spec_config(&self) -> GEDSConfig {
        self.config
    }

    /// The registered subscriptions, in registration order.
    pub closed spec fn subs(&self) -> Seq<SubscriptionModel> {
        self.subscriptions@.map_values(|s: Subscription| s.model())
    }

    /// The registered per-bucket store configurations, in registration order.
    pub closed spec fn store_confs(&self) -> Seq<StoreConfigModel> {
        self.store_configs@.map_values(|c: StoreConfig| c.model())
    }

    /// The registered store configurations have been synchronized across the
    /// cluster since the last change.
    pub closed spec fn synced(&self) -> bool {
        self.configs_synced
    }

    /// The combined local cache budget in bytes.
    pub open spec fn budget(&self) -> int {
        combined_budget(self.spec_config())
    }

    /// The total number of cache-resident bytes.
    pub open spec fn resident_bytes(&self) -> int {
        resident_sum(self.entries())
    }

    /// The client's internal consistency: unique bucket names, unique
    /// (bucket, key) pairs each in a registered bucket, evicted bytes always
    /// durable, exact residency accounting, and residency within budget.
    pub closed spec fn wf(&self) -> bool {
        &&& unique_objects(self.entries())
        &&& (forall|i: int, j: int|
            0 <= i < j < self.bucket_names().len() ==> self.bucket_names()[i]
                != self.bucket_names()[j])
        &&& (forall|i: int|
            0 <= i < self.entries().len() ==> self.bucket_names().contains(
                self.entries()[i].bucket,
            ))
        &&& (forall|i: int|
            0 <= i < self.entries().len() && !self.entries()[i].obj.resident
                ==> self.entries()[i].obj.durable)
        &&& self.resident_total as int == resident_sum(self.entries())
        &&& resident_sum(self.entries()) <= self.budget()
        &&& (forall|i: int, j: int|
            0 <= i < j < self.store_confs().len() ==> self.store_confs()[i].bucket
                != self.store_confs()[j].bucket)
    }

    /// Two clients agree on everything but the tracked objects.
    pub open spec fn same_administration(&self, other: &GEDS) -> bool {
        &&& self.is_started() == other.is_started()
        &&& self.bucket_names() == other.bucket_names()
        &&& self.spec_config() == other.spec_config()
        &&& self.subs() == other.subs()
        &&& self.store_confs() == other.store_confs()
        &&& self.synced() == other.synced()
    }

    /// Two clients are observably identical.
    pub open spec fn same_state(&self, other: &GEDS) -> bool {
        self.same_administration(other) && self.entries() == other.entries()
    }

    /// Create a new, not yet started client with this configuration.
    pub fn new(config: &GEDSConfig) -> (r: GEDS)
        ensures
            r.wf(),
            !r.is_started(),
            r.entries() == Seq::<EntryModel>::empty(),
            r.bucket_names() == Seq::<Seq<char>>::empty(),
            r.subs() == Seq::<SubscriptionModel>::empty(),
            r.store_confs() == Seq::<StoreConfigModel>::empty(),
            !r.synced(),
            r.spec_config() == *config,
    {
        let c = GEDSConfig {
            metadata_service_address: config.metadata_service_address.clone(),
            listen_address: config.listen_address.clone(),
            hostname: config.hostname.clone(),
            port: config.port,
            port_http_server: config.port_http_server,
            local_storage_path: config.local_storage_path.clone(),
            cache_block_size: config.cache_block_size,
            cache_objects_from_s3: config.cache_objects_from_s3,
            available_local_storage: config.available_local_storage,
            available_local_memory: config.available_local_memory,
            force_relocation_when_stopping: config.force_relocation_when_stopping,
            pub_sub_enabled: config.pub_sub_enabled,
        };
        let r = GEDS {
            config: c,
            started: false,
            buckets: Vec::new(),
            objects: Vec::new(),
            store_configs: Vec::new(),
            configs_synced: false,
            subscriptions: Vec::new(),
            resident_total: 0,
        };
        proof {
            assert(r.entries() =~= Seq::<EntryModel>::empty());
            assert(r.bucket_names() =~= Seq::<Seq<char>>::empty());
            assert(r.subs() =~= Seq::<SubscriptionModel>::empty());
            assert(r.store_confs() =~= Seq::<StoreConfigModel>::empty());
        }
        r
    }

    /// The documented default configuration.
    pub fn get_default_config() -> (r: GEDSConfig)
        ensures
            r.metadata_service_address@ == "localhost:4381"@,
            r.listen_address@ == "0.0.0.0"@,
            r.hostname@ == "null"@,
            r.port == 4382usize as u16,
            r.port_http_server == 4380usize as u16,
            r.local_storage_path@ == "/tmp/GEDS_XXXXXX"@,
            r.cache_block_size == 0x2000000usize,
            !r.cache_objects_from_s3,
            r.available_local_storage as int == crate::config::capped_at_usize(100int * 0x40000000),
            r.available_local_memory as int == crate::config::capped_at_usize(16int * 0x40000000),
            !r.force_relocation_when_stopping,
            !r.pub_sub_enabled,
    {
        GEDSConfig {
            metadata_service_address: "localhost:4381".to_owned(),
            listen_address: "0.0.0.0".to_owned(),
            hostname: "null".to_owned(),
            port: 4382,
            port_http_server: 4380,
            local_storage_path: "/tmp/GEDS_XXXXXX".to_owned(),
            cache_block_size: 0x2000000,
            cache_objects_from_s3: false,
            available_local_storage: crate::config::gibibytes(100),
            available_local_memory: crate::config::gibibytes(16),
            force_relocation_when_stopping: false,
            pub_sub_enabled: false,
        }
    }

    /// Start the client: establish the metadata session and begin accepting
    /// operations.  Fails with `InvalidState` if already started.
    pub fn start(&mut self) -> (r: Result<(), GedsError>)
        requires
            old(self).wf(),
        ensures
            final(self).wf(),
            r is Ok <==> !old(self).is_started(),
            final(self).is_started() == (r is Ok || old(self).is_started()),
            final(self).entries() == old(self).entries(),
            final(self).bucket_names() == old(self).bucket_names(),
            final(self).spec_config() == old(self).spec_config(),
            final(self).subs() == old(self).subs(),
            final(self).store_confs() == old(self).store_confs(),
            final(self).synced() == old(self).synced(),
            r is Err ==> r->Err_0.kind == GedsErrorKind::InvalidState,
    {
        if self.started {
            return Err(GedsError::new(GedsErrorKind::InvalidState, "already started".to_owned()));
        }
        self.started = true;
        proof {
            assert(self.store_configs@ == old(self).store_configs@);
            assert(self.store_confs() == old(self).store_confs());
        }
        Ok(())
    }

    /// Stop the client: if configured to, flush all cache-resident bytes to
    /// the backing store first, then release the session.  Fails with
    /// `InvalidState` if not started.
    pub fn stop(&mut self) -> (r: Result<(), GedsError>)
        requires
            old(self).wf(),
        ensures
            final(self).wf(),
            r is Ok <==> old(self).is_started(),
            r is Ok ==> !final(self).is_started(),
            r is Ok ==> final(self).entries() == (if old(
                self,
            ).spec_config().force_relocation_when_stopping {
                flush_all(old(self).entries())
            } else {
                old(self).entries()
            }),
            r is Err ==> final(self).same_state(old(self)) && r->Err_0.kind
                == GedsErrorKind::InvalidState,
            final(self).bucket_names() == old(self).bucket_names(),
            final(self).spec_config() == old(self).spec_config(),
            final(self).subs() == old(self).subs(),
            final(self).store_confs() == old(self).store_confs(),
            final(self).synced() == old(self).synced(),
    {
        if !self.started {
            return Err(GedsError::new(GedsErrorKind::InvalidState, "not started".to_owned()));
        }
        self.started = false;
        proof {
            assert(self.entries() == old(self).entries());
            assert(self.bucket_names() == old(self).bucket_names());
            assert(self.subs() == old(self).subs());
            assert(self.store_confs() == old(self).store_confs());
            assert(self.spec_config() == old(self).spec_config());
        }
        if self.config.force_relocation_when_stopping {
            self.flush_all_entries();
        }
        Ok(())
    }

    /// Flush every tracked object's bytes to the backing store: after this
    /// pass every entry is durable and residency is unchanged.
    fn flush_all_entries(&mut self)
        requires
            old(self).wf(),
        ensures
            final(self).wf(),
            final(self).entries() == flush_all(old(self).entries()),
            final(self).same_administration(old(self)),
    {
        let ghost orig = self.entries();
        let mut i: usize = 0;
        while i < self.objects.len()
            invariant
                self.wf(),
                self.entries().len() == orig.len(),
                i <= self.entries().len(),
                forall|j: int| 0 <= j < i ==> self.entries()[j] == flushed_entry(orig[j]),
                forall|j: int| i <= j < orig.len() ==> self.entries()[j] == orig[j],
                self.same_administration(&old(self)),
                self.budget() == old(self).budget(),
            decreases self.objects.len() - i,
        {
            let ghost pre = self.entries();
            let mut o = self.objects.remove(i);
            o.state.durable = true;
            self.objects.insert(i, o);
            proof {
                assert(self.entries() =~= pre.update(i as int, flushed_entry(pre[i as int])));
                lemma_resident_sum_update(pre, i as int, flushed_entry(pre[i as int]));
            }
            i += 1;
        }
        proof {
            assert(self.entries() =~= flush_all(orig));
        }
    }

    /// Push cache-resident bytes to the backing object store.  When `force`
    /// is set, every tracked object is flushed; otherwise a flush happens
    /// only under local pressure, namely when more than half the combined
    /// budget is resident.  Outside the started window this is a no-op.
    pub fn relocate(&mut self, force: bool)
        requires
            old(self).wf(),
        ensures
            final(self).wf(),
            final(self).same_administration(old(self)),
            final(self).entries() == (if old(self).is_started() && (force || 2 * old(
                self,
            ).resident_bytes() > old(self).budget()) {
                flush_all(old(self).entries())
            } else {
                old(self).entries()
            }),
    {
        if !self.started {
            return ;
        }
        let budget = budget_of(&self.config);
        let pressure = self.resident_total > budget / 2;
        if force || pressure {
            proof {
                lemma_resident_sum_nonneg(self.entries());
            }
            self.flush_all_entries();
        } else {
            proof {
                lemma_resident_sum_nonneg(self.entries());
            }
        }
    }

    /// Register a bucket.  Fails with `InvalidState` outside the started
    /// window and with `AlreadyExists` if the bucket is already registered.
    pub fn create_bucket(&mut self, bucket: &str) -> (r: Result<(), GedsError>)
        requires
            old(self).wf(),
        ensures
            final(self).wf(),
            r is Ok <==> (old(self).is_started() && !old(self).has_bucket(bucket@)),
            r is Ok ==> final(self).bucket_names() == old(self).bucket_names().push(bucket@),
            r is Err ==> final(self).same_state(old(self)) && r->Err_0.kind == (if !old(
                self,
            ).is_started() {
                GedsErrorKind::InvalidState
            } else {
                GedsErrorKind::AlreadyExists
            }),
            final(self).entries() == old(self).entries(),
            final(self).is_started() == old(self).is_started(),
            final(self).spec_config() == old(self).spec_config(),
            final(self).subs() == old(self).subs(),
            final(self).store_confs() == old(self).store_confs(),
            final(self).synced() == old(self).synced(),
    {
        if !self.started {
            return Err(GedsError::new(GedsErrorKind::InvalidState, "not started".to_owned()));
        }
        if self.bucket_exists(bucket) {
            return Err(
                GedsError::new(GedsErrorKind::AlreadyExists, "bucket already exists".to_owned()),
            );
        }
        self.buckets.push(bucket.to_owned());
        proof {
            let names = old(self).bucket_names();
            assert(self.bucket_names() =~= names.push(bucket@));
            assert(self.entries() == old(self).entries());
            assert(self.subs() == old(self).subs());
            assert(self.store_confs() == old(self).store_confs());
            assert forall|i: int, j: int|
                0 <= i < j < self.bucket_names().len() implies self.bucket_names()[i]
                != self.bucket_names()[j] by {
                if j < names.len() {
                    assert(self.bucket_names()[i] == names[i]);
                    assert(self.bucket_names()[j] == names[j]);
                } else {
                    assert(self.bucket_names()[j] == bucket@);
                    assert(self.bucket_names()[i] == names[i]);
                    assert(!names.contains(bucket@));
                }
            }
            assert forall|i: int|
                0 <= i < self.entries().len() implies self.bucket_names().contains(
                self.entries()[i].bucket,
            ) by {
                let k = choose|k: int|
                    0 <= k < names.len() && names[k] == self.entries()[i].bucket;
                assert(names.contains(self.entries()[i].bucket));
                assert(self.bucket_names()[k] == names[k]);
                assert(self.bucket_names().contains(self.entries()[i].bucket));
            }
        }
        Ok(())
    }

    /// Is a bucket with this name registered?
    pub fn bucket_exists(&self, bucket: &str) -> (r: bool)
        ensures
            r == self.has_bucket(bucket@),
    {
        let mut i: usize = 0;
        let ghost names = self.bucket_names();
        while i < self.buckets.len()
            invariant
                names == self.bucket_names(),
                names.len() == self.buckets@.len(),
                i <= names.len(),
                forall|j: int| 0 <= j < i ==> names[j] != bucket@,
            decreases self.buckets.len() - i,
        {
            if str_eq(self.buckets[i].as_str(), bucket) {
                proof {
                    assert(self.bucket_names()[i as int] == bucket@);
                }
                return true;
            }
            i += 1;
        }
        false
    }

    /// The index of the tracked object under this bucket and key, if any.
    fn find_object(&self, bucket: &str, key: &str) -> (r: Option<usize>)
        requires
            self.wf(),
        ensures
            match r {
                Some(i) => i < self.entries().len() && self.entries()[i as int].bucket == bucket@
                    && self.entries()[i as int].key == key@ && contains_object(
                    self.entries(),
                    bucket@,
                    key@,
                ) && index_of_object(self.entries(), bucket@, key@) == i as int,
                None => !contains_object(self.entries(), bucket@, key@),
            },
    {
        let mut i: usize = 0;
        let ghost s = self.entries();
        while i < self.objects.len()
            invariant
                self.wf(),
                s == self.entries(),
                s.len() == self.objects@.len(),
                i <= s.len(),
                forall|j: int| 0 <= j < i ==> !(s[j].bucket == bucket@ && s[j].key == key@),
            decreases self.objects.len() - i,
        {
            if str_eq(self.objects[i].bucket.as_str(), bucket) && str_eq(
                self.objects[i].key.as_str(),
                key,
            ) {
                proof {
                    lemma_object_index_unique(s, bucket@, key@, i as int);
                }
                return Some(i);
            }
            i += 1;
        }
        None
    }

    /// Look up the status of the object under this bucket and key: its key,
    /// its current size, and whether it is a directory marker.  A key that is
    /// not tracked itself but has a tracked directory marker reports as a
    /// directory.  Fails with `InvalidState` outside the started window and
    /// with `NotFound` otherwise.
    pub fn status(&self, bucket: &str, key: &str) -> (r: Result<
        crate::status::GEDSFileStatus,
        GedsError,
    >)
        requires
            self.wf(),
        ensures
            r is Ok <==> (self.is_started() && (contains_object(self.entries(), bucket@, key@)
                || contains_object(self.entries(), bucket@, key@ + marker_suffix()))),
            r is Ok ==> r->Ok_0.key@ == key@,
            r is Ok && contains_object(self.entries(), bucket@, key@) ==> r->Ok_0.size
                == object_at(self.entries(), bucket@, key@).data.len() && r->Ok_0.is_directory
                == is_marker_key(key@),
            r is Ok && !contains_object(self.entries(), bucket@, key@) ==> r->Ok_0.size == 0
                && r->Ok_0.is_directory,
            r is Err ==> r->Err_0.kind == (if !self.is_started() {
                GedsErrorKind::InvalidState
            } else {
                GedsErrorKind::NotFound
            }),
    {
        if !self.started {
            return Err(GedsError::new(GedsErrorKind::InvalidState, "not started".to_owned()));
        }
        match self.find_object(bucket, key) {
            Some(i) => {
                let o = &self.objects[i];
                Ok(
                    crate::status::GEDSFileStatus {
                        key: key.to_owned(),
                        size: o.state.data.len(),
                        is_directory: has_suffix(key, marker_suffix_str()),
                    },
                )
            },
            None => {
                let marker = concat_strs(key, marker_suffix_str());
                match self.find_object(bucket, marker.as_str()) {
                    Some(_) => Ok(
                        crate::status::GEDSFileStatus {
                            key: key.to_owned(),
                            size: 0,
                            is_directory: true,
                        },
                    ),
                    None => Err(
                        GedsError::new(GedsErrorKind::NotFound, "object not found".to_owned()),
                    ),
                }
            },
        }
    }

    /// Compute the local cache path for this bucket and key under the
    /// configured storage directory.
    pub fn local_path(&self, bucket: &str, key: &str) -> (r: String)
        ensures
            r@ == self.spec_config().local_storage_path@ + "/"@ + bucket@ + "/"@ + key@,
    {
        let mut r = self.config.local_storage_path.clone();
        r.append("/");
        r.append(bucket);
        r.append("/");
        r.append(key);
        r
    }

    /// Register (or overwrite) the object-store configuration for a bucket;
    /// the set of configurations then needs a new synchronization.  Fails
    /// with `InvalidState` outside the started window.
    pub fn register_object_store_config(
        &mut self,
        bucket: &str,
        endpoint_url: &str,
        access_key: &str,
        secret_key: &str,
    ) -> (r: Result<(), GedsError>)
        requires
            old(self).wf(),
        ensures
            final(self).wf(),
            r is Ok <==> old(self).is_started(),
            r is Err ==> final(self).same_state(old(self)) && r->Err_0.kind
                == GedsErrorKind::InvalidState,
            r is Ok ==> final(self).store_confs() == upsert_conf(
                old(self).store_confs(),
                StoreConfigModel {
                    bucket: bucket@,
                    endpoint_url: endpoint_url@,
                    access_key: access_key@,
                    secret_key: secret_key@,
                },
            ),
            r is Ok ==> !final(self).synced(),
            final(self).entries() == old(self).entries(),
            final(self).bucket_names() == old(self).bucket_names(),
            final(self).is_started() == old(self).is_started(),
            final(self).spec_config() == old(self).spec_config(),
            final(self).subs() == old(self).subs(),
    {
        if !self.started {
            return Err(GedsError::new(GedsErrorKind::InvalidState, "not started".to_owned()));
        }
        let entry = StoreConfig {
            bucket: bucket.to_owned(),
            endpoint_url: endpoint_url.to_owned(),
            access_key: access_key.to_owned(),
            secret_key: secret_key.to_owned(),
        };
        let ghost confs = self.store_confs();
        let ghost m = StoreConfigModel {
            bucket: bucket@,
            endpoint_url: endpoint_url@,
            access_key: access_key@,
            secret_key: secret_key@,
        };
        let mut found: Option<usize> = None;
        let mut i: usize = 0;
        while i < self.store_configs.len() && found.is_none()
            invariant
                confs == self.store_confs(),
                confs.len() == self.store_configs@.len(),
                i <= confs.len(),
                match found {
                    Some(k) => k < confs.len() && confs[k as int].bucket == bucket@,
                    None => forall|j: int| 0 <= j < i ==> confs[j].bucket != bucket@,
                },
            decreases self.store_configs.len() - i, (if found.is_none() {
                1int
            } else {
                0int
            }),
        {
            if str_eq(self.store_configs[i].bucket.as_str(), bucket) {
                proof {
                    assert(confs[i as int].bucket == bucket@);
                }
                found = Some(i);
            } else {
                i += 1;
            }
        }
        match found {
            Some(k) => {
                self.store_configs.remove(k);
                self.store_configs.insert(k, entry);
                self.configs_synced = false;
                proof {
                    assert(self.store_confs() =~= confs.update(k as int, m));
                    assert(self.entries() == old(self).entries());
                    assert(self.bucket_names() == old(self).bucket_names());
                    assert(self.subs() == old(self).subs());
                    assert forall|j: int|
                        0 <= j < confs.len() && confs[j].bucket == bucket@ implies j
                        == k as int by {
                        if j < k {
                            assert(!(confs[j].bucket == confs[k as int].bucket));
                        } else if (k as int) < j {
                            assert(!(confs[k as int].bucket == confs[j].bucket));
                        }
                    }
                    assert(has_conf_for(confs, m.bucket));
                    assert(conf_index_for(confs, m.bucket) == k as int);
                    assert(self.store_confs() == upsert_conf(confs, m));
                    assert forall|a: int, b: int|
                        0 <= a < b < self.store_confs().len() implies self.store_confs()[a].bucket
                        != self.store_confs()[b].bucket by {
                        if a != k && b != k {
                            assert(self.store_confs()[a] == confs[a]);
                            assert(self.store_confs()[b] == confs[b]);
                        } else if a == k {
                            assert(self.store_confs()[b] == confs[b]);
                            if confs[b].bucket == bucket@ {
                                assert(b == k as int);
                            }
                        } else {
                            assert(self.store_confs()[a] == confs[a]);
                            if confs[a].bucket == bucket@ {
                                assert(a == k as int);
                            }
                        }
                    }
                }
                Ok(())
            },
            None => {
                self.store_configs.push(entry);
                self.configs_synced = false;
                proof {
                    assert(self.store_confs() =~= confs.push(m));
                    assert(!has_conf_for(confs, m.bucket));
                    assert(self.store_confs() == upsert_conf(confs, m));
                    assert(self.entries() == old(self).entries());
                    assert(self.bucket_names() == old(self).bucket_names());
                    assert(self.subs() == old(self).subs());
                    assert forall|a: int, b: int|
                        0 <= a < b < self.store_confs().len() implies self.store_confs()[a].bucket
                        != self.store_confs()[b].bucket by {
                        if b < confs.len() {
                            assert(self.store_confs()[a] == confs[a]);
                            assert(self.store_confs()[b] == confs[b]);
                        } else {
                            assert(self.store_confs()[b] == m);
                            assert(self.store_confs()[a] == confs[a]);
                        }
                    }
                }
                Ok(())
            },
        }
    }

    /// Synchronize the registered object-store configurations across the
    /// cluster.  Fails with `InvalidState` outside the started window.
    pub fn sync_object_store_configs(&mut self) -> (r: Result<(), GedsError>)
        requires
            old(self).wf(),
        ensures
            final(self).wf(),
            r is Ok <==> old(self).is_started(),
            r is Ok ==> final(self).synced(),
            r is Err ==> final(self).same_state(old(self)) && r->Err_0.kind
                == GedsErrorKind::InvalidState,
            final(self).entries() == old(self).entries(),
            final(self).bucket_names() == old(self).bucket_names(),
            final(self).is_started() == old(self).is_started(),
            final(self).spec_config() == old(self).spec_config(),
            final(self).subs() == old(self).subs(),
            final(self).store_confs() == old(self).store_confs(),
    {
        if !self.started {
            return Err(GedsError::new(GedsErrorKind::InvalidState, "not started".to_owned()));
        }
        self.configs_synced = true;
        proof {
            assert(self.entries() == old(self).entries());
            assert(self.bucket_names() == old(self).bucket_names());
            assert(self.subs() == old(self).subs());
            assert(self.store_confs() == old(self).store_confs());
        }
        Ok(())
    }

    /// Register interest in change notifications for a bucket or key, at the
    /// granularity encoded by `subscription_type` (0 none, 1 bucket, 2
    /// object, 3 prefix).  Fails with `InvalidState` outside the started
    /// window and with `OutOfRange` for a code outside the enumeration.
    pub fn subscribe(&mut self, bucket: &str, key: &str, subscription_type: &i32) -> (r: Result<
        (),
        GedsError,
    >)
        requires
            old(self).wf(),
        ensures
            final(self).wf(),
            r is Ok <==> (old(self).is_started() && subscription_type_of(
                *subscription_type as int,
            ) is Some),
            r is Ok ==> final(self).subs() == old(self).subs().push(
                SubscriptionModel {
                    bucket: bucket@,
                    key: key@,
                    kind: subscription_type_of(*subscription_type as int)->Some_0,
                },
            ),
            r is Err ==> final(self).same_state(old(self)) && r->Err_0.kind == (if !old(
                self,
            ).is_started() {
                GedsErrorKind::InvalidState
            } else {
                GedsErrorKind::OutOfRange
            }),
            final(self).entries() == old(self).entries(),
            final(self).bucket_names() == old(self).bucket_names(),
            final(self).is_started() == old(self).is_started(),
            final(self).spec_config() == old(self).spec_config(),
            final(self).store_confs() == old(self).store_confs(),
            final(self).synced() == old(self).synced(),
    {
        if !self.started {
            return Err(GedsError::new(GedsErrorKind::InvalidState, "not started".to_owned()));
        }
        let code = *subscription_type;
        let kind = if code == 0 {
            SubscriptionType::NoSubscription
        } else if code == 1 {
            SubscriptionType::Bucket
        } else if code == 2 {
            SubscriptionType::Object
        } else if code == 3 {
            SubscriptionType::Prefix
        } else {
            return Err(
                GedsError::new(GedsErrorKind::OutOfRange, "unknown subscription type".to_owned()),
            );
        };
        let ghost pre = self.subs();
        self.subscriptions.push(Subscription { bucket: bucket.to_owned(), key: key.to_owned(), kind });
        proof {
            assert(self.subs() =~= pre.push(
                SubscriptionModel { bucket: bucket@, key: key@, kind },
            ));
            assert(self.entries() == old(self).entries());
            assert(self.bucket_names() == old(self).bucket_names());
            assert(self.store_confs() == old(self).store_confs());
        }
        Ok(())
    }
}

/// The entry after writing `b` at `pos`: the bytes are spliced in, and the
/// staged range is cache-resident and dirty again.
pub open spec fn written_entry(e: EntryModel, pos: int, b: Seq<u8>) -> EntryModel {
    EntryModel {
        bucket: e.bucket,
        key: e.key,
        obj: ObjModel {
            data: splice_bytes(e.obj.data, pos, b),
            metadata: e.obj.metadata,
            sealed: e.obj.sealed,
            resident: true,
            durable: false,
        },
    }
}

/// The entry after truncating (or growing) to `n` bytes.
pub open spec fn truncated_entry(e: EntryModel, n: int) -> EntryModel {
    EntryModel {
        bucket: e.bucket,
        key: e.key,
        obj: ObjModel {
            data: resize_bytes(e.obj.data, n),
            metadata: e.obj.metadata,
            sealed: e.obj.sealed,
            resident: true,
            durable: false,
        },
    }
}

/// The entry after sealing.
pub open spec fn sealed_entry(e: EntryModel) -> EntryModel {
    EntryModel {
        bucket: e.bucket,
        key: e.key,
        obj: ObjModel {
            data: e.obj.data,
            metadata: e.obj.metadata,
            sealed: true,
            resident: e.obj.resident,
            durable: e.obj.durable,
        },
    }
}

/// The entry after replacing the metadata and optionally sealing.
pub open spec fn metadata_entry(e: EntryModel, m: Seq<char>, seal: bool) -> EntryModel {
    EntryModel {
        bucket: e.bucket,
        key: e.key,
        obj: ObjModel {
            data: e.obj.data,
            metadata: m,
            sealed: seal,
            resident: e.obj.resident,
            durable: e.obj.durable,
        },
    }
}

/// Round trip: after writing `b` at `pos`, a read of the same range returns
/// exactly `b`, whatever the object held before.
pub proof fn lemma_write_then_read(e: EntryModel, pos: int, b: Seq<u8>)
    requires
        0 <= pos,
    ensures
        read_len(written_entry(e, pos, b).obj.data, pos, b.len() as int) == b.len(),
        read_window(written_entry(e, pos, b).obj.data, pos, b.len() as int) == b,
{
    crate::bytes::lemma_write_read_round_trip(e.obj.data, pos, b);
}

/// Zero fill: a byte position inside the object that only came into range by
/// growth reads as zero, not as stale data.
pub proof fn lemma_grown_range_reads_zero(e: EntryModel, n: int, i: int)
    requires
        e.obj.data.len() <= i < n,
    ensures
        truncated_entry(e, n).obj.data[i] == 0u8,
{
    crate::bytes::lemma_resize_zero_fill(e.obj.data, n, i);
}

/// Truncate discards: every byte a read returns after truncating to `n` is
/// an original byte from below `n` or zero; bytes beyond the truncation
/// point are never resurrected.
pub proof fn lemma_truncated_read(e: EntryModel, n: int, pos: int, len: int)
    requires
        0 <= pos <= n,
        0 <= len,
    ensures
        truncated_entry(e, n).obj.data.len() == n,
        forall|j: int|
            0 <= j < read_window(truncated_entry(e, n).obj.data, pos, len).len() ==> read_window(
                truncated_entry(e, n).obj.data,
                pos,
                len,
            )[j] == (if pos + j < e.obj.data.len() && pos + j < n {
                e.obj.data[pos + j]
            } else {
                0u8
            }),
{
    crate::bytes::lemma_truncate_then_read(e.obj.data, n, pos, len);
}

/// The object under this bucket and key exists and accepts mutation: the
/// client is started and the object is tracked and not sealed.
pub open spec fn can_mutate(pre: &GEDS, b: Seq<char>, k: Seq<char>) -> bool {
    pre.is_started() && contains_object(pre.entries(), b, k) && !object_at(
        pre.entries(),
        b,
        k,
    ).sealed
}

/// Why a mutation gate failed: not started, object missing, or sealed.
pub open spec fn mutate_gate_kind(pre: &GEDS, b: Seq<char>, k: Seq<char>) -> GedsErrorKind {
    if !pre.is_started() {
        GedsErrorKind::InvalidState
    } else if !contains_object(pre.entries(), b, k) {
        GedsErrorKind::NotFound
    } else {
        GedsErrorKind::InvalidState
    }
}

/// The new content length of entry `i` fits the budget without evicting
/// anything.
pub open spec fn content_fits_in_place(
    s: Seq<EntryModel>,
    i: int,
    new_len: int,
    budget: int,
) -> bool {
    resident_sum(s) - resident_weight(s[i]) + new_len <= budget
}

/// The new content length of entry `i` fits the budget after evicting every
/// other durable resident entry.
pub open spec fn content_fits(s: Seq<EntryModel>, i: int, new_len: int, budget: int) -> bool {
    resident_sum(evict_others(s, i)) - resident_weight(s[i]) + new_len <= budget
}

impl GEDS {
    /// Create the object at `bucket`/`key` and return a handle to it.  The
    /// fresh object is empty, writable and cache-resident.  An existing
    /// object is replaced only when `overwrite` is set; otherwise the call
    /// fails with `AlreadyExists`.  Fails with `InvalidState` outside the
    /// started window and with `NotFound` for an unregistered bucket.
    pub fn create(&mut self, bucket: &str, key: &str, overwrite: bool) -> (r: Result<
        GEDSFile,
        GedsError,
    >)
        requires
            old(self).wf(),
        ensures
            final(self).wf(),
            final(self).same_administration(old(self)),
            r is Ok <==> (old(self).is_started() && old(self).has_bucket(bucket@) && (overwrite
                || !contains_object(old(self).entries(), bucket@, key@))),
            r is Ok ==> r->Ok_0.spec_bucket() == bucket@ && r->Ok_0.spec_key() == key@,
            r is Ok ==> final(self).entries() == (if contains_object(
                old(self).entries(),
                bucket@,
                key@,
            ) {
                old(self).entries().update(
                    index_of_object(old(self).entries(), bucket@, key@),
                    (EntryModel { bucket: bucket@, key: key@, obj: ObjModel::fresh() }),
                )
            } else {
                old(self).entries().push(
                    (EntryModel { bucket: bucket@, key: key@, obj: ObjModel::fresh() }),
                )
            }),
            r is Err ==> final(self).same_state(old(self)) && r->Err_0.kind == (if !old(
                self,
            ).is_started() {
                GedsErrorKind::InvalidState
            } else if !old(self).has_bucket(bucket@) {
                GedsErrorKind::NotFound
            } else {
                GedsErrorKind::AlreadyExists
            }),
    {
        if !self.started {
            return Err(GedsError::new(GedsErrorKind::InvalidState, "not started".to_owned()));
        }
        if !self.bucket_exists(bucket) {
            return Err(GedsError::new(GedsErrorKind::NotFound, "no such bucket".to_owned()));
        }
        let fresh = ObjectState {
            data: Vec::new(),
            metadata: String::new(),
            sealed: false,
            resident: true,
            durable: false,
        };
        proof {
            assert(fresh.model() =~= ObjModel::fresh());
        }
        let entry = StoredObject { bucket: bucket.to_owned(), key: key.to_owned(), state: fresh };
        let ghost s = self.entries();
        match self.find_object(bucket, key) {
            Some(i) => {
                if !overwrite {
                    return Err(
                        GedsError::new(
                            GedsErrorKind::AlreadyExists,
                            "object already exists".to_owned(),
                        ),
                    );
                }
                let prior = self.objects.remove(i);
                let w = if prior.state.resident {
                    prior.state.data.len()
                } else {
                    0
                };
                proof {
                    lemma_resident_weight_le_sum(s, i as int);
                    lemma_resident_sum_nonneg(s.remove(i as int));
                    lemma_resident_sum_remove(s, i as int);
                    assert(w as int == resident_weight(s[i as int]));
                }
                self.resident_total = self.resident_total - w;
                self.objects.insert(i, entry);
                proof {
                    let e = EntryModel { bucket: bucket@, key: key@, obj: ObjModel::fresh() };
                    assert(self.entries() =~= s.update(i as int, e));
                    lemma_resident_sum_update(s, i as int, e);
                    lemma_unique_update(s, i as int, e);
                    assert(self.bucket_names() == old(self).bucket_names());
                    assert(self.subs() == old(self).subs());
                    assert(self.store_confs() == old(self).store_confs());
                    lemma_resident_sum_nonneg(self.entries());
                    assert forall|t: int|
                        0 <= t < self.entries().len() implies self.bucket_names().contains(
                        self.entries()[t].bucket,
                    ) by {
                        if t != i {
                            assert(self.entries()[t] == s[t]);
                        }
                    }
                }
                Ok(GEDSFile { bucket: bucket.to_owned(), key: key.to_owned() })
            },
            None => {
                self.objects.push(entry);
                proof {
                    let e = EntryModel { bucket: bucket@, key: key@, obj: ObjModel::fresh() };
                    assert(self.entries() =~= s.push(e));
                    lemma_resident_sum_push(s, e);
                    lemma_unique_push(s, e);
                    assert(self.bucket_names() == old(self).bucket_names());
                    assert(self.subs() == old(self).subs());
                    assert(self.store_confs() == old(self).store_confs());
                    assert forall|t: int|
                        0 <= t < self.entries().len() implies self.bucket_names().contains(
                        self.entries()[t].bucket,
                    ) by {
                        if t < s.len() {
                            assert(self.entries()[t] == s[t]);
                        } else {
                            assert(self.entries()[t] == e);
                        }
                    }
                }
                Ok(GEDSFile { bucket: bucket.to_owned(), key: key.to_owned() })
            },
        }
    }

    /// Open the existing object at `bucket`/`key` and return a handle to it.
    /// Fails with `InvalidState` outside the started window and with
    /// `NotFound` for an untracked object.
    pub fn open(&self, bucket: &str, key: &str) -> (r: Result<GEDSFile, GedsError>)
        requires
            self.wf(),
        ensures
            r is Ok <==> (self.is_started() && contains_object(self.entries(), bucket@, key@)),
            r is Ok ==> r->Ok_0.spec_bucket() == bucket@ && r->Ok_0.spec_key() == key@,
            r is Err ==> r->Err_0.kind == (if !self.is_started() {
                GedsErrorKind::InvalidState
            } else {
                GedsErrorKind::NotFound
            }),
    {
        if !self.started {
            return Err(GedsError::new(GedsErrorKind::InvalidState, "not started".to_owned()));
        }
        match self.find_object(bucket, key) {
            Some(_) => Ok(GEDSFile { bucket: bucket.to_owned(), key: key.to_owned() }),
            None => Err(GedsError::new(GedsErrorKind::NotFound, "object not found".to_owned())),
        }
    }

    /// Delete the object at `bucket`/`key`, releasing any local residency.
    /// Fails with `InvalidState` outside the started window and with
    /// `NotFound` for an untracked object.
    pub fn delete_object(&mut self, bucket: &str, key: &str) -> (r: Result<(), GedsError>)
        requires
            old(self).wf(),
        ensures
            final(self).wf(),
            final(self).same_administration(old(self)),
            r is Ok <==> (old(self).is_started() && contains_object(
                old(self).entries(),
                bucket@,
                key@,
            )),
            r is Ok ==> final(self).entries() == old(self).entries().remove(
                index_of_object(old(self).entries(), bucket@, key@),
            ),
            r is Err ==> final(self).same_state(old(self)) && r->Err_0.kind == (if !old(
                self,
            ).is_started() {
                GedsErrorKind::InvalidState
            } else {
                GedsErrorKind::NotFound
            }),
    {
        if !self.started {
            return Err(GedsError::new(GedsErrorKind::InvalidState, "not started".to_owned()));
        }
        let ghost s = self.entries();
        match self.find_object(bucket, key) {
            Some(i) => {
                let prior = self.objects.remove(i);
                let w = if prior.state.resident {
                    prior.state.data.len()
                } else {
                    0
                };
                proof {
                    lemma_resident_weight_le_sum(s, i as int);
                    lemma_resident_sum_remove(s, i as int);
                    lemma_resident_sum_nonneg(s.remove(i as int));
                    assert(w as int == resident_weight(s[i as int]));
                }
                self.resident_total = self.resident_total - w;
                proof {
                    assert(self.entries() =~= s.remove(i as int));
                    lemma_unique_remove(s, i as int);
                    assert(self.bucket_names() == old(self).bucket_names());
                    assert(self.subs() == old(self).subs());
                    assert(self.store_confs() == old(self).store_confs());
                    assert forall|t: int|
                        0 <= t < self.entries().len() implies self.bucket_names().contains(
                        self.entries()[t].bucket,
                    ) by {
                        let t0 = if t < i {
                            t
                        } else {
                            t + 1
                        };
                        assert(self.entries()[t] == s[t0]);
                    }
                }
                Ok(())
            },
            None => Err(GedsError::new(GedsErrorKind::NotFound, "object not found".to_owned())),
        }
    }

    /// Drop the local residency of every durable resident entry except the
    /// one at `keep`.  Dirty bytes (not yet durable) are never evicted.
    fn evict_other_entries(&mut self, keep: usize)
        requires
            old(self).wf(),
            keep < old(self).entries().len(),
        ensures
            final(self).wf(),
            final(self).same_administration(old(self)),
            final(self).entries() == evict_others(old(self).entries(), keep as int),
    {
        let ghost orig = self.entries();
        let mut j: usize = 0;
        while j < self.objects.len()
            invariant
                self.wf(),
                self.same_administration(&old(self)),
                orig == old(self).entries(),
                keep < orig.len(),
                self.entries().len() == orig.len(),
                j <= orig.len(),
                forall|t: int|
                    0 <= t < orig.len() ==> self.entries()[t] == (if t < j && t != keep {
                        evicted_entry(orig[t])
                    } else {
                        orig[t]
                    }),
                self.budget() == old(self).budget(),
            decreases self.objects.len() - j,
        {
            let ghost pre = self.entries();
            if j != keep && self.objects[j].state.resident && self.objects[j].state.durable {
                let mut o = self.objects.remove(j);
                let w = o.state.data.len();
                proof {
                    assert(pre[j as int] == orig[j as int]);
                    lemma_resident_weight_le_sum(pre, j as int);
                    assert(w as int == resident_weight(pre[j as int]));
                }
                o.state.resident = false;
                self.objects.insert(j, o);
                self.resident_total = self.resident_total - w;
                proof {
                    assert(self.entries() =~= pre.update(j as int, evicted_entry(orig[j as int])));
                    lemma_resident_sum_update(pre, j as int, evicted_entry(orig[j as int]));
                    lemma_unique_update(pre, j as int, evicted_entry(orig[j as int]));
                    lemma_resident_sum_nonneg(self.entries());
                    assert(self.bucket_names() == old(self).bucket_names());
                    assert(self.subs() == old(self).subs());
                    assert(self.store_confs() == old(self).store_confs());
                    assert forall|t: int|
                        0 <= t < self.entries().len() implies self.bucket_names().contains(
                        self.entries()[t].bucket,
                    ) by {
                        if t != j {
                            assert(self.entries()[t] == pre[t]);
                        }
                    }
                    lemma_resident_sum_pointwise_le(self.entries(), pre);
                }
            } else {
                proof {
                    assert(self.entries()[j as int] == (if (j as int) != keep {
                        evicted_entry(orig[j as int])
                    } else {
                        orig[j as int]
                    }) || self.entries()[j as int] == orig[j as int]);
                    if j != keep {
                        assert(evicted_entry(orig[j as int]) == orig[j as int]);
                    }
                }
            }
            j += 1;
        }
        proof {
            assert(self.entries() =~= evict_others(orig, keep as int));
        }
    }

    /// Make room for entry `keep` to hold `new_len` bytes: if the budget
    /// would be exceeded, evict every other durable resident entry first.
    /// Returns whether the new length fits the budget afterwards.
    fn reserve_for(&mut self, keep: usize, new_len: usize) -> (ok: bool)
        requires
            old(self).wf(),
            keep < old(self).entries().len(),
        ensures
            final(self).wf(),
            final(self).same_administration(old(self)),
            ok == content_fits(
                old(self).entries(),
                keep as int,
                new_len as int,
                old(self).budget(),
            ),
            final(self).entries() == (if content_fits_in_place(
                old(self).entries(),
                keep as int,
                new_len as int,
                old(self).budget(),
            ) {
                old(self).entries()
            } else {
                evict_others(old(self).entries(), keep as int)
            }),
            ok ==> resident_sum(final(self).entries()) - resident_weight(
                final(self).entries()[keep as int],
            ) + new_len <= final(self).budget(),
            final(self).entries()[keep as int] == old(self).entries()[keep as int],
            !ok ==> !content_fits_in_place(
                old(self).entries(),
                keep as int,
                new_len as int,
                old(self).budget(),
            ),
    {
        let ghost s = self.entries();
        let w = if self.objects[keep].state.resident {
            self.objects[keep].state.data.len()
        } else {
            0
        };
        proof {
            lemma_resident_weight_le_sum(s, keep as int);
            lemma_resident_sum_nonneg(s);
            assert(w as int == resident_weight(s[keep as int]));
        }
        let budget = budget_of(&self.config);
        let base = self.resident_total - w;
        let fits_now = match base.checked_add(new_len) {
            Some(t) => t <= budget,
            None => false,
        };
        if fits_now {
            proof {
                assert(content_fits_in_place(s, keep as int, new_len as int, self.budget()));
                let ev = evict_others(s, keep as int);
                assert(ev.len() == s.len());
                assert forall|t: int|
                    0 <= t < s.len() implies resident_weight(ev[t]) <= resident_weight(s[t]) by {}
                lemma_resident_sum_pointwise_le(ev, s);
                assert(ev[keep as int] == s[keep as int]);
                assert(content_fits(s, keep as int, new_len as int, self.budget()));
            }
            return true;
        }
        proof {
            assert(!content_fits_in_place(s, keep as int, new_len as int, self.budget()));
        }
        self.evict_other_entries(keep);
        let w2 = if self.objects[keep].state.resident {
            self.objects[keep].state.data.len()
        } else {
            0
        };
        proof {
            assert(self.entries()[keep as int] == s[keep as int]);
            lemma_resident_weight_le_sum(self.entries(), keep as int);
            lemma_resident_sum_nonneg(self.entries());
            assert(w2 as int == resident_weight(self.entries()[keep as int]));
        }
        let base2 = self.resident_total - w2;
        match base2.checked_add(new_len) {
            Some(t) => t <= budget,
            None => false,
        }
    }
}

/// The entry lies in bucket `b` and its key starts with `p`.
pub open spec fn prefix_match(e: EntryModel, b: Seq<char>, p: Seq<char>) -> bool {
    e.bucket == b && is_prefix_of(p, e.key)
}

/// The status snapshot an entry lists as: key, size, directory flag.
pub open spec fn status_model(e: EntryModel) -> (Seq<char>, int, bool) {
    (e.key, e.obj.data.len() as int, is_marker_key(e.key))
}

/// The status snapshots of all entries in bucket `b` whose key starts with
/// `p`, in tracking order, directory markers included.
pub open spec fn listed(s: Seq<EntryModel>, b: Seq<char>, p: Seq<char>) -> Seq<
    (Seq<char>, int, bool),
>
    decreases s.len(),
{
    if s.len() == 0 {
        Seq::empty()
    } else if prefix_match(s.last(), b, p) {
        listed(s.drop_last(), b, p).push(status_model(s.last()))
    } else {
        listed(s.drop_last(), b, p)
    }
}

/// The entries that survive deleting every key with prefix `p` in bucket
/// `b`, in tracking order.
pub open spec fn without_prefix(s: Seq<EntryModel>, b: Seq<char>, p: Seq<char>) -> Seq<EntryModel>
    decreases s.len(),
{
    if s.len() == 0 {
        Seq::empty()
    } else if prefix_match(s.last(), b, p) {
        without_prefix(s.drop_last(), b, p)
    } else {
        without_prefix(s.drop_last(), b, p).push(s.last())
    }
}

/// Unfolding `listed` over an appended entry.
proof fn lemma_listed_push(s: Seq<EntryModel>, b: Seq<char>, p: Seq<char>, e: EntryModel)
    ensures
        listed(s.push(e), b, p) == (if prefix_match(e, b, p) {
            listed(s, b, p).push(status_model(e))
        } else {
            listed(s, b, p)
        }),
{
    assert(s.push(e).drop_last() =~= s);
    assert(s.push(e).last() == e);
}

/// Unfolding `without_prefix` over an appended entry.
proof fn lemma_without_prefix_push(s: Seq<EntryModel>, b: Seq<char>, p: Seq<char>, e: EntryModel)
    ensures
        without_prefix(s.push(e), b, p) == (if prefix_match(e, b, p) {
            without_prefix(s, b, p)
        } else {
            without_prefix(s, b, p).push(e)
        }),
{
    assert(s.push(e).drop_last() =~= s);
    assert(s.push(e).last() == e);
}

impl GEDS {
    /// List every object in `bucket` whose key starts with `prefix`,
    /// directory markers included, in tracking order.  Fails with
    /// `InvalidState` outside the started window and with `NotFound` for an
    /// unregistered bucket.
    pub fn list(&self, bucket: &str, prefix: &str) -> (r: Result<
        Vec<crate::status::GEDSFileStatus>,
        GedsError,
    >)
        requires
            self.wf(),
        ensures
            r is Ok <==> (self.is_started() && self.has_bucket(bucket@)),
            r is Ok ==> crate::status::status_models(r->Ok_0@) == listed(
                self.entries(),
                bucket@,
                prefix@,
            ),
            r is Err ==> r->Err_0.kind == (if !self.is_started() {
                GedsErrorKind::InvalidState
            } else {
                GedsErrorKind::NotFound
            }),
    {
        if !self.started {
            return Err(GedsError::new(GedsErrorKind::InvalidState, "not started".to_owned()));
        }
        if !self.bucket_exists(bucket) {
            return Err(GedsError::new(GedsErrorKind::NotFound, "no such bucket".to_owned()));
        }
        let ghost s = self.entries();
        let mut out: Vec<crate::status::GEDSFileStatus> = Vec::new();
        proof {
            assert(crate::status::status_models(out@) =~= listed(s.take(0), bucket@, prefix@));
        }
        let mut i: usize = 0;
        while i < self.objects.len()
            invariant
                self.wf(),
                s == self.entries(),
                s.len() == self.objects@.len(),
                i <= s.len(),
                crate::status::status_models(out@) == listed(s.take(i as int), bucket@, prefix@),
            decreases self.objects.len() - i,
        {
            let ghost pre_models = crate::status::status_models(out@);
            if str_eq(self.objects[i].bucket.as_str(), bucket) && has_prefix(
                self.objects[i].key.as_str(),
                prefix,
            ) {
                let st = crate::status::GEDSFileStatus {
                    key: self.objects[i].key.clone(),
                    size: self.objects[i].state.data.len(),
                    is_directory: has_suffix(self.objects[i].key.as_str(), marker_suffix_str()),
                };
                out.push(st);
                proof {
                    assert(crate::status::status_models(out@) =~= pre_models.push(
                        status_model(s[i as int]),
                    ));
                }
            }
            proof {
                assert(s.take(i + 1) =~= s.take(i as int).push(s[i as int]));
                lemma_listed_push(s.take(i as int), bucket@, prefix@, s[i as int]);
            }
            i += 1;
        }
        proof {
            assert(s.take(s.len() as int) =~= s);
        }
        Ok(out)
    }

    /// Delete every object in `bucket` whose key starts with `prefix`; a
    /// prefix matching nothing deletes nothing and succeeds.  Fails with
    /// `InvalidState` outside the started window and with `NotFound` for an
    /// unregistered bucket.
    pub fn delete_object_prefix(&mut self, bucket: &str, prefix: &str) -> (r: Result<
        (),
        GedsError,
    >)
        requires
            old(self).wf(),
        ensures
            final(self).wf(),
            final(self).same_administration(old(self)),
            r is Ok <==> (old(self).is_started() && old(self).has_bucket(bucket@)),
            r is Ok ==> final(self).entries() == without_prefix(
                old(self).entries(),
                bucket@,
                prefix@,
            ),
            r is Err ==> final(self).same_state(old(self)) && r->Err_0.kind == (if !old(
                self,
            ).is_started() {
                GedsErrorKind::InvalidState
            } else {
                GedsErrorKind::NotFound
            }),
    {
        if !self.started {
            return Err(GedsError::new(GedsErrorKind::InvalidState, "not started".to_owned()));
        }
        if !self.bucket_exists(bucket) {
            return Err(GedsError::new(GedsErrorKind::NotFound, "no such bucket".to_owned()));
        }
        let ghost s = self.entries();
        let mut i: usize = 0;
        let ghost c: int = 0;
        proof {
            assert(self.entries() =~= without_prefix(s.take(0), bucket@, prefix@) + s.skip(0));
        }
        while i < self.objects.len()
            invariant
                self.wf(),
                self.same_administration(&old(self)),
                self.budget() == old(self).budget(),
                s == old(self).entries(),
                0 <= c <= s.len(),
                self.entries() == without_prefix(s.take(c), bucket@, prefix@) + s.skip(c),
                i as int == without_prefix(s.take(c), bucket@, prefix@).len(),
                i <= self.objects@.len(),
                self.objects@.len() - i == s.len() - c,
            decreases self.objects.len() - i,
        {
            let ghost pre = self.entries();
            let ghost kept = without_prefix(s.take(c), bucket@, prefix@);
            proof {
                assert(pre[i as int] == s.skip(c)[0]);
                assert(s.skip(c)[0] == s[c]);
                assert(s.take(c + 1) =~= s.take(c).push(s[c]));
                lemma_without_prefix_push(s.take(c), bucket@, prefix@, s[c]);
            }
            if str_eq(self.objects[i].bucket.as_str(), bucket) && has_prefix(
                self.objects[i].key.as_str(),
                prefix,
            ) {
                let prior = self.objects.remove(i);
                let w = if prior.state.resident {
                    prior.state.data.len()
                } else {
                    0
                };
                proof {
                    lemma_resident_weight_le_sum(pre, i as int);
                    lemma_resident_sum_remove(pre, i as int);
                    lemma_resident_sum_nonneg(pre.remove(i as int));
                    assert(w as int == resident_weight(pre[i as int]));
                }
                self.resident_total = self.resident_total - w;
                proof {
                    assert(self.entries() =~= pre.remove(i as int));
                    lemma_unique_remove(pre, i as int);
                    assert(self.entries() =~= kept + s.skip(c + 1));
                    assert forall|t: int|
                        0 <= t < self.entries().len() implies self.bucket_names().contains(
                        self.entries()[t].bucket,
                    ) by {
                        let t0 = if t < i {
                            t
                        } else {
                            t + 1
                        };
                        assert(self.entries()[t] == pre[t0]);
                    }
                }
            } else {
                proof {
                    assert(self.entries() =~= (kept.push(s[c])) + s.skip(c + 1));
                }
                i += 1;
            }
            proof {
                c = c + 1;
            }
        }
        proof {
            assert(s.take(s.len() as int) =~= s);
            assert(s.skip(s.len() as int) =~= Seq::<EntryModel>::empty());
            assert(self.entries() =~= without_prefix(s, bucket@, prefix@));
        }
        Ok(())
    }

    /// Move the object at `src_bucket`/`src_key` to `dest_bucket`/
    /// `dest_key`, keeping its bytes, metadata and seal state; the source
    /// identity then reports `NotFound`.  Renaming an object onto itself
    /// succeeds and changes nothing; any other occupied destination fails
    /// with `AlreadyExists`.  Fails with `InvalidState` outside the started
    /// window and with `NotFound` for a missing source or an unregistered
    /// destination bucket.
    pub fn rename(&mut self, src_bucket: &str, src_key: &str, dest_bucket: &str, dest_key: &str)
        -> (r: Result<(), GedsError>)
        requires
            old(self).wf(),
        ensures
            final(self).wf(),
            final(self).same_administration(old(self)),
            ({
                let s = old(self).entries();
                let same = src_bucket@ == dest_bucket@ && src_key@ == dest_key@;
                let i = index_of_object(s, src_bucket@, src_key@);
                &&& (r is Ok <==> (old(self).is_started() && contains_object(
                    s,
                    src_bucket@,
                    src_key@,
                ) && old(self).has_bucket(dest_bucket@) && (same || !contains_object(
                    s,
                    dest_bucket@,
                    dest_key@,
                ))))
                &&& (r is Ok && same ==> final(self).entries() == s)
                &&& (r is Ok && !same ==> final(self).entries() == s.update(
                    i,
                    (EntryModel { bucket: dest_bucket@, key: dest_key@, obj: s[i].obj }),
                ))
                &&& (r is Err ==> final(self).same_state(old(self)) && r->Err_0.kind == (if !old(
                    self,
                ).is_started() {
                    GedsErrorKind::InvalidState
                } else if !contains_object(s, src_bucket@, src_key@) || !old(self).has_bucket(
                    dest_bucket@,
                ) {
                    GedsErrorKind::NotFound
                } else {
                    GedsErrorKind::AlreadyExists
                }))
            }),
    {
        if !self.started {
            return Err(GedsError::new(GedsErrorKind::InvalidState, "not started".to_owned()));
        }
        let ghost s = self.entries();
        let i = match self.find_object(src_bucket, src_key) {
            Some(i) => i,
            None => {
                return Err(
                    GedsError::new(GedsErrorKind::NotFound, "object not found".to_owned()),
                );
            },
        };
        if !self.bucket_exists(dest_bucket) {
            return Err(GedsError::new(GedsErrorKind::NotFound, "no such bucket".to_owned()));
        }
        if str_eq(src_bucket, dest_bucket) && str_eq(src_key, dest_key) {
            return Ok(());
        }
        if let Some(_) = self.find_object(dest_bucket, dest_key) {
            return Err(
                GedsError::new(GedsErrorKind::AlreadyExists, "destination exists".to_owned()),
            );
        }
        let mut o = self.objects.remove(i);
        o.bucket = dest_bucket.to_owned();
        o.key = dest_key.to_owned();
        self.objects.insert(i, o);
        proof {
            let e = EntryModel { bucket: dest_bucket@, key: dest_key@, obj: s[i as int].obj };
            assert(self.entries() =~= s.update(i as int, e));
            lemma_resident_sum_update(s, i as int, e);
            assert(self.bucket_names() == old(self).bucket_names());
            assert(self.subs() == old(self).subs());
            assert(self.store_confs() == old(self).store_confs());
            assert forall|a: int, b: int|
                0 <= a < b < self.entries().len() implies !(self.entries()[a].bucket
                == self.entries()[b].bucket && self.entries()[a].key == self.entries()[b].key) by {
                if a != i && b != i {
                    assert(self.entries()[a] == s[a]);
                    assert(self.entries()[b] == s[b]);
                } else if a == i {
                    assert(self.entries()[b] == s[b]);
                    if s[b].bucket == dest_bucket@ && s[b].key == dest_key@ {
                        lemma_object_index_unique(s, dest_bucket@, dest_key@, b);
                        assert(contains_object(s, dest_bucket@, dest_key@));
                    }
                } else {
                    assert(self.entries()[a] == s[a]);
                    if s[a].bucket == dest_bucket@ && s[a].key == dest_key@ {
                        lemma_object_index_unique(s, dest_bucket@, dest_key@, a);
                        assert(contains_object(s, dest_bucket@, dest_key@));
                    }
                }
            }
            assert forall|t: int|
                0 <= t < self.entries().len() implies self.bucket_names().contains(
                self.entries()[t].bucket,
            ) by {
                if t != i {
                    assert(self.entries()[t] == s[t]);
                }
            }
        }
        Ok(())
    }

    /// Copy the object at `src_bucket`/`src_key` to `dest_bucket`/
    /// `dest_key` with identical bytes, metadata and seal state.  The
    /// source's bytes are flushed to the backing store first and the copy is
    /// made store-side, so the copy is durable and occupies no local cache.
    /// An occupied destination (the source itself included) fails with
    /// `AlreadyExists`; the other failures are as for `rename`.
    pub fn copy(&mut self, src_bucket: &str, src_key: &str, dest_bucket: &str, dest_key: &str)
        -> (r: Result<(), GedsError>)
        requires
            old(self).wf(),
        ensures
            final(self).wf(),
            final(self).same_administration(old(self)),
            ({
                let s = old(self).entries();
                let i = index_of_object(s, src_bucket@, src_key@);
                &&& (r is Ok <==> (old(self).is_started() && contains_object(
                    s,
                    src_bucket@,
                    src_key@,
                ) && old(self).has_bucket(dest_bucket@) && !contains_object(
                    s,
                    dest_bucket@,
                    dest_key@,
                )))
                &&& (r is Ok ==> final(self).entries() == s.update(i, flushed_entry(s[i])).push(
                    copied_to(s[i], dest_bucket@, dest_key@),
                ))
                &&& (r is Err ==> final(self).same_state(old(self)) && r->Err_0.kind == (if !old(
                    self,
                ).is_started() {
                    GedsErrorKind::InvalidState
                } else if !contains_object(s, src_bucket@, src_key@) || !old(self).has_bucket(
                    dest_bucket@,
                ) {
                    GedsErrorKind::NotFound
                } else {
                    GedsErrorKind::AlreadyExists
                }))
            }),
    {
        if !self.started {
            return Err(GedsError::new(GedsErrorKind::InvalidState, "not started".to_owned()));
        }
        let ghost s = self.entries();
        let i = match self.find_object(src_bucket, src_key) {
            Some(i) => i,
            None => {
                return Err(
                    GedsError::new(GedsErrorKind::NotFound, "object not found".to_owned()),
                );
            },
        };
        if !self.bucket_exists(dest_bucket) {
            return Err(GedsError::new(GedsErrorKind::NotFound, "no such bucket".to_owned()));
        }
        if let Some(_) = self.find_object(dest_bucket, dest_key) {
            return Err(
                GedsError::new(GedsErrorKind::AlreadyExists, "destination exists".to_owned()),
            );
        }
        let mut o = self.objects.remove(i);
        o.state.durable = true;
        let copied = StoredObject {
            bucket: dest_bucket.to_owned(),
            key: dest_key.to_owned(),
            state: ObjectState {
                data: clone_bytes(&o.state.data),
                metadata: o.state.metadata.clone(),
                sealed: o.state.sealed,
                resident: false,
                durable: true,
            },
        };
        self.objects.insert(i, o);
        self.objects.push(copied);
        proof {
            let mid = s.update(i as int, flushed_entry(s[i as int]));
            let e = copied_to(s[i as int], dest_bucket@, dest_key@);
            assert(self.entries() =~= mid.push(e));
            lemma_resident_sum_update(s, i as int, flushed_entry(s[i as int]));
            lemma_resident_sum_push(mid, e);
            lemma_unique_update(s, i as int, flushed_entry(s[i as int]));
            assert(!contains_object(s, dest_bucket@, dest_key@));
            assert forall|t: int|
                0 <= t < mid.len() implies !(mid[t].bucket == e.bucket && mid[t].key == e.key) by {
                if mid[t].bucket == dest_bucket@ && mid[t].key == dest_key@ {
                    assert(s[t].bucket == dest_bucket@ && s[t].key == dest_key@);
                    lemma_object_index_unique(s, dest_bucket@, dest_key@, t);
                }
            }
            assert(!contains_object(mid, e.bucket, e.key));
            lemma_unique_push(mid, e);
            assert(self.bucket_names() == old(self).bucket_names());
            assert(self.subs() == old(self).subs());
            assert(self.store_confs() == old(self).store_confs());
            assert forall|t: int|
                0 <= t < self.entries().len() implies self.bucket_names().contains(
                self.entries()[t].bucket,
            ) by {
                if t < s.len() && t != i {
                    assert(self.entries()[t] == s[t]);
                }
            }
        }
        Ok(())
    }
}

/// The key a prefix rename sends `k` to: the destination prefix followed by
/// what comes after the source prefix.
pub open spec fn renamed_key(sp: Seq<char>, dp: Seq<char>, k: Seq<char>) -> Seq<char> {
    dp + k.skip(sp.len() as int)
}

/// The entry after a prefix rename: a matching entry moves to the
/// destination bucket under its renamed key, anything else is untouched.
pub open spec fn renamed_entry(
    e: EntryModel,
    sb: Seq<char>,
    sp: Seq<char>,
    db: Seq<char>,
    dp: Seq<char>,
) -> EntryModel {
    if prefix_match(e, sb, sp) {
        EntryModel { bucket: db, key: renamed_key(sp, dp, e.key), obj: e.obj }
    } else {
        e
    }
}

/// All entries after a prefix rename, in tracking order.
pub open spec fn renamed_entries(
    s: Seq<EntryModel>,
    sb: Seq<char>,
    sp: Seq<char>,
    db: Seq<char>,
    dp: Seq<char>,
) -> Seq<EntryModel> {
    Seq::new(s.len(), |t: int| renamed_entry(s[t], sb, sp, db, dp))
}

/// A prefix rename has a collision: some matching entry's renamed key is
/// already the key of a different entry.
pub open spec fn rename_collision(
    s: Seq<EntryModel>,
    sb: Seq<char>,
    sp: Seq<char>,
    db: Seq<char>,
    dp: Seq<char>,
) -> bool {
    exists|i: int, j: int|
        0 <= i < s.len() && 0 <= j < s.len() && j != i && prefix_match(s[i], sb, sp)
            && s[j].bucket == db && s[j].key == renamed_key(sp, dp, s[i].key)
}

/// Two distinct matching entries are renamed to distinct keys.
proof fn lemma_rename_targets_injective(
    s: Seq<EntryModel>,
    sb: Seq<char>,
    sp: Seq<char>,
    dp: Seq<char>,
    a: int,
    b: int,
)
    requires
        unique_objects(s),
        0 <= a < s.len(),
        0 <= b < s.len(),
        a != b,
        prefix_match(s[a], sb, sp),
        prefix_match(s[b], sb, sp),
    ensures
        renamed_key(sp, dp, s[a].key) != renamed_key(sp, dp, s[b].key),
{
    if a < b {
        assert(!(s[a].bucket == s[b].bucket && s[a].key == s[b].key));
    } else {
        assert(!(s[b].bucket == s[a].bucket && s[b].key == s[a].key));
    }
    assert(s[a].key != s[b].key);
    lemma_split_at_prefix(sp, s[a].key);
    lemma_split_at_prefix(sp, s[b].key);
    if renamed_key(sp, dp, s[a].key) == renamed_key(sp, dp, s[b].key) {
        lemma_append_cancels(dp, s[a].key.skip(sp.len() as int), s[b].key.skip(sp.len() as int));
        assert(s[a].key == sp + s[a].key.skip(sp.len() as int));
        assert(s[b].key == sp + s[b].key.skip(sp.len() as int));
    }
}

/// A collision-free prefix rename keeps (bucket, key) pairs unique.
proof fn lemma_renamed_unique(
    s: Seq<EntryModel>,
    sb: Seq<char>,
    sp: Seq<char>,
    db: Seq<char>,
    dp: Seq<char>,
)
    requires
        unique_objects(s),
        !rename_collision(s, sb, sp, db, dp),
    ensures
        unique_objects(renamed_entries(s, sb, sp, db, dp)),
{
    let r = renamed_entries(s, sb, sp, db, dp);
    assert forall|a: int, b: int|
        0 <= a < b < r.len() implies !(r[a].bucket == r[b].bucket && r[a].key == r[b].key) by {
        if prefix_match(s[a], sb, sp) && prefix_match(s[b], sb, sp) {
            lemma_rename_targets_injective(s, sb, sp, dp, a, b);
        } else if prefix_match(s[a], sb, sp) {
            if s[b].bucket == db && s[b].key == renamed_key(sp, dp, s[a].key) {
                assert(rename_collision(s, sb, sp, db, dp));
            }
        } else if prefix_match(s[b], sb, sp) {
            if s[a].bucket == db && s[a].key == renamed_key(sp, dp, s[b].key) {
                assert(rename_collision(s, sb, sp, db, dp));
            }
        } else {
            assert(!(s[a].bucket == s[b].bucket && s[a].key == s[b].key));
        }
    }
}

/// Prefix consistency: after a collision-free prefix rename, a key that
/// matched the source prefix is no longer listable under its old identity,
/// and is listable under the destination bucket at its renamed key with the
/// identical object (bytes, metadata and seal state).  The one exception is
/// the rename that maps a key onto itself, which moves nothing.
pub proof fn lemma_rename_prefix_consistency(
    s: Seq<EntryModel>,
    sb: Seq<char>,
    sp: Seq<char>,
    db: Seq<char>,
    dp: Seq<char>,
    i: int,
)
    requires
        unique_objects(s),
        !rename_collision(s, sb, sp, db, dp),
        0 <= i < s.len(),
        prefix_match(s[i], sb, sp),
        !(db == sb && renamed_key(sp, dp, s[i].key) == s[i].key),
    ensures
        !contains_object(renamed_entries(s, sb, sp, db, dp), sb, s[i].key),
        contains_object(renamed_entries(s, sb, sp, db, dp), db, renamed_key(sp, dp, s[i].key)),
        object_at(renamed_entries(s, sb, sp, db, dp), db, renamed_key(sp, dp, s[i].key))
            == s[i].obj,
{
    let r = renamed_entries(s, sb, sp, db, dp);
    lemma_renamed_unique(s, sb, sp, db, dp);
    assert(r[i].bucket == db && r[i].key == renamed_key(sp, dp, s[i].key) && r[i].obj == s[i].obj);
    lemma_object_index_unique(r, db, renamed_key(sp, dp, s[i].key), i);
    assert forall|t: int| 0 <= t < r.len() implies !(r[t].bucket == sb && r[t].key == s[i].key) by {
        if prefix_match(s[t], sb, sp) {
            if t == i {
            } else {
                if r[t].bucket == sb && r[t].key == s[i].key {
                    assert(db == sb && s[i].key == renamed_key(sp, dp, s[t].key));
                    assert(rename_collision(s, sb, sp, db, dp));
                }
            }
        } else {
            if r[t].bucket == sb && r[t].key == s[i].key {
                if t < i {
                    assert(!(s[t].bucket == s[i].bucket && s[t].key == s[i].key));
                } else {
                    assert(!(s[i].bucket == s[t].bucket && s[i].key == s[t].key));
                }
            }
        }
    }
}

impl GEDS {
    /// Rename every object in `src_bucket` whose key starts with
    /// `src_prefix`: each moves to `dest_bucket` under `dest_prefix`
    /// followed by the rest of its key, with identical bytes, metadata and
    /// seal state.  The engine validates first and then applies, so the
    /// rename is all-or-nothing: if any renamed key would coincide with a
    /// different existing key it fails with `AlreadyExists` and moves
    /// nothing.  Renaming a prefix onto itself succeeds and changes nothing.
    /// Fails with `InvalidState` outside the started window and with
    /// `NotFound` for an unregistered source or destination bucket.
    pub fn rename_prefix(
        &mut self,
        src_bucket: &str,
        src_prefix: &str,
        dest_bucket: &str,
        dest_prefix: &str,
    ) -> (r: Result<(), GedsError>)
        requires
            old(self).wf(),
        ensures
            final(self).wf(),
            final(self).same_administration(old(self)),
            ({
                let s = old(self).entries();
                let same = src_bucket@ == dest_bucket@ && src_prefix@ == dest_prefix@;
                &&& (r is Ok <==> (old(self).is_started() && old(self).has_bucket(src_bucket@)
                    && old(self).has_bucket(dest_bucket@) && (same || !rename_collision(
                    s,
                    src_bucket@,
                    src_prefix@,
                    dest_bucket@,
                    dest_prefix@,
                ))))
                &&& (r is Ok ==> final(self).entries() == renamed_entries(
                    s,
                    src_bucket@,
                    src_prefix@,
                    dest_bucket@,
                    dest_prefix@,
                ))
                &&& (r is Err ==> final(self).same_state(old(self)) && r->Err_0.kind == (if !old(
                    self,
                ).is_started() {
                    GedsErrorKind::InvalidState
                } else if !old(self).has_bucket(src_bucket@) || !old(self).has_bucket(
                    dest_bucket@,
                ) {
                    GedsErrorKind::NotFound
                } else {
                    GedsErrorKind::AlreadyExists
                }))
            }),
    {
        if !self.started {
            return Err(GedsError::new(GedsErrorKind::InvalidState, "not started".to_owned()));
        }
        if !self.bucket_exists(src_bucket) {
            return Err(GedsError::new(GedsErrorKind::NotFound, "no such bucket".to_owned()));
        }
        if !self.bucket_exists(dest_bucket) {
            return Err(GedsError::new(GedsErrorKind::NotFound, "no such bucket".to_owned()));
        }
        let ghost s = self.entries();
        let ghost sb = src_bucket@;
        let ghost sp = src_prefix@;
        let ghost db = dest_bucket@;
        let ghost dp = dest_prefix@;
        if str_eq(src_bucket, dest_bucket) && str_eq(src_prefix, dest_prefix) {
            proof {
                assert forall|t: int|
                    0 <= t < s.len() implies renamed_entries(s, sb, sp, db, dp)[t] == s[t] by {
                    if prefix_match(s[t], sb, sp) {
                        lemma_split_at_prefix(sp, s[t].key);
                    }
                }
                assert(renamed_entries(s, sb, sp, db, dp) =~= s);
            }
            return Ok(());
        }
        let plen = src_prefix.unicode_len();
        let mut i: usize = 0;
        while i < self.objects.len()
            invariant
                self.wf(),
                s == self.entries(),
                s.len() == self.objects@.len(),
                i <= s.len(),
                plen == sp.len(),
                sb == src_bucket@,
                sp == src_prefix@,
                db == dest_bucket@,
                dp == dest_prefix@,
                self.same_state(&old(self)),
                old(self).is_started(),
                old(self).has_bucket(sb),
                old(self).has_bucket(db),
                !(sb == db && sp == dp),
                forall|a: int, j: int|
                    0 <= a < i && 0 <= j < s.len() && j != a && prefix_match(s[a], sb, sp) ==> !(
                    s[j].bucket == db && s[j].key == renamed_key(sp, dp, s[a].key)),
            decreases self.objects.len() - i,
        {
            if str_eq(self.objects[i].bucket.as_str(), src_bucket) && has_prefix(
                self.objects[i].key.as_str(),
                src_prefix,
            ) {
                let tail = suffix_from(self.objects[i].key.as_str(), plen);
                let target = concat_strs(dest_prefix, tail.as_str());
                proof {
                    assert(target@ == renamed_key(sp, dp, s[i as int].key));
                }
                match self.find_object(dest_bucket, target.as_str()) {
                    Some(j) => {
                        if j != i {
                            proof {
                                assert(prefix_match(s[i as int], sb, sp));
                                assert(s[j as int].bucket == db && s[j as int].key == renamed_key(
                                    sp,
                                    dp,
                                    s[i as int].key,
                                ));
                                assert(rename_collision(s, sb, sp, db, dp));
                            }
                            return Err(
                                GedsError::new(
                                    GedsErrorKind::AlreadyExists,
                                    "renamed key already exists".to_owned(),
                                ),
                            );
                        }
                        proof {
                            assert forall|j2: int|
                                0 <= j2 < s.len() && j2 != i as int implies !(s[j2].bucket == db
                                && s[j2].key == renamed_key(sp, dp, s[i as int].key)) by {
                                if s[j2].bucket == db && s[j2].key == renamed_key(
                                    sp,
                                    dp,
                                    s[i as int].key,
                                ) {
                                    lemma_object_index_unique(s, db, target@, j2);
                                    lemma_object_index_unique(s, db, target@, i as int);
                                }
                            }
                        }
                    },
                    None => {
                        proof {
                            assert forall|j2: int|
                                0 <= j2 < s.len() implies !(s[j2].bucket == db && s[j2].key
                                == renamed_key(sp, dp, s[i as int].key)) by {
                                if s[j2].bucket == db && s[j2].key == renamed_key(
                                    sp,
                                    dp,
                                    s[i as int].key,
                                ) {
                                    assert(contains_object(s, db, target@));
                                }
                            }
                        }
                    },
                }
            }
            i += 1;
        }
        proof {
            if rename_collision(s, sb, sp, db, dp) {
                let (a, j) = choose|a: int, j: int|
                    0 <= a < s.len() && 0 <= j < s.len() && j != a && prefix_match(s[a], sb, sp)
                        && s[j].bucket == db && s[j].key == renamed_key(sp, dp, s[a].key);
                assert(false);
            }
        }
        let mut k: usize = 0;
        while k < self.objects.len()
            invariant
                self.wf(),
                self.same_administration(&old(self)),
                self.budget() == old(self).budget(),
                s == old(self).entries(),
                s.len() == self.objects@.len(),
                k <= s.len(),
                plen == sp.len(),
                sb == src_bucket@,
                sp == src_prefix@,
                db == dest_bucket@,
                dp == dest_prefix@,
                unique_objects(s),
                !rename_collision(s, sb, sp, db, dp),
                self.has_bucket(db),
                old(self).is_started(),
                old(self).has_bucket(sb),
                old(self).has_bucket(db),
                !(sb == db && sp == dp),
                forall|t: int|
                    0 <= t < s.len() ==> self.entries()[t] == (if t < k {
                        renamed_entry(s[t], sb, sp, db, dp)
                    } else {
                        s[t]
                    }),
            decreases self.objects.len() - k,
        {
            let ghost pre = self.entries();
            if str_eq(self.objects[k].bucket.as_str(), src_bucket) && has_prefix(
                self.objects[k].key.as_str(),
                src_prefix,
            ) {
                let tail = suffix_from(self.objects[k].key.as_str(), plen);
                let target = concat_strs(dest_prefix, tail.as_str());
                let mut o = self.objects.remove(k);
                o.bucket = dest_bucket.to_owned();
                o.key = target;
                self.objects.insert(k, o);
                proof {
                    let e = renamed_entry(s[k as int], sb, sp, db, dp);
                    assert(pre[k as int] == s[k as int]);
                    assert(self.entries() =~= pre.update(k as int, e));
                    lemma_resident_sum_update(pre, k as int, e);
                    assert(self.bucket_names() == old(self).bucket_names());
                    assert(self.subs() == old(self).subs());
                    assert(self.store_confs() == old(self).store_confs());
                    assert forall|a: int, b: int|
                        0 <= a < b < self.entries().len() implies !(self.entries()[a].bucket
                        == self.entries()[b].bucket && self.entries()[a].key
                        == self.entries()[b].key) by {
                        let ra = self.entries()[a];
                        let rb = self.entries()[b];
                        assert(ra == (if a <= k as int {
                            renamed_entry(s[a], sb, sp, db, dp)
                        } else {
                            s[a]
                        }));
                        assert(rb == (if b <= k as int {
                            renamed_entry(s[b], sb, sp, db, dp)
                        } else {
                            s[b]
                        }));
                        if prefix_match(s[a], sb, sp) && a <= k as int && prefix_match(s[b], sb, sp)
                            && b <= k as int {
                            lemma_rename_targets_injective(s, sb, sp, dp, a, b);
                        } else if prefix_match(s[a], sb, sp) && a <= k as int {
                            if rb.bucket == db && rb.key == renamed_key(sp, dp, s[a].key) {
                                assert(rb == s[b]);
                                assert(rename_collision(s, sb, sp, db, dp));
                            }
                        } else if prefix_match(s[b], sb, sp) && b <= k as int {
                            if ra.bucket == db && ra.key == renamed_key(sp, dp, s[b].key) {
                                assert(ra == s[a]);
                                assert(rename_collision(s, sb, sp, db, dp));
                            }
                        } else {
                            assert(ra == s[a] && rb == s[b]);
                            assert(!(s[a].bucket == s[b].bucket && s[a].key == s[b].key));
                        }
                    }
                    assert forall|t: int|
                        0 <= t < self.entries().len() implies self.bucket_names().contains(
                        self.entries()[t].bucket,
                    ) by {
                        if t != k as int {
                            assert(self.entries()[t] == pre[t]);
                        }
                    }
                }
            } else {
                proof {
                    assert(self.entries()[k as int] == s[k as int]);
                    assert(s[k as int].bucket == self.objects@[k as int].bucket@);
                    assert(s[k as int].key == self.objects@[k as int].key@);
                    assert(renamed_entry(s[k as int], sb, sp, db, dp) == s[k as int]);
                }
            }
            k += 1;
        }
        proof {
            assert(self.entries() =~= renamed_entries(s, sb, sp, db, dp));
        }
        Ok(())
    }
}

/// The store-side copy of `e` under a new bucket and key: same bytes,
/// metadata and seal state, durable and not cache-resident.
pub open spec fn copied_to(e: EntryModel, b: Seq<char>, k: Seq<char>) -> EntryModel {
    EntryModel {
        bucket: b,
        key: k,
        obj: ObjModel {
            data: e.obj.data,
            metadata: e.obj.metadata,
            sealed: e.obj.sealed,
            resident: false,
            durable: true,
        },
    }
}

/// All entries after the flush half of a prefix copy: every matching source
/// becomes durable, anything else is untouched.
pub open spec fn copy_flushed(s: Seq<EntryModel>, sb: Seq<char>, sp: Seq<char>) -> Seq<
    EntryModel,
> {
    Seq::new(s.len(), |t: int| if prefix_match(s[t], sb, sp) { flushed_entry(s[t]) } else { s[t] })
}

/// The store-side copies a prefix copy appends, in tracking order of their
/// sources.
pub open spec fn copied_list(
    s: Seq<EntryModel>,
    sb: Seq<char>,
    sp: Seq<char>,
    db: Seq<char>,
    dp: Seq<char>,
) -> Seq<EntryModel>
    decreases s.len(),
{
    if s.len() == 0 {
        Seq::empty()
    } else if prefix_match(s.last(), sb, sp) {
        copied_list(s.drop_last(), sb, sp, db, dp).push(
            copied_to(s.last(), db, renamed_key(sp, dp, s.last().key)),
        )
    } else {
        copied_list(s.drop_last(), sb, sp, db, dp)
    }
}

/// A prefix copy has a collision: some matching entry's destination key is
/// already the key of an entry, the source itself included.
pub open spec fn copy_collision(
    s: Seq<EntryModel>,
    sb: Seq<char>,
    sp: Seq<char>,
    db: Seq<char>,
    dp: Seq<char>,
) -> bool {
    exists|i: int, j: int|
        0 <= i < s.len() && 0 <= j < s.len() && prefix_match(s[i], sb, sp) && s[j].bucket == db
            && s[j].key == renamed_key(sp, dp, s[i].key)
}

/// Unfolding `copied_list` over an appended entry.
proof fn lemma_copied_list_push(
    s: Seq<EntryModel>,
    sb: Seq<char>,
    sp: Seq<char>,
    db: Seq<char>,
    dp: Seq<char>,
    e: EntryModel,
)
    ensures
        copied_list(s.push(e), sb, sp, db, dp) == (if prefix_match(e, sb, sp) {
            copied_list(s, sb, sp, db, dp).push(copied_to(e, db, renamed_key(sp, dp, e.key)))
        } else {
            copied_list(s, sb, sp, db, dp)
        }),
{
    assert(s.push(e).drop_last() =~= s);
    assert(s.push(e).last() == e);
}

/// Every appended copy stems from a matching source.
proof fn lemma_copied_list_sound(
    s: Seq<EntryModel>,
    sb: Seq<char>,
    sp: Seq<char>,
    db: Seq<char>,
    dp: Seq<char>,
    x: int,
)
    requires
        0 <= x < copied_list(s, sb, sp, db, dp).len(),
    ensures
        exists|t: int|
            0 <= t < s.len() && prefix_match(s[t], sb, sp) && copied_list(s, sb, sp, db, dp)[x]
                == copied_to(s[t], db, renamed_key(sp, dp, s[t].key)),
        copied_list(s, sb, sp, db, dp)[x].bucket == db,
        !copied_list(s, sb, sp, db, dp)[x].obj.resident,
    decreases s.len(),
{
    let c = copied_list(s, sb, sp, db, dp);
    let rest = copied_list(s.drop_last(), sb, sp, db, dp);
    if prefix_match(s.last(), sb, sp) && x == c.len() - 1 {
        let t = s.len() - 1;
        assert(s[t] == s.last());
        assert(c[x] == copied_to(s[t], db, renamed_key(sp, dp, s[t].key)));
    } else {
        lemma_copied_list_sound(s.drop_last(), sb, sp, db, dp, x);
        let t = choose|t: int|
            0 <= t < s.drop_last().len() && prefix_match(s.drop_last()[t], sb, sp) && rest[x]
                == copied_to(s.drop_last()[t], db, renamed_key(sp, dp, s.drop_last()[t].key));
        assert(s.drop_last()[t] == s[t]);
        assert(c[x] == rest[x]);
    }
}

/// The weight of every appended copy is zero: copies are store-side.
proof fn lemma_copied_list_weightless(
    s: Seq<EntryModel>,
    sb: Seq<char>,
    sp: Seq<char>,
    db: Seq<char>,
    dp: Seq<char>,
)
    ensures
        forall|x: int|
            0 <= x < copied_list(s, sb, sp, db, dp).len() ==> resident_weight(
                #[trigger] copied_list(s, sb, sp, db, dp)[x],
            ) == 0,
{
    assert forall|x: int|
        0 <= x < copied_list(s, sb, sp, db, dp).len() implies resident_weight(
        #[trigger] copied_list(s, sb, sp, db, dp)[x],
    ) == 0 by {
        lemma_copied_list_sound(s, sb, sp, db, dp, x);
    }
}

/// A byte-for-byte copy of a buffer.
fn clone_bytes(v: &Vec<u8>) -> (r: Vec<u8>)
    ensures
        r@ == v@,
{
    let mut r: Vec<u8> = Vec::new();
    let mut i: usize = 0;
    while i < v.len()
        invariant
            i <= v.len(),
            r@ =~= v@.take(i as int),
        decreases v.len() - i,
    {
        r.push(v[i]);
        proof {
            assert(r@ =~= v@.take(i + 1));
        }
        i += 1;
    }
    proof {
        assert(r@ =~= v@);
    }
    r
}

/// Two distinct matching entries copy to distinct keys; proved from the
/// rename-key injectivity.
proof fn lemma_copied_list_distinct(
    s: Seq<EntryModel>,
    sb: Seq<char>,
    sp: Seq<char>,
    db: Seq<char>,
    dp: Seq<char>,
)
    requires
        unique_objects(s),
    ensures
        forall|x1: int, x2: int|
            0 <= x1 < x2 < copied_list(s, sb, sp, db, dp).len() ==> #[trigger] copied_list(
                s,
                sb,
                sp,
                db,
                dp,
            )[x1].key != #[trigger] copied_list(s, sb, sp, db, dp)[x2].key,
    decreases s.len(),
{
    let c = copied_list(s, sb, sp, db, dp);
    if s.len() > 0 {
        let d = s.drop_last();
        let rest = copied_list(d, sb, sp, db, dp);
        assert forall|a: int, b: int|
            0 <= a < b < d.len() implies !(d[a].bucket == d[b].bucket && d[a].key == d[b].key) by {
            assert(d[a] == s[a]);
            assert(d[b] == s[b]);
        }
        lemma_copied_list_distinct(d, sb, sp, db, dp);
        assert forall|x1: int, x2: int|
            0 <= x1 < x2 < c.len() implies c[x1].key != c[x2].key by {
            if x2 < rest.len() {
                assert(c[x1] == rest[x1]);
                assert(c[x2] == rest[x2]);
            } else {
                assert(prefix_match(s.last(), sb, sp));
                assert(c[x2] == copied_to(s.last(), db, renamed_key(sp, dp, s.last().key)));
                assert(c[x1] == rest[x1]);
                lemma_copied_list_sound(d, sb, sp, db, dp, x1);
                let t = choose|t: int|
                    0 <= t < d.len() && prefix_match(d[t], sb, sp) && rest[x1] == copied_to(
                        d[t],
                        db,
                        renamed_key(sp, dp, d[t].key),
                    );
                assert(d[t] == s[t]);
                lemma_rename_targets_injective(s, sb, sp, dp, t, s.len() - 1);
            }
        }
    }
}

impl GEDS {
    /// Copy every object in `src_bucket` whose key starts with `src_prefix`
    /// to `dest_bucket` under `dest_prefix` followed by the rest of its key,
    /// with identical bytes, metadata and seal state.  Each source is
    /// flushed to the backing store first and the copy is made store-side,
    /// so copies are durable and occupy no local cache.  The engine
    /// validates first and then applies: if any destination key is already
    /// taken it fails with `AlreadyExists` and copies nothing.  Fails with
    /// `InvalidState` outside the started window and with `NotFound` for an
    /// unregistered source or destination bucket.
    pub fn copy_prefix(
        &mut self,
        src_bucket: &str,
        src_prefix: &str,
        dest_bucket: &str,
        dest_prefix: &str,
    ) -> (r: Result<(), GedsError>)
        requires
            old(self).wf(),
        ensures
            final(self).wf(),
            final(self).same_administration(old(self)),
            ({
                let s = old(self).entries();
                &&& (r is Ok <==> (old(self).is_started() && old(self).has_bucket(src_bucket@)
                    && old(self).has_bucket(dest_bucket@) && !copy_collision(
                    s,
                    src_bucket@,
                    src_prefix@,
                    dest_bucket@,
                    dest_prefix@,
                )))
                &&& (r is Ok ==> final(self).entries() == copy_flushed(s, src_bucket@, src_prefix@)
                    + copied_list(s, src_bucket@, src_prefix@, dest_bucket@, dest_prefix@))
                &&& (r is Err ==> final(self).same_state(old(self)) && r->Err_0.kind == (if !old(
                    self,
                ).is_started() {
                    GedsErrorKind::InvalidState
                } else if !old(self).has_bucket(src_bucket@) || !old(self).has_bucket(
                    dest_bucket@,
                ) {
                    GedsErrorKind::NotFound
                } else {
                    GedsErrorKind::AlreadyExists
                }))
            }),
    {
        if !self.started {
            return Err(GedsError::new(GedsErrorKind::InvalidState, "not started".to_owned()));
        }
        if !self.bucket_exists(src_bucket) {
            return Err(GedsError::new(GedsErrorKind::NotFound, "no such bucket".to_owned()));
        }
        if !self.bucket_exists(dest_bucket) {
            return Err(GedsError::new(GedsErrorKind::NotFound, "no such bucket".to_owned()));
        }
        let ghost s = self.entries();
        let ghost sb = src_bucket@;
        let ghost sp = src_prefix@;
        let ghost db = dest_bucket@;
        let ghost dp = dest_prefix@;
        let plen = src_prefix.unicode_len();
        let orig_len = self.objects.len();
        let mut i: usize = 0;
        while i < orig_len
            invariant
                self.wf(),
                s == self.entries(),
                s.len() == self.objects@.len(),
                orig_len == s.len(),
                i <= s.len(),
                plen == sp.len(),
                sb == src_bucket@,
                sp == src_prefix@,
                db == dest_bucket@,
                dp == dest_prefix@,
                self.same_state(&old(self)),
                old(self).is_started(),
                old(self).has_bucket(sb),
                old(self).has_bucket(db),
                forall|a: int, j: int|
                    0 <= a < i && 0 <= j < s.len() && prefix_match(s[a], sb, sp) ==> !(s[j].bucket
                        == db && s[j].key == renamed_key(sp, dp, s[a].key)),
            decreases orig_len - i,
        {
            if str_eq(self.objects[i].bucket.as_str(), src_bucket) && has_prefix(
                self.objects[i].key.as_str(),
                src_prefix,
            ) {
                let tail = suffix_from(self.objects[i].key.as_str(), plen);
                let target = concat_strs(dest_prefix, tail.as_str());
                proof {
                    assert(target@ == renamed_key(sp, dp, s[i as int].key));
                }
                match self.find_object(dest_bucket, target.as_str()) {
                    Some(j) => {
                        proof {
                            assert(prefix_match(s[i as int], sb, sp));
                            assert(s[j as int].bucket == db && s[j as int].key == renamed_key(
                                sp,
                                dp,
                                s[i as int].key,
                            ));
                            assert(copy_collision(s, sb, sp, db, dp));
                        }
                        return Err(
                            GedsError::new(
                                GedsErrorKind::AlreadyExists,
                                "destination key already exists".to_owned(),
                            ),
                        );
                    },
                    None => {
                        proof {
                            assert forall|j2: int|
                                0 <= j2 < s.len() implies !(s[j2].bucket == db && s[j2].key
                                == renamed_key(sp, dp, s[i as int].key)) by {
                                if s[j2].bucket == db && s[j2].key == renamed_key(
                                    sp,
                                    dp,
                                    s[i as int].key,
                                ) {
                                    assert(contains_object(s, db, target@));
                                }
                            }
                        }
                    },
                }
            }
            i += 1;
        }
        proof {
            if copy_collision(s, sb, sp, db, dp) {
                let (a, j) = choose|a: int, j: int|
                    0 <= a < s.len() && 0 <= j < s.len() && prefix_match(s[a], sb, sp)
                        && s[j].bucket == db && s[j].key == renamed_key(sp, dp, s[a].key);
                assert(false);
            }
        }
        let mut k: usize = 0;
        while k < orig_len
            invariant
                self.wf(),
                self.same_administration(&old(self)),
                self.budget() == old(self).budget(),
                s == old(self).entries(),
                orig_len == s.len(),
                k <= s.len(),
                plen == sp.len(),
                sb == src_bucket@,
                sp == src_prefix@,
                db == dest_bucket@,
                dp == dest_prefix@,
                unique_objects(s),
                !copy_collision(s, sb, sp, db, dp),
                self.has_bucket(db),
                old(self).is_started(),
                old(self).has_bucket(sb),
                old(self).has_bucket(db),
                self.entries() == Seq::new(
                    s.len(),
                    |t: int|
                        if t < k && prefix_match(s[t], sb, sp) {
                            flushed_entry(s[t])
                        } else {
                            s[t]
                        },
                ) + copied_list(s.take(k as int), sb, sp, db, dp),
            decreases orig_len - k,
        {
            let ghost front = Seq::new(
                s.len(),
                |t: int|
                    if t < k && prefix_match(s[t], sb, sp) {
                        flushed_entry(s[t])
                    } else {
                        s[t]
                    },
            );
            let ghost copies = copied_list(s.take(k as int), sb, sp, db, dp);
            let ghost pre = self.entries();
            proof {
                assert(s.take(k + 1) =~= s.take(k as int).push(s[k as int]));
                lemma_copied_list_push(s.take(k as int), sb, sp, db, dp, s[k as int]);
            }
            if str_eq(self.objects[k].bucket.as_str(), src_bucket) && has_prefix(
                self.objects[k].key.as_str(),
                src_prefix,
            ) {
                let tail = suffix_from(self.objects[k].key.as_str(), plen);
                let target = concat_strs(dest_prefix, tail.as_str());
                proof {
                    assert(pre[k as int] == s[k as int]);
                    assert(target@ == renamed_key(sp, dp, s[k as int].key));
                }
                let mut o = self.objects.remove(k);
                o.state.durable = true;
                self.objects.insert(k, o);
                let ghost mid = pre.update(k as int, flushed_entry(s[k as int]));
                proof {
                    assert(self.entries() =~= mid);
                    lemma_resident_sum_update(pre, k as int, flushed_entry(s[k as int]));
                    lemma_unique_update(pre, k as int, flushed_entry(s[k as int]));
                }
                let copied = StoredObject {
                    bucket: dest_bucket.to_owned(),
                    key: target,
                    state: ObjectState {
                        data: clone_bytes(&self.objects[k].state.data),
                        metadata: self.objects[k].state.metadata.clone(),
                        sealed: self.objects[k].state.sealed,
                        resident: false,
                        durable: true,
                    },
                };
                let ghost ce = copied_to(s[k as int], db, renamed_key(sp, dp, s[k as int].key));
                proof {
                    assert(copied.model() == ce);
                }
                self.objects.push(copied);
                proof {
                    assert(self.entries() =~= mid.push(ce));
                    lemma_resident_sum_push(mid, ce);
                    assert forall|t: int|
                        0 <= t < mid.len() implies !(mid[t].bucket == ce.bucket && mid[t].key
                        == ce.key) by {
                        if t < s.len() {
                            assert(mid[t].bucket == front[t].bucket && mid[t].key == front[t].key);
                            assert(front[t].bucket == s[t].bucket && front[t].key == s[t].key);
                            if s[t].bucket == db && s[t].key == renamed_key(
                                sp,
                                dp,
                                s[k as int].key,
                            ) {
                                assert(copy_collision(s, sb, sp, db, dp));
                            }
                        } else {
                            let x = t - s.len();
                            assert(mid[t] == copies[x]);
                            lemma_copied_list_sound(s.take(k as int), sb, sp, db, dp, x);
                            let t2 = choose|t2: int|
                                0 <= t2 < s.take(k as int).len() && prefix_match(
                                    s.take(k as int)[t2],
                                    sb,
                                    sp,
                                ) && copies[x] == copied_to(
                                    s.take(k as int)[t2],
                                    db,
                                    renamed_key(sp, dp, s.take(k as int)[t2].key),
                                );
                            assert(s.take(k as int)[t2] == s[t2]);
                            lemma_rename_targets_injective(s, sb, sp, dp, t2, k as int);
                        }
                    }
                    assert(!contains_object(mid, ce.bucket, ce.key));
                    lemma_unique_push(mid, ce);
                    assert(self.bucket_names() == old(self).bucket_names());
                    assert(self.subs() == old(self).subs());
                    assert(self.store_confs() == old(self).store_confs());
                    assert forall|t: int|
                        0 <= t < self.entries().len() implies self.bucket_names().contains(
                        self.entries()[t].bucket,
                    ) by {
                        if t < mid.len() {
                            assert(self.entries()[t] == mid[t]);
                            if t != k as int {
                                assert(mid[t] == pre[t]);
                            }
                        } else {
                            assert(self.entries()[t] == ce);
                        }
                    }
                    assert(self.entries() =~= Seq::new(
                        s.len(),
                        |t: int|
                            if t < k + 1 && prefix_match(s[t], sb, sp) {
                                flushed_entry(s[t])
                            } else {
                                s[t]
                            },
                    ) + copied_list(s.take(k + 1), sb, sp, db, dp));
                }
            } else {
                proof {
                    assert(pre[k as int] == s[k as int]);
                    assert(s[k as int].bucket == self.objects@[k as int].bucket@);
                    assert(s[k as int].key == self.objects@[k as int].key@);
                    assert(!prefix_match(s[k as int], sb, sp));
                    assert(self.entries() =~= Seq::new(
                        s.len(),
                        |t: int|
                            if t < k + 1 && prefix_match(s[t], sb, sp) {
                                flushed_entry(s[t])
                            } else {
                                s[t]
                            },
                    ) + copied_list(s.take(k + 1), sb, sp, db, dp));
                }
            }
            k += 1;
        }
        proof {
            assert(s.take(s.len() as int) =~= s);
            assert(self.entries() =~= copy_flushed(s, sb, sp) + copied_list(s, sb, sp, db, dp));
        }
        Ok(())
    }
}

/// The entry lists as a plain file one level under `p` in bucket `b`: its
/// key starts with `p`, the remainder holds no delimiter, and it is not the
/// marker of the folder `p` itself.
pub open spec fn folder_file_entry(e: EntryModel, b: Seq<char>, p: Seq<char>) -> bool {
    &&& e.bucket == b
    &&& is_prefix_of(p, e.key)
    &&& (forall|j: int| p.len() <= j < e.key.len() ==> e.key[j] != '/')
    &&& e.key.skip(p.len() as int) != marker_tail()
}

/// The status snapshots of the plain files one level under `p` in bucket
/// `b`, in tracking order.
pub open spec fn folder_files(s: Seq<EntryModel>, b: Seq<char>, p: Seq<char>) -> Seq<
    (Seq<char>, int, bool),
>
    decreases s.len(),
{
    if s.len() == 0 {
        Seq::empty()
    } else if folder_file_entry(s.last(), b, p) {
        folder_files(s.drop_last(), b, p).push(status_model(s.last()))
    } else {
        folder_files(s.drop_last(), b, p)
    }
}

/// `d` names a directory one level under `p` in bucket `b`: it extends `p`
/// by one delimiter-free level and some tracked key continues below it.
pub open spec fn is_folder_under(
    s: Seq<EntryModel>,
    b: Seq<char>,
    p: Seq<char>,
    d: Seq<char>,
) -> bool {
    &&& is_prefix_of(p, d)
    &&& (forall|j: int| p.len() <= j < d.len() ==> d[j] != '/')
    &&& exists|i: int|
        0 <= i < s.len() && s[i].bucket == b && is_prefix_of(d + seq!['/'], s[i].key)
}

/// Unfolding `folder_files` over an appended entry.
proof fn lemma_folder_files_push(s: Seq<EntryModel>, b: Seq<char>, p: Seq<char>, e: EntryModel)
    ensures
        folder_files(s.push(e), b, p) == (if folder_file_entry(e, b, p) {
            folder_files(s, b, p).push(status_model(e))
        } else {
            folder_files(s, b, p)
        }),
{
    assert(s.push(e).drop_last() =~= s);
    assert(s.push(e).last() == e);
}

/// A prefix of a directory name is a prefix of every key below it.
proof fn lemma_prefix_through_dir(p: Seq<char>, d: Seq<char>, k: Seq<char>)
    requires
        is_prefix_of(p, d),
        is_prefix_of(d + seq!['/'], k),
    ensures
        is_prefix_of(p, k),
        k.subrange(0, d.len() as int) == d,
        k[d.len() as int] == '/',
{
    assert((d + seq!['/']).len() == d.len() + 1);
    assert(k.subrange(0, d.len() as int + 1) == d + seq!['/']);
    assert forall|i: int| 0 <= i < d.len() implies k[i] == d[i] by {
        assert(k.subrange(0, d.len() as int + 1)[i] == k[i]);
        assert((d + seq!['/'])[i] == d[i]);
    }
    assert(k.subrange(0, d.len() as int) =~= d);
    assert(k.subrange(0, d.len() as int + 1)[d.len() as int] == k[d.len() as int]);
    assert((d + seq!['/'])[d.len() as int] == '/');
    assert forall|i: int| 0 <= i < p.len() implies k[i] == p[i] by {
        assert(d.subrange(0, p.len() as int)[i] == d[i]);
        assert(k[i] == d[i]);
    }
    assert(k.subrange(0, p.len() as int) =~= p);
}

/// Does the tail of a listing, from `from` on, already hold an entry whose
/// key is `dir`?
fn listing_has_dir(out: &Vec<crate::status::GEDSFileStatus>, from: usize, dir: &str) -> (r: bool)
    requires
        from <= out.len(),
    ensures
        r == exists|t: int| from <= t < out@.len() && out@[t].key@ == dir@,
{
    let mut t: usize = from;
    while t < out.len()
        invariant
            from <= t <= out@.len(),
            forall|tt: int| from <= tt < t ==> out@[tt].key@ != dir@,
        decreases out.len() - t,
    {
        if str_eq(out[t].key.as_str(), dir) {
            return true;
        }
        t += 1;
    }
    false
}

impl GEDS {
    /// List one directory level: every plain file in `bucket` directly under
    /// `prefix` (exactly, in tracking order), followed by one entry of size
    /// zero with `is_directory` set for each directory one level below
    /// `prefix`, without duplicates.  A directory is listed whether it is
    /// known from a marker or from any deeper key.  Fails with
    /// `InvalidState` outside the started window and with `NotFound` for an
    /// unregistered bucket.
    pub fn list_folder(&self, bucket: &str, prefix: &str) -> (r: Result<
        Vec<crate::status::GEDSFileStatus>,
        GedsError,
    >)
        requires
            self.wf(),
        ensures
            r is Ok <==> (self.is_started() && self.has_bucket(bucket@)),
            r is Err ==> r->Err_0.kind == (if !self.is_started() {
                GedsErrorKind::InvalidState
            } else {
                GedsErrorKind::NotFound
            }),
            r is Ok ==> ({
                let s = self.entries();
                let models = crate::status::status_models(r->Ok_0@);
                let files = folder_files(s, bucket@, prefix@);
                &&& files.len() <= models.len()
                &&& models.subrange(0, files.len() as int) == files
                &&& (forall|t: int|
                    files.len() <= t < models.len() ==> (#[trigger] models[t]).1 == 0
                        && models[t].2 && is_folder_under(s, bucket@, prefix@, models[t].0))
                &&& (forall|d: Seq<char>|
                    is_folder_under(s, bucket@, prefix@, d) ==> exists|t: int|
                        files.len() <= t < models.len() && (#[trigger] models[t]).0 == d)
                &&& (forall|t1: int, t2: int|
                    files.len() <= t1 < t2 < models.len() ==> (#[trigger] models[t1]).0 != (
                    #[trigger] models[t2]).0)
            }),
    {
        if !self.started {
            return Err(GedsError::new(GedsErrorKind::InvalidState, "not started".to_owned()));
        }
        if !self.bucket_exists(bucket) {
            return Err(GedsError::new(GedsErrorKind::NotFound, "no such bucket".to_owned()));
        }
        let ghost s = self.entries();
        let ghost b = bucket@;
        let ghost p = prefix@;
        let plen = prefix.unicode_len();
        let mut out: Vec<crate::status::GEDSFileStatus> = Vec::new();
        proof {
            assert(crate::status::status_models(out@) =~= folder_files(s.take(0), b, p));
        }
        let mut i: usize = 0;
        while i < self.objects.len()
            invariant
                self.wf(),
                s == self.entries(),
                s.len() == self.objects@.len(),
                i <= s.len(),
                plen == p.len(),
                b == bucket@,
                p == prefix@,
                crate::status::status_models(out@) == folder_files(s.take(i as int), b, p),
            decreases self.objects.len() - i,
        {
            let ghost pre_models = crate::status::status_models(out@);
            proof {
                assert(s.take(i + 1) =~= s.take(i as int).push(s[i as int]));
                lemma_folder_files_push(s.take(i as int), b, p, s[i as int]);
            }
            if str_eq(self.objects[i].bucket.as_str(), bucket) && has_prefix(
                self.objects[i].key.as_str(),
                prefix,
            ) {
                let no_delim = match find_char_from(self.objects[i].key.as_str(), plen, '/') {
                    Some(_) => false,
                    None => true,
                };
                let tail = suffix_from(self.objects[i].key.as_str(), plen);
                if no_delim && !str_eq(tail.as_str(), marker_tail_str()) {
                    proof {
                        assert(folder_file_entry(s[i as int], b, p));
                    }
                    let st = crate::status::GEDSFileStatus {
                        key: self.objects[i].key.clone(),
                        size: self.objects[i].state.data.len(),
                        is_directory: has_suffix(self.objects[i].key.as_str(), marker_suffix_str()),
                    };
                    out.push(st);
                    proof {
                        assert(crate::status::status_models(out@) =~= pre_models.push(
                            status_model(s[i as int]),
                        ));
                    }
                } else {
                    proof {
                        assert(!folder_file_entry(s[i as int], b, p));
                    }
                }
            } else {
                proof {
                    assert(!folder_file_entry(s[i as int], b, p));
                }
            }
            i += 1;
        }
        proof {
            assert(s.take(s.len() as int) =~= s);
        }
        let nfiles = out.len();
        let ghost files = folder_files(s, b, p);
        let mut i2: usize = 0;
        while i2 < self.objects.len()
            invariant
                self.wf(),
                s == self.entries(),
                s.len() == self.objects@.len(),
                i2 <= s.len(),
                plen == p.len(),
                b == bucket@,
                p == prefix@,
                files == folder_files(s, b, p),
                nfiles as int == files.len(),
                out@.len() >= nfiles,
                crate::status::status_models(out@).subrange(0, nfiles as int) == files,
                forall|t: int|
                    nfiles <= t < out@.len() ==> (#[trigger] crate::status::status_models(
                        out@,
                    )[t]).1 == 0 && crate::status::status_models(out@)[t].2 && is_folder_under(
                        s,
                        b,
                        p,
                        crate::status::status_models(out@)[t].0,
                    ),
                forall|d: Seq<char>|
                    is_folder_under(s.take(i2 as int), b, p, d) ==> exists|t: int|
                        nfiles <= t < out@.len() && (#[trigger] crate::status::status_models(
                            out@,
                        )[t]).0 == d,
                forall|t1: int, t2: int|
                    nfiles <= t1 < t2 < out@.len() ==> (#[trigger] crate::status::status_models(
                        out@,
                    )[t1]).0 != (#[trigger] crate::status::status_models(out@)[t2]).0,
            decreases self.objects.len() - i2,
        {
            let ghost pre_out = out@;
            proof {
                assert(s.take(i2 + 1) =~= s.take(i2 as int).push(s[i2 as int]));
            }
            if str_eq(self.objects[i2].bucket.as_str(), bucket) && has_prefix(
                self.objects[i2].key.as_str(),
                prefix,
            ) {
                match find_char_from(self.objects[i2].key.as_str(), plen, '/') {
                    Some(jd) => {
                        let dir = self.objects[i2].key.substring_char(0, jd);
                        let ghost dv = dir@;
                        proof {
                            let k = s[i2 as int].key;
                            assert(dv == k.subrange(0, jd as int));
                            assert(k.subrange(0, p.len() as int) == p);
                            assert forall|x: int| 0 <= x < p.len() implies dv[x] == p[x] by {
                                assert(k.subrange(0, p.len() as int)[x] == k[x]);
                                assert(dv[x] == k[x]);
                            }
                            assert(dv.subrange(0, p.len() as int) =~= p);
                            assert(is_prefix_of(p, dv));
                            assert forall|x: int| p.len() <= x < dv.len() implies dv[x] != '/' by {
                                assert(dv[x] == k[x]);
                            }
                            assert(dv + seq!['/'] =~= k.subrange(0, jd + 1));
                            assert forall|x: int|
                                0 <= x < jd + 1 implies k.subrange(0, jd + 1)[x] == k.subrange(
                                0,
                                k.len() as int,
                            )[x] by {}
                            assert(k.subrange(0, k.len() as int) =~= k);
                            assert(is_prefix_of(dv + seq!['/'], k));
                            assert(is_folder_under(s, b, p, dv));
                        }
                        let had = listing_has_dir(&out, nfiles, dir);
                        if !had {
                            let st = crate::status::GEDSFileStatus {
                                key: dir.to_owned(),
                                size: 0,
                                is_directory: true,
                            };
                            out.push(st);
                            proof {
                                assert(crate::status::status_models(out@) =~= crate::status::status_models(
                                    pre_out,
                                ).push((dv, 0int, true)));
                                assert(crate::status::status_models(out@).subrange(
                                    0,
                                    nfiles as int,
                                ) =~= crate::status::status_models(pre_out).subrange(
                                    0,
                                    nfiles as int,
                                ));
                            }
                        }
                        proof {
                            if had {
                                let t0 = choose|t0: int|
                                    nfiles <= t0 < pre_out.len() && pre_out[t0].key@ == dv;
                                assert(out@ == pre_out);
                                assert(crate::status::status_models(out@)[t0].0 == dv);
                            } else {
                                assert(crate::status::status_models(out@)[out@.len() - 1].0 == dv);
                            }
                            assert(exists|t: int|
                                nfiles <= t < out@.len()
                                    && (#[trigger] crate::status::status_models(out@)[t]).0 == dv);
                            assert forall|d: Seq<char>|
                                #[trigger] is_folder_under(s.take(i2 + 1), b, p, d) implies exists|t: int|
                                nfiles <= t < out@.len() && (#[trigger] crate::status::status_models(
                                out@,
                            )[t]).0 == d by {
                                let wi = choose|wi: int|
                                    0 <= wi < s.take(i2 + 1).len() && (#[trigger] s.take(i2 + 1)[wi]).bucket == b
                                        && is_prefix_of(d + seq!['/'], s.take(i2 + 1)[wi].key);
                                assert(s.take(i2 + 1)[wi] == s[wi]);
                                if wi < i2 as int {
                                    assert(s.take(i2 as int)[wi] == s[wi]);
                                    assert(is_folder_under(s.take(i2 as int), b, p, d));
                                    let t0 = choose|t0: int|
                                        nfiles <= t0 < pre_out.len()
                                            && (#[trigger] crate::status::status_models(
                                            pre_out,
                                        )[t0]).0 == d;
                                    assert(out@.len() >= pre_out.len());
                                    assert(out@[t0] == pre_out[t0]);
                                    assert(crate::status::status_models(out@)[t0].0 == d);
                                } else {
                                    let k = s[i2 as int].key;
                                    lemma_prefix_through_dir(p, d, k);
                                    assert(d.len() >= p.len());
                                    assert(k[d.len() as int] == '/');
                                    assert forall|x: int|
                                        p.len() <= x < d.len() implies k[x] != '/' by {
                                        assert(k.subrange(0, d.len() as int)[x] == k[x]);
                                        assert(d[x] != '/');
                                    }
                                    if (jd as int) < d.len() {
                                        assert(k[jd as int] != '/');
                                    }
                                    if d.len() < jd as int {
                                        assert(k[d.len() as int] != '/');
                                    }
                                    assert(jd as int == d.len());
                                    assert(d =~= dv);
                                }
                            }
                        }
                    },
                    None => {
                        proof {
                            assert forall|d: Seq<char>|
                                #[trigger] is_folder_under(s.take(i2 + 1), b, p, d) implies exists|t: int|
                                nfiles <= t < out@.len() && (#[trigger] crate::status::status_models(
                                out@,
                            )[t]).0 == d by {
                                let wi = choose|wi: int|
                                    0 <= wi < s.take(i2 + 1).len() && (#[trigger] s.take(i2 + 1)[wi]).bucket == b
                                        && is_prefix_of(d + seq!['/'], s.take(i2 + 1)[wi].key);
                                assert(s.take(i2 + 1)[wi] == s[wi]);
                                if wi < i2 as int {
                                    assert(s.take(i2 as int)[wi] == s[wi]);
                                    assert(is_folder_under(s.take(i2 as int), b, p, d));
                                } else {
                                    let k = s[i2 as int].key;
                                    lemma_prefix_through_dir(p, d, k);
                                    assert(k[d.len() as int] == '/');
                                }
                            }
                        }
                    },
                }
            } else {
                proof {
                    assert forall|d: Seq<char>|
                        #[trigger] is_folder_under(s.take(i2 + 1), b, p, d) implies exists|t: int|
                        nfiles <= t < out@.len() && (#[trigger] crate::status::status_models(
                        out@,
                    )[t]).0 == d by {
                        let wi = choose|wi: int|
                            0 <= wi < s.take(i2 + 1).len() && (#[trigger] s.take(i2 + 1)[wi]).bucket == b
                                && is_prefix_of(d + seq!['/'], s.take(i2 + 1)[wi].key);
                        assert(s.take(i2 + 1)[wi] == s[wi]);
                        if wi < i2 as int {
                            assert(s.take(i2 as int)[wi] == s[wi]);
                            assert(is_folder_under(s.take(i2 as int), b, p, d));
                        } else {
                            let k = s[i2 as int].key;
                            lemma_prefix_through_dir(p, d, k);
                            assert(s[i2 as int].bucket == self.objects@[i2 as int].bucket@);
                            assert(s[i2 as int].key == self.objects@[i2 as int].key@);
                        }
                    }
                }
            }
            i2 += 1;
        }
        proof {
            assert(s.take(s.len() as int) =~= s);
        }
        Ok(out)
    }
}

/// The object a directory marker holds: empty, sealed, durable, not
/// cache-resident.
pub open spec fn marker_obj() -> ObjModel {
    ObjModel {
        data: Seq::empty(),
        metadata: Seq::empty(),
        sealed: true,
        resident: false,
        durable: true,
    }
}

/// `d` is one of the directory levels of `path`: a prefix ending just
/// before a delimiter, or the whole path when it does not end in one.
pub open spec fn is_dir_level(path: Seq<char>, d: Seq<char>) -> bool {
    (exists|j: int| 0 <= j < path.len() && path[j] == '/' && d == path.subrange(0, j)) || (
    path.len() > 0 && path.last() != '/' && d == path)
}

impl GEDS {
    /// Track a directory marker under this key if none exists yet.
    fn ensure_marker(&mut self, bucket: &str, marker_key: String)
        requires
            old(self).wf(),
            old(self).has_bucket(bucket@),
        ensures
            final(self).wf(),
            final(self).same_administration(old(self)),
            final(self).entries() == (if contains_object(
                old(self).entries(),
                bucket@,
                marker_key@,
            ) {
                old(self).entries()
            } else {
                old(self).entries().push(
                    (EntryModel { bucket: bucket@, key: marker_key@, obj: marker_obj() }),
                )
            }),
            contains_object(final(self).entries(), bucket@, marker_key@),
    {
        let ghost s = self.entries();
        match self.find_object(bucket, marker_key.as_str()) {
            Some(_) => {},
            None => {
                let entry = StoredObject {
                    bucket: bucket.to_owned(),
                    key: marker_key,
                    state: ObjectState {
                        data: Vec::new(),
                        metadata: String::new(),
                        sealed: true,
                        resident: false,
                        durable: true,
                    },
                };
                proof {
                    assert(entry.model().obj =~= marker_obj());
                }
                self.objects.push(entry);
                proof {
                    let e = EntryModel { bucket: bucket@, key: entry.key@, obj: marker_obj() };
                    assert(self.entries() =~= s.push(e));
                    lemma_resident_sum_push(s, e);
                    lemma_unique_push(s, e);
                    assert(self.bucket_names() == old(self).bucket_names());
                    assert(self.subs() == old(self).subs());
                    assert(self.store_confs() == old(self).store_confs());
                    assert forall|t: int|
                        0 <= t < self.entries().len() implies self.bucket_names().contains(
                        self.entries()[t].bucket,
                    ) by {
                        if t < s.len() {
                            assert(self.entries()[t] == s[t]);
                        } else {
                            assert(self.entries()[t] == e);
                        }
                    }
                    assert(self.entries()[s.len() as int] == e);
                }
            },
        }
    }

    /// Create a directory recursively: track a sealed, empty directory
    /// marker (`<level>/_$folder$`) for every level of `path`, skipping
    /// levels whose marker already exists.  Everything already tracked is
    /// untouched.  Fails with `InvalidState` outside the started window and
    /// with `NotFound` for an unregistered bucket.
    pub fn mkdirs(&mut self, bucket: &str, path: &str) -> (r: Result<(), GedsError>)
        requires
            old(self).wf(),
        ensures
            final(self).wf(),
            final(self).same_administration(old(self)),
            r is Ok <==> (old(self).is_started() && old(self).has_bucket(bucket@)),
            r is Err ==> final(self).same_state(old(self)) && r->Err_0.kind == (if !old(
                self,
            ).is_started() {
                GedsErrorKind::InvalidState
            } else {
                GedsErrorKind::NotFound
            }),
            r is Ok ==> ({
                let orig = old(self).entries();
                &&& final(self).entries().len() >= orig.len()
                &&& (forall|t: int| 0 <= t < orig.len() ==> final(self).entries()[t] == orig[t])
                &&& (forall|d: Seq<char>|
                    is_dir_level(path@, d) ==> contains_object(
                        final(self).entries(),
                        bucket@,
                        d + marker_suffix(),
                    ))
                &&& (forall|t: int|
                    orig.len() <= t < final(self).entries().len() ==> (exists|d: Seq<char>|
                        is_dir_level(path@, d) && #[trigger] final(self).entries()[t] == (EntryModel {
                            bucket: bucket@,
                            key: d + marker_suffix(),
                            obj: marker_obj(),
                        }) && !contains_object(orig, bucket@, d + marker_suffix())))
            }),
    {
        if !self.started {
            return Err(GedsError::new(GedsErrorKind::InvalidState, "not started".to_owned()));
        }
        if !self.bucket_exists(bucket) {
            return Err(GedsError::new(GedsErrorKind::NotFound, "no such bucket".to_owned()));
        }
        let ghost orig = self.entries();
        let plen = path.unicode_len();
        let mut j: usize = 0;
        while j < plen
            invariant
                self.wf(),
                self.same_administration(&old(self)),
                old(self).is_started(),
                old(self).has_bucket(bucket@),
                self.has_bucket(bucket@),
                orig == old(self).entries(),
                plen == path@.len(),
                j <= plen,
                self.entries().len() >= orig.len(),
                forall|t: int| 0 <= t < orig.len() ==> self.entries()[t] == orig[t],
                forall|t: int|
                    orig.len() <= t < self.entries().len() ==> (exists|d: Seq<char>|
                        is_dir_level(path@, d) && #[trigger] self.entries()[t] == (EntryModel {
                            bucket: bucket@,
                            key: d + marker_suffix(),
                            obj: marker_obj(),
                        }) && !contains_object(orig, bucket@, d + marker_suffix())),
                forall|jx: int|
                    0 <= jx < j && path@[jx] == '/' ==> contains_object(
                        self.entries(),
                        bucket@,
                        path@.subrange(0, jx) + marker_suffix(),
                    ),
            decreases plen - j,
        {
            if path.get_char(j) == '/' {
                let level = path.substring_char(0, j);
                let marker_key = concat_strs(level, marker_suffix_str());
                let ghost pre = self.entries();
                proof {
                    assert(marker_key@ == path@.subrange(0, j as int) + marker_suffix());
                    assert(is_dir_level(path@, path@.subrange(0, j as int)));
                }
                self.ensure_marker(bucket, marker_key);
                proof {
                    assert forall|jx: int|
                        0 <= jx < j && path@[jx] == '/' implies contains_object(
                        self.entries(),
                        bucket@,
                        path@.subrange(0, jx) + marker_suffix(),
                    ) by {
                        let kk = path@.subrange(0, jx) + marker_suffix();
                        assert(contains_object(pre, bucket@, kk));
                        let wi = choose|wi: int|
                            0 <= wi < pre.len() && pre[wi].bucket == bucket@ && pre[wi].key == kk;
                        assert(self.entries()[wi] == pre[wi]);
                    }
                    if !contains_object(pre, bucket@, path@.subrange(0, j as int)
                        + marker_suffix()) {
                        assert(self.entries()[pre.len() as int] == (EntryModel {
                            bucket: bucket@,
                            key: path@.subrange(0, j as int) + marker_suffix(),
                            obj: marker_obj(),
                        }));
                        if contains_object(orig, bucket@, path@.subrange(0, j as int)
                            + marker_suffix()) {
                            let wi = index_of_object(
                                orig,
                                bucket@,
                                path@.subrange(0, j as int) + marker_suffix(),
                            );
                            lemma_object_index_unique(
                                orig,
                                bucket@,
                                path@.subrange(0, j as int) + marker_suffix(),
                                wi,
                            );
                            assert(pre[wi] == orig[wi]);
                            assert(contains_object(
                                pre,
                                bucket@,
                                path@.subrange(0, j as int) + marker_suffix(),
                            ));
                        }
                    }
                }
            }
            j += 1;
        }
        if plen > 0 && path.get_char(plen - 1) != '/' {
            let marker_key = concat_strs(path, marker_suffix_str());
            let ghost pre = self.entries();
            proof {
                assert(marker_key@ == path@ + marker_suffix());
                assert(path@.last() == path@[plen - 1]);
                assert(is_dir_level(path@, path@));
            }
            self.ensure_marker(bucket, marker_key);
            proof {
                assert forall|jx: int|
                    0 <= jx < plen && path@[jx] == '/' implies contains_object(
                    self.entries(),
                    bucket@,
                    path@.subrange(0, jx) + marker_suffix(),
                ) by {
                    let kk = path@.subrange(0, jx) + marker_suffix();
                    assert(contains_object(pre, bucket@, kk));
                    let wi = choose|wi: int|
                        0 <= wi < pre.len() && pre[wi].bucket == bucket@ && pre[wi].key == kk;
                    assert(self.entries()[wi] == pre[wi]);
                }
                if !contains_object(pre, bucket@, path@ + marker_suffix()) {
                    assert(self.entries()[pre.len() as int] == (EntryModel {
                        bucket: bucket@,
                        key: path@ + marker_suffix(),
                        obj: marker_obj(),
                    }));
                    if contains_object(orig, bucket@, path@ + marker_suffix()) {
                        let wi = index_of_object(orig, bucket@, path@ + marker_suffix());
                        lemma_object_index_unique(orig, bucket@, path@ + marker_suffix(), wi);
                        assert(pre[wi] == orig[wi]);
                        assert(contains_object(pre, bucket@, path@ + marker_suffix()));
                    }
                }
            }
        }
        proof {
            assert forall|d: Seq<char>| is_dir_level(path@, d) implies contains_object(
                self.entries(),
                bucket@,
                d + marker_suffix(),
            ) by {
                if exists|jx: int| 0 <= jx < path@.len() && path@[jx] == '/' && d
                    == path@.subrange(0, jx) {
                    let jx = choose|jx: int|
                        0 <= jx < path@.len() && path@[jx] == '/' && d == path@.subrange(0, jx);
                    assert(contains_object(
                        self.entries(),
                        bucket@,
                        path@.subrange(0, jx) + marker_suffix(),
                    ));
                } else {
                    assert(path@.len() > 0 && path@.last() != '/' && d == path@);
                }
            }
        }
        Ok(())
    }
}

/// A handle to one object: its identity within the client.  All I/O goes
/// through the client that created or opened the handle; a handle whose
/// object has been deleted or renamed away reports `NotFound`.
#[derive(Debug)]
pub struct GEDSFile {
    bucket: String,
    key: String,
}

impl GEDSFile {
    /// The bucket this handle refers to.
    pub closed spec fn spec_bucket(&self) -> Seq<char> {
        self.bucket@
    }

    /// The key this handle refers to.
    pub closed spec fn spec_key(&self) -> Seq<char> {
        self.key@
    }

    /// The handle's identity as `bucket/key`.
    pub fn identifier(&self) -> (r: String)
        ensures
            r@ == self.spec_bucket() + "/"@ + self.spec_key(),
    {
        let mut r = self.bucket.clone();
        r.append("/");
        r.append(self.key.as_str());
        r
    }

    /// The current size of the object, or zero for an untracked object.
    pub fn size(&self, geds: &GEDS) -> (r: usize)
        requires
            geds.wf(),
        ensures
            r as int == (if contains_object(geds.entries(), self.spec_bucket(), self.spec_key()) {
                object_at(geds.entries(), self.spec_bucket(), self.spec_key()).data.len() as int
            } else {
                0
            }),
    {
        match geds.find_object(self.bucket.as_str(), self.key.as_str()) {
            Some(i) => geds.objects[i].state.data.len(),
            None => 0,
        }
    }

    /// Whether the object still accepts writes: tracked and not sealed.
    pub fn is_writeable(&self, geds: &GEDS) -> (r: bool)
        requires
            geds.wf(),
        ensures
            r == (contains_object(geds.entries(), self.spec_bucket(), self.spec_key())
                && !object_at(geds.entries(), self.spec_bucket(), self.spec_key()).sealed),
    {
        match geds.find_object(self.bucket.as_str(), self.key.as_str()) {
            Some(i) => !geds.objects[i].state.sealed,
            None => false,
        }
    }

    /// The object's metadata string, or the empty string for an untracked
    /// object.
    pub fn metadata(&self, geds: &GEDS) -> (r: String)
        requires
            geds.wf(),
        ensures
            r@ == (if contains_object(geds.entries(), self.spec_bucket(), self.spec_key()) {
                object_at(geds.entries(), self.spec_bucket(), self.spec_key()).metadata
            } else {
                Seq::<char>::empty()
            }),
    {
        match geds.find_object(self.bucket.as_str(), self.key.as_str()) {
            Some(i) => geds.objects[i].state.metadata.clone(),
            None => String::new(),
        }
    }

    /// Write `length` bytes of `buffer` at `position`, growing the object as
    /// needed; the gap between the old end and `position` reads as zero.
    /// The staged bytes are cache-resident: if they exceed the combined
    /// budget, durable entries are evicted first, and if that cannot make
    /// room the write fails with `ResourceExhausted` and changes no content.
    /// Fails with `InvalidState` when not started or sealed, `NotFound` for
    /// an untracked object, and `OutOfRange` when `length` exceeds the
    /// buffer or the range overflows the addressable space.
    pub fn write(&self, geds: &mut GEDS, buffer: &Vec<u8>, position: usize, length: usize) -> (r:
        Result<(), GedsError>)
        requires
            old(geds).wf(),
        ensures
            final(geds).wf(),
            final(geds).same_administration(old(geds)),
            resident_sum(final(geds).entries()) <= final(geds).budget(),
            ({
                let s = old(geds).entries();
                let b = self.spec_bucket();
                let k = self.spec_key();
                let i = index_of_object(s, b, k);
                let args_ok = length <= buffer.len() && position + length <= usize::MAX;
                let nl = int_max(
                    object_at(s, b, k).data.len() as int,
                    position + length,
                );
                let w = written_entry(s[i], position as int, buffer@.take(length as int));
                &&& (r is Ok <==> can_mutate(old(geds), b, k) && args_ok && content_fits(
                    s,
                    i,
                    nl,
                    old(geds).budget(),
                ))
                &&& (r is Ok ==> final(geds).entries() == (if content_fits_in_place(
                    s,
                    i,
                    nl,
                    old(geds).budget(),
                ) {
                    s.update(i, w)
                } else {
                    evict_others(s, i).update(i, w)
                }))
                &&& (r is Err ==> r->Err_0.kind == (if !can_mutate(old(geds), b, k) {
                    mutate_gate_kind(old(geds), b, k)
                } else if !args_ok {
                    GedsErrorKind::OutOfRange
                } else {
                    GedsErrorKind::ResourceExhausted
                }))
                &&& (r is Err && !(can_mutate(old(geds), b, k) && args_ok)
                    ==> final(geds).entries() == s)
                &&& (r is Err && can_mutate(old(geds), b, k) && args_ok ==> final(geds).entries()
                    == evict_others(s, i))
            }),
    {
        if !geds.started {
            return Err(GedsError::new(GedsErrorKind::InvalidState, "not started".to_owned()));
        }
        let ghost s = geds.entries();
        let i = match geds.find_object(self.bucket.as_str(), self.key.as_str()) {
            Some(i) => i,
            None => {
                return Err(
                    GedsError::new(GedsErrorKind::NotFound, "object not found".to_owned()),
                );
            },
        };
        if geds.objects[i].state.sealed {
            return Err(GedsError::new(GedsErrorKind::InvalidState, "object is sealed".to_owned()));
        }
        if length > buffer.len() {
            return Err(
                GedsError::new(GedsErrorKind::OutOfRange, "length exceeds buffer".to_owned()),
            );
        }
        let end = match position.checked_add(length) {
            Some(e) => e,
            None => {
                return Err(
                    GedsError::new(GedsErrorKind::OutOfRange, "range overflows".to_owned()),
                );
            },
        };
        let old_len = geds.objects[i].state.data.len();
        let new_len = if old_len >= end {
            old_len
        } else {
            end
        };
        if !geds.reserve_for(i, new_len) {
            return Err(
                GedsError::new(GedsErrorKind::ResourceExhausted, "cache budget exceeded".to_owned()),
            );
        }
        let ghost mid = geds.entries();
        let w = if geds.objects[i].state.resident {
            geds.objects[i].state.data.len()
        } else {
            0
        };
        proof {
            lemma_resident_weight_le_sum(mid, i as int);
            lemma_resident_sum_nonneg(mid);
            assert(w as int == resident_weight(mid[i as int]));
        }
        let mut o = geds.objects.remove(i);
        splice_into(&mut o.state.data, position, buffer, length);
        o.state.resident = true;
        o.state.durable = false;
        geds.objects.insert(i, o);
        geds.resident_total = geds.resident_total - w + new_len;
        proof {
            let e = written_entry(s[i as int], position as int, buffer@.take(length as int));
            assert(mid[i as int] == s[i as int]);
            assert(geds.entries() =~= mid.update(i as int, e));
            assert(e.obj.data.len() == new_len);
            lemma_resident_sum_update(mid, i as int, e);
            lemma_unique_update(mid, i as int, e);
            lemma_resident_sum_nonneg(geds.entries());
            assert(geds.bucket_names() == old(geds).bucket_names());
            assert(geds.subs() == old(geds).subs());
            assert(geds.store_confs() == old(geds).store_confs());
            assert forall|t: int|
                0 <= t < geds.entries().len() implies geds.bucket_names().contains(
                geds.entries()[t].bucket,
            ) by {
                if t != i {
                    assert(geds.entries()[t] == mid[t]);
                }
            }
        }
        Ok(())
    }

    /// Shrink or grow the object to `size` bytes; growth is zero-filled and
    /// any cached bytes beyond the new size are discarded for good.  Budget
    /// handling and failure kinds are as for `write`, without the
    /// `OutOfRange` case.
    pub fn truncate(&self, geds: &mut GEDS, size: usize) -> (r: Result<(), GedsError>)
        requires
            old(geds).wf(),
        ensures
            final(geds).wf(),
            final(geds).same_administration(old(geds)),
            resident_sum(final(geds).entries()) <= final(geds).budget(),
            ({
                let s = old(geds).entries();
                let b = self.spec_bucket();
                let k = self.spec_key();
                let i = index_of_object(s, b, k);
                let t = truncated_entry(s[i], size as int);
                &&& (r is Ok <==> can_mutate(old(geds), b, k) && content_fits(
                    s,
                    i,
                    size as int,
                    old(geds).budget(),
                ))
                &&& (r is Ok ==> final(geds).entries() == (if content_fits_in_place(
                    s,
                    i,
                    size as int,
                    old(geds).budget(),
                ) {
                    s.update(i, t)
                } else {
                    evict_others(s, i).update(i, t)
                }))
                &&& (r is Err ==> r->Err_0.kind == (if !can_mutate(old(geds), b, k) {
                    mutate_gate_kind(old(geds), b, k)
                } else {
                    GedsErrorKind::ResourceExhausted
                }))
                &&& (r is Err && !can_mutate(old(geds), b, k) ==> final(geds).entries() == s)
                &&& (r is Err && can_mutate(old(geds), b, k) ==> final(geds).entries()
                    == evict_others(s, i))
            }),
    {
        if !geds.started {
            return Err(GedsError::new(GedsErrorKind::InvalidState, "not started".to_owned()));
        }
        let ghost s = geds.entries();
        let i = match geds.find_object(self.bucket.as_str(), self.key.as_str()) {
            Some(i) => i,
            None => {
                return Err(
                    GedsError::new(GedsErrorKind::NotFound, "object not found".to_owned()),
                );
            },
        };
        if geds.objects[i].state.sealed {
            return Err(GedsError::new(GedsErrorKind::InvalidState, "object is sealed".to_owned()));
        }
        if !geds.reserve_for(i, size) {
            return Err(
                GedsError::new(GedsErrorKind::ResourceExhausted, "cache budget exceeded".to_owned()),
            );
        }
        let ghost mid = geds.entries();
        let w = if geds.objects[i].state.resident {
            geds.objects[i].state.data.len()
        } else {
            0
        };
        proof {
            lemma_resident_weight_le_sum(mid, i as int);
            lemma_resident_sum_nonneg(mid);
            assert(w as int == resident_weight(mid[i as int]));
        }
        let mut o = geds.objects.remove(i);
        resize_to(&mut o.state.data, size);
        o.state.resident = true;
        o.state.durable = false;
        geds.objects.insert(i, o);
        geds.resident_total = geds.resident_total - w + size;
        proof {
            let e = truncated_entry(s[i as int], size as int);
            assert(mid[i as int] == s[i as int]);
            assert(geds.entries() =~= mid.update(i as int, e));
            assert(e.obj.data.len() == size);
            lemma_resident_sum_update(mid, i as int, e);
            lemma_unique_update(mid, i as int, e);
            lemma_resident_sum_nonneg(geds.entries());
            assert(geds.bucket_names() == old(geds).bucket_names());
            assert(geds.subs() == old(geds).subs());
            assert(geds.store_confs() == old(geds).store_confs());
            assert forall|t: int|
                0 <= t < geds.entries().len() implies geds.bucket_names().contains(
                geds.entries()[t].bucket,
            ) by {
                if t != i {
                    assert(geds.entries()[t] == mid[t]);
                }
            }
        }
        Ok(())
    }

    /// Read up to `length` bytes at `position` into `buffer`, replacing its
    /// contents; returns how many bytes were read, which is less than
    /// `length` only at end-of-file.  Bytes inside the object that were
    /// never written read as zero.  Legal in both lifecycle states.  Fails
    /// with `InvalidState` when not started, `NotFound` for an untracked
    /// object, and `OutOfRange` when `position` lies beyond the object.
    pub fn read(&self, geds: &GEDS, buffer: &mut Vec<u8>, position: usize, length: usize) -> (r:
        Result<usize, GedsError>)
        requires
            geds.wf(),
        ensures
            ({
                let b = self.spec_bucket();
                let k = self.spec_key();
                let d = object_at(geds.entries(), b, k).data;
                &&& (r is Ok <==> (geds.is_started() && contains_object(geds.entries(), b, k)
                    && position <= d.len()))
                &&& (r is Ok ==> r->Ok_0 as int == read_len(d, position as int, length as int)
                    && final(buffer)@ == read_window(d, position as int, length as int))
                &&& (r is Err ==> final(buffer)@ == old(buffer)@ && r->Err_0.kind == (if !geds
                    .is_started() {
                    GedsErrorKind::InvalidState
                } else if !contains_object(geds.entries(), b, k) {
                    GedsErrorKind::NotFound
                } else {
                    GedsErrorKind::OutOfRange
                }))
            }),
    {
        if !geds.started {
            return Err(GedsError::new(GedsErrorKind::InvalidState, "not started".to_owned()));
        }
        let i = match geds.find_object(self.bucket.as_str(), self.key.as_str()) {
            Some(i) => i,
            None => {
                return Err(
                    GedsError::new(GedsErrorKind::NotFound, "object not found".to_owned()),
                );
            },
        };
        if position > geds.objects[i].state.data.len() {
            return Err(
                GedsError::new(GedsErrorKind::OutOfRange, "position beyond end".to_owned()),
            );
        }
        let n = read_into(&geds.objects[i].state.data, position, length, buffer);
        Ok(n)
    }

    /// Seal the object: its size and metadata become immutable and it is
    /// visible to listing and status queries with a durable size.  Sealing
    /// an already sealed object fails with `InvalidState`, as does sealing
    /// outside the started window; an untracked object reports `NotFound`.
    pub fn seal(&self, geds: &mut GEDS) -> (r: Result<(), GedsError>)
        requires
            old(geds).wf(),
        ensures
            final(geds).wf(),
            final(geds).same_administration(old(geds)),
            ({
                let s = old(geds).entries();
                let b = self.spec_bucket();
                let k = self.spec_key();
                let i = index_of_object(s, b, k);
                &&& (r is Ok <==> can_mutate(old(geds), b, k))
                &&& (r is Ok ==> final(geds).entries() == s.update(i, sealed_entry(s[i])))
                &&& (r is Err ==> final(geds).entries() == s && r->Err_0.kind == mutate_gate_kind(
                    old(geds),
                    b,
                    k,
                ))
            }),
    {
        if !geds.started {
            return Err(GedsError::new(GedsErrorKind::InvalidState, "not started".to_owned()));
        }
        let ghost s = geds.entries();
        let i = match geds.find_object(self.bucket.as_str(), self.key.as_str()) {
            Some(i) => i,
            None => {
                return Err(
                    GedsError::new(GedsErrorKind::NotFound, "object not found".to_owned()),
                );
            },
        };
        if geds.objects[i].state.sealed {
            return Err(
                GedsError::new(GedsErrorKind::InvalidState, "object already sealed".to_owned()),
            );
        }
        let mut o = geds.objects.remove(i);
        o.state.sealed = true;
        geds.objects.insert(i, o);
        proof {
            let e = sealed_entry(s[i as int]);
            assert(geds.entries() =~= s.update(i as int, e));
            lemma_resident_sum_update(s, i as int, e);
            lemma_unique_update(s, i as int, e);
            assert(geds.bucket_names() == old(geds).bucket_names());
            assert(geds.subs() == old(geds).subs());
            assert(geds.store_confs() == old(geds).store_confs());
            assert forall|t: int|
                0 <= t < geds.entries().len() implies geds.bucket_names().contains(
                geds.entries()[t].bucket,
            ) by {
                if t != i {
                    assert(geds.entries()[t] == s[t]);
                }
            }
        }
        Ok(())
    }

    /// Replace the object's metadata string and, when `seal` is set, seal it
    /// in the same call.  Fails exactly as `seal` does; metadata of a sealed
    /// object is immutable.
    pub fn set_metadata(&self, geds: &mut GEDS, metadata: &str, seal: bool) -> (r: Result<
        (),
        GedsError,
    >)
        requires
            old(geds).wf(),
        ensures
            final(geds).wf(),
            final(geds).same_administration(old(geds)),
            ({
                let s = old(geds).entries();
                let b = self.spec_bucket();
                let k = self.spec_key();
                let i = index_of_object(s, b, k);
                &&& (r is Ok <==> can_mutate(old(geds), b, k))
                &&& (r is Ok ==> final(geds).entries() == s.update(
                    i,
                    metadata_entry(s[i], metadata@, seal),
                ))
                &&& (r is Err ==> final(geds).entries() == s && r->Err_0.kind == mutate_gate_kind(
                    old(geds),
                    b,
                    k,
                ))
            }),
    {
        if !geds.started {
            return Err(GedsError::new(GedsErrorKind::InvalidState, "not started".to_owned()));
        }
        let ghost s = geds.entries();
        let i = match geds.find_object(self.bucket.as_str(), self.key.as_str()) {
            Some(i) => i,
            None => {
                return Err(
                    GedsError::new(GedsErrorKind::NotFound, "object not found".to_owned()),
                );
            },
        };
        if geds.objects[i].state.sealed {
            return Err(
                GedsError::new(GedsErrorKind::InvalidState, "object already sealed".to_owned()),
            );
        }
        let mut o = geds.objects.remove(i);
        o.state.metadata = metadata.to_owned();
        o.state.sealed = seal;
        geds.objects.insert(i, o);
        proof {
            let e = metadata_entry(s[i as int], metadata@, seal);
            assert(geds.entries() =~= s.update(i as int, e));
            lemma_resident_sum_update(s, i as int, e);
            lemma_unique_update(s, i as int, e);
            assert(geds.bucket_names() == old(geds).bucket_names());
            assert(geds.subs() == old(geds).subs());
            assert(geds.store_confs() == old(geds).store_confs());
            assert forall|t: int|
                0 <= t < geds.entries().len() implies geds.bucket_names().contains(
                geds.entries()[t].bucket,
            ) by {
                if t != i {
                    assert(geds.entries()[t] == s[t]);
                }
            }
        }
        Ok(())
    }
}

} // verus!
