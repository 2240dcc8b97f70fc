//! The database: the store, the schema, and what is kept beside them.

use vstd::prelude::*;

use crate::bytes::EntityId;
use crate::catalog::{Catalog, EntityDef, EntityDefView, SchemaView};
use crate::error::{DbError, ErrorView};
use crate::query::executor::{bumped, no_queries, QueryCounters};
use crate::query::plan_cache::{CacheView, PlanCache};
use crate::query::statistics::{with_count, TableStatistics};
use crate::server::changelog::{ChangeLog, ChangeView};
use crate::storage::engine::{found_view, StorageConfig, StorageEngine};
use crate::storage::hash_index::ids_view;
use crate::storage::laws::law_id_unique;
use crate::storage::model::{id_of, own_places, scan_batch_outcome, StoreView};
use crate::storage::record::Record;

verus! {

/// The database.
pub struct Database {
    /// The store.
    pub storage: StorageEngine,
    /// The schema.
    pub catalog: Catalog,
    /// How many entities there are.
    pub statistics: TableStatistics,
    /// When all of them were last counted, in microseconds.
    pub counted_at: Option<u64>,
    /// The plans that are kept.
    pub plan_cache: PlanCache,
    /// What queries have done.
    pub counters: QueryCounters,
    /// The log of changes.
    pub changelog: ChangeLog,
    /// The number of the next identifier that is given out.
    pub next_id: u64,
}

/// The database in mathematical terms.
pub ghost struct DbView {
    /// The store.
    pub store: StoreView,
    /// The schema.
    pub schema: SchemaView,
    /// How many entities there are.
    pub statistics: Seq<(Seq<char>, u64)>,
    /// When all of them were last counted, in microseconds.
    pub counted_at: Option<u64>,
    /// The plans that are kept.
    pub plan_cache: CacheView,
    /// What queries have done.
    pub counters: QueryCounters,
    /// The log of changes.
    pub changelog: Seq<ChangeView>,
    /// The number of the next identifier that is given out.
    pub next_id: u64,
}

impl View for Database {
    type V = DbView;

    open spec fn view(&self) -> DbView {
        DbView {
            store: self.storage@,
            schema: self.catalog@,
            statistics: self.statistics@,
            counted_at: self.counted_at,
            plan_cache: self.plan_cache@,
            counters: self.counters,
            changelog: self.changelog@,
            next_id: self.next_id,
        }
    }
}

/// Whether what is known of the number of entities is older than it may be.
pub open spec fn db_stale(db: DbView, now: u64, max_age: u64) -> bool {
    match db.counted_at {
        Some(at) => now >= at + max_age,
        None => true,
    }
}

/// How many entities there are in the store of each type of a schema.
pub open spec fn recounted(store: StoreView, entities: Seq<EntityDefView>) -> Result<
    Seq<(Seq<char>, u64)>,
    ErrorView,
>
    decreases entities.len(),
{
    if entities.len() == 0 {
        Ok(Seq::empty())
    } else {
        match recounted(store, entities.drop_last()) {
            Err(e) => Err(e),
            Ok(counts) => match scan_batch_outcome(store, entities.last().name) {
                Err(e) => Err(e),
                Ok(found) => Ok(with_count(counts, entities.last().name, found.len() as u64)),
            },
        }
    }
}

/// Whether the entities were counted again, where that was due. They are, unless they
/// cannot be read.
pub open spec fn refreshed(
    r: Result<(), DbError>,
    before: DbView,
    after: DbView,
    now: u64,
    max_age: u64,
) -> bool {
    let counted = recounted(before.store, before.schema.entities);
    if db_stale(before, now, max_age) {
        &&& match r {
            Ok(_) => counted matches Ok(counts) && after == (DbView {
                statistics: counts,
                counted_at: Some(now),
                ..before
            }),
            Err(e) => after == before && (e@ is Storage || counted == Err::<
                Seq<(Seq<char>, u64)>,
                ErrorView,
            >(e@)),
        }
        &&& before.schema.entities.len() == 0 ==> r is Ok
    } else {
        r is Ok && after == before
    }
}

proof fn lemma_recount_fails(store: StoreView, entities: Seq<EntityDefView>, n: int)
    requires
        0 <= n <= entities.len(),
        recounted(store, entities.take(n)) is Err,
    ensures
        recounted(store, entities) == recounted(store, entities.take(n)),
    decreases entities.len() - n,
{
    if n == entities.len() {
        assert(entities.take(n) =~= entities);
    } else {
        assert(entities.take(n + 1).drop_last() =~= entities.take(n));
        lemma_recount_fails(store, entities, n + 1);
    }
}

/// The number of the identifier that is given out next, after so many more.
pub open spec fn next_after(n: u64, count: nat) -> u64
    decreases count,
{
    if count == 0 {
        n
    } else {
        bumped(next_after(n, (count - 1) as nat))
    }
}

/// Whether an identifier was given out under a number, at some time.
pub open spec fn is_given_out(id: Seq<u8>, n: u64) -> bool {
    exists|now: u64| id == #[trigger] id_of(now, n)
}

/// Whether identifiers were given out one after the other, from a number on.
pub open spec fn given_out(ids: Seq<Seq<u8>>, first: u64) -> bool {
    forall|k: int|
        0 <= k < ids.len() ==> is_given_out(#[trigger] ids[k], next_after(first, k as nat))
}

/// Calls `std::time::SystemTime::now` and gives the nanoseconds since the epoch,
/// as far as 64 bits hold them. Nothing is claimed of the result: it is the
/// machine's time.
#[verifier::external_body]
fn nanoseconds() -> (n: u64) {
    let since = std::time::SystemTime::now().duration_since(std::time::UNIX_EPOCH);
    since.unwrap_or_default().as_nanos() as u64
}

impl Database {
    /// Opens the database in a directory, without a schema.
    pub fn open(path: &str) -> (r: Result<Database, DbError>)
        ensures
            match r {
                Ok(db) => {
                    &&& db@.store.path == Some(path@)
                    &&& db@.store.places == own_places(Some(path@))
                    &&& db@.store.watermark == 0
                    &&& !db@.store.projection_stale
                    &&& db@.store.btree is Some
                    &&& db@.schema == (SchemaView {
                        version: 0,
                        entities: Seq::empty(),
                        relations: Seq::empty(),
                    })
                    &&& db@.changelog == Seq::<ChangeView>::empty()
                    &&& db@.statistics == Seq::<(Seq<char>, u64)>::empty()
                    &&& db@.counted_at is None
                    &&& db@.counters == no_queries()
                    &&& db@.next_id == 0
                    &&& db@.plan_cache == (CacheView {
                        plans: Seq::empty(),
                        capacity: 1000,
                        evictions: 0,
                    })
                },
                Err(e) => e@ is Storage,
            },
    {
        let storage: StorageEngine = StorageEngine::open(StorageConfig::new(path))?;
        Ok(
            Database {
                storage,
                catalog: Catalog::new(),
                statistics: TableStatistics::new(),
                counted_at: None,
                plan_cache: PlanCache::new(1000),
                counters: QueryCounters::new(),
                changelog: ChangeLog::new(),
                next_id: 0,
            },
        )
    }

    /// The version of the schema in force.
    pub fn schema_version(&self) -> (v: u64)
        ensures
            v == self@.schema.version,
    {
        self.catalog.current_version()
    }

    fn recount(&self) -> (r: Result<TableStatistics, DbError>)
        ensures
            match r {
                Ok(counts) => recounted(self@.store, self@.schema.entities) == Ok::<
                    Seq<(Seq<char>, u64)>,
                    ErrorView,
                >(counts@),
                Err(e) => e@ is Storage || recounted(self@.store, self@.schema.entities) == Err::<
                    Seq<(Seq<char>, u64)>,
                    ErrorView,
                >(e@),
            },
            self@.schema.entities.len() == 0 ==> r is Ok,
    {
        let ghost all = self@.schema.entities;
        let mut counts: TableStatistics = TableStatistics::new();
        let types: &Vec<EntityDef> = &self.catalog.current_schema().entities;
        assert(all =~= types@.map_values(|e: EntityDef| e@));
        let mut i: usize = 0;
        assert(all.take(0) =~= Seq::<EntityDefView>::empty());
        while i < types.len()
            invariant
                i <= types@.len(),
                all == self@.schema.entities,
                all == types@.map_values(|e: EntityDef| e@),
                recounted(self@.store, all.take(i as int)) == Ok::<
                    Seq<(Seq<char>, u64)>,
                    ErrorView,
                >(counts@),
            decreases types@.len() - i,
        {
            proof {
                assert(all[i as int] == types@[i as int]@);
                assert(all.take(i + 1).drop_last() =~= all.take(i as int));
                assert(all.take(i + 1).last() == all[i as int]);
                if recounted(self@.store, all.take(i + 1)) is Err {
                    lemma_recount_fails(self@.store, all, i + 1);
                }
            }
            let found: Vec<(EntityId, u64, Record)> = self.storage.scan_entity_type_batch(
                types[i].name.as_str(),
            )?;
            assert(found_view(found@).len() == found@.len());
            counts.set(types[i].name.as_str(), found.len() as u64);
            i = i + 1;
        }
        assert(all.take(all.len() as int) =~= all);
        Ok(counts)
    }

    /// Counts the entities of each type again, where the last time was so long ago.
    pub fn refresh_statistics_if_stale(&mut self, now: u64, max_age: u64) -> (r: Result<
        (),
        DbError,
    >)
        ensures
            refreshed(r, old(self)@, final(self)@, now, max_age),
    {
        let stale: bool = match self.counted_at {
            Some(at) => now as u128 >= at as u128 + max_age as u128,
            None => true,
        };
        if stale {
            self.statistics = self.recount()?;
            self.counted_at = Some(now);
        }
        Ok(())
    }

    /// Gives out an identifier.
    pub fn fresh_id(&mut self) -> (id: EntityId)
        ensures
            is_given_out(id@, old(self)@.next_id),
            final(self)@ == (DbView { next_id: bumped(old(self)@.next_id), ..old(self)@ }),
    {
        let n: u64 = self.next_id;
        self.next_id = if n == u64::MAX {
            0
        } else {
            n + 1
        };
        StorageEngine::generate_id(nanoseconds(), n)
    }

    /// Gives out so many identifiers.
    pub fn fresh_ids(&mut self, count: usize) -> (ids: Vec<EntityId>)
        ensures
            ids@.len() == count,
            given_out(ids_view(ids@), old(self)@.next_id),
            final(self)@ == (DbView {
                next_id: next_after(old(self)@.next_id, count as nat),
                ..old(self)@
            }),
    {
        let mut ids: Vec<EntityId> = Vec::new();
        let mut i: usize = 0;
        while i < count
            invariant
                i <= count,
                ids@.len() == i,
                given_out(ids_view(ids@), old(self)@.next_id),
                self@ == (DbView {
                    next_id: next_after(old(self)@.next_id, i as nat),
                    ..old(self)@
                }),
            decreases count - i,
        {
            let ghost before = ids_view(ids@);
            let id: EntityId = self.fresh_id();
            ids.push(id);
            proof {
                assert(ids_view(ids@) =~= before.push(id@));
                assert forall|k: int| 0 <= k < ids_view(ids@).len() implies is_given_out(
                    #[trigger] ids_view(ids@)[k],
                    next_after(old(self)@.next_id, k as nat),
                ) by {
                    if k < before.len() {
                        assert(before[k] == ids_view(ids@)[k]);
                    }
                }
            }
            i = i + 1;
        }
        ids
    }
}

proof fn lemma_next_after(n: u64, count: nat)
    ensures
        next_after(n, count) == (n + count) % 0x1_0000_0000_0000_0000,
    decreases count,
{
    if count > 0 {
        lemma_next_after(n, (count - 1) as nat);
    }
}

/// Identifiers that are given out one after the other differ, until the counter has
/// gone all the way round.
pub proof fn law_given_out_differ(ids: Seq<Seq<u8>>, first: u64, i: int, j: int)
    requires
        given_out(ids, first),
        0 <= i < j < ids.len(),
        j - i < 0x1_0000_0000_0000_0000,
    ensures
        ids[i] != ids[j],
{
    lemma_next_after(first, i as nat);
    lemma_next_after(first, j as nat);
    let a = next_after(first, i as nat);
    let b = next_after(first, j as nat);
    let at = choose|now: u64| ids[i] == #[trigger] id_of(now, a);
    let then = choose|now: u64| ids[j] == #[trigger] id_of(now, b);
    assert(is_given_out(ids[i], a) && is_given_out(ids[j], b));
    law_id_unique(at, a, then, b);
}

} // verus!
