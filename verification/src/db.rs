//! The database manager: a catalogue of named stores, a meta-database
//! mirroring it, per-record expiry, and deferred reclamation.

use vstd::prelude::*;
use vstd::slice::slice_to_vec;
use vstd::string::*;

use crate::config::{path_of, DbConfig};
use crate::conversion::{
    current_ms, decode_spec, encode_spec, lemma_codec_round_trip, str_eq, Conversion, FromBytes,
    IntoBytes,
};
use crate::errors::DbError;
use crate::strmap::StrMap;

verus! {

/// Result of a store operation.
pub type DbResult<T> = Result<T, DbError>;

/// A stored record: an expiry stamp and an opaque payload.
///
/// `ttl` is an absolute wall-clock millisecond timestamp; `0` means the
/// record never expires.
#[derive(Debug)]
pub struct Data {
    ttl: u128,
    data: Vec<u8>,
}

impl View for Data {
    type V = (u128, Seq<u8>);

    closed spec fn view(&self) -> (u128, Seq<u8>) {
        (self.ttl, self.data@)
    }
}

impl Data {
    /// Build a record from its expiry stamp and payload.
    pub fn new(ttl: u128, data: Vec<u8>) -> (r: Self)
        ensures
            r@ == (ttl, data@),
    {
        Data { ttl, data }
    }

    /// The expiry stamp of this record.
    pub fn ttl(&self) -> (r: u128)
        ensures
            r == self@.0,
    {
        self.ttl
    }

    /// The payload of this record.
    pub fn payload(&self) -> (r: &Vec<u8>)
        ensures
            r@ == self@.1,
    {
        &self.data
    }

    /// Surrender the payload of this record.
    pub fn into_payload(self) -> (r: Vec<u8>)
        ensures
            r@ == self@.1,
    {
        self.data
    }
}

/// A record whose expiry stamp is `ttl` is expired at wall-clock time
/// `now` (milliseconds since the epoch) exactly when the stamp is
/// non-zero and strictly in the past; `ttl == 0` never expires and
/// `ttl == now` is still live.
pub open spec fn expired_at(ttl: u128, now: u128) -> bool {
    ttl != 0 && ttl < now
}

/// Decide expiry of a record stamp `ttl` against the clock reading `now`.
pub fn is_expired_at(ttl: u128, now: u128) -> (r: bool)
    ensures
        r == expired_at(ttl, now),
{
    ttl != 0 && ttl < now
}

/// Decide expiry of a record stamp against the wall clock.
///
/// A stamp of `0` never consults the clock and is never expired; for any
/// other stamp a clock failure is reported as a conversion error.
pub fn is_expired(ttl: u128) -> (r: Conversion<bool>)
    ensures
        ttl == 0 ==> r == Ok::<bool, DbError>(false),
        r matches Ok(b) && b ==> ttl != 0,
        r matches Err(e) ==> e matches DbError::Conversion(_) && ttl != 0,
{
    if ttl == 0 {
        Ok(false)
    } else {
        match current_ms() {
            Ok(now) => Ok(is_expired_at(ttl, now)),
            Err(e) => Err(e),
        }
    }
}

/// Whether the pairs `ps` are a faithful snapshot of the record store
/// `m`: every pair is in the store, every stored key is among the
/// pairs, and no key appears twice.
pub open spec fn blob_snapshot_of(ps: Seq<(String, Vec<u8>)>, m: Map<Seq<char>, Seq<u8>>) -> bool {
    &&& forall|i: int|
        0 <= i < ps.len() ==> m.contains_key(#[trigger] ps[i].0@) && m[ps[i].0@] == ps[i].1@
    &&& forall|k: Seq<char>| #[trigger]
        m.contains_key(k) ==> exists|i: int| 0 <= i < ps.len() && ps[i].0@ == k
    &&& forall|i: int, j: int| 0 <= i < j < ps.len() ==> ps[i].0@ != ps[j].0@
}

/// The record store `m` after the pairs `ps` are written into it, front
/// to back.
pub open spec fn blob_pairs_fold(
    m: Map<Seq<char>, Seq<u8>>,
    ps: Seq<(String, Vec<u8>)>,
) -> Map<Seq<char>, Seq<u8>>
    decreases ps.len(),
{
    if ps.len() == 0 {
        m
    } else {
        blob_pairs_fold(m.insert(ps.first().0@, ps.first().1@), ps.drop_first())
    }
}

/// One tenant store: the engine instance behind a database name.
///
/// Its abstraction is the mapping from keys to the stored record blobs.
pub struct Db {
    store: StrMap<Vec<u8>>,
}

impl View for Db {
    type V = Map<Seq<char>, Seq<u8>>;

    closed spec fn view(&self) -> Map<Seq<char>, Seq<u8>> {
        Map::new(|k: Seq<char>| self.store@.contains_key(k), |k: Seq<char>| self.store@[k]@)
    }
}

impl Db {
    pub closed spec fn wf(self) -> bool {
        self.store.wf()
    }

    /// A fresh, empty store.
    pub fn new() -> (r: Db)
        ensures
            r.wf(),
            r@ == Map::<Seq<char>, Seq<u8>>::empty(),
    {
        let r = Db { store: StrMap::new() };
        proof {
            assert(r@ =~= Map::<Seq<char>, Seq<u8>>::empty());
        }
        r
    }

    /// Store a blob under a key, overwriting any previous blob.
    pub fn put(&mut self, key: &str, val: Vec<u8>)
        requires
            old(self).wf(),
        ensures
            final(self).wf(),
            final(self)@ == old(self)@.insert(key@, val@),
    {
        let ghost v = val@;
        self.store.insert(key.to_owned(), val);
        proof {
            assert(self@ =~= old(self)@.insert(key@, v));
        }
    }

    /// The blob stored under a key, if any.
    pub fn get(&self, key: &str) -> (r: Option<Vec<u8>>)
        requires
            self.wf(),
        ensures
            match r {
                Some(v) => self@.contains_key(key@) && v@ == self@[key@],
                None => !self@.contains_key(key@),
            },
    {
        match self.store.get(key) {
            Some(v) => Some(slice_to_vec(v.as_slice())),
            None => None,
        }
    }

    /// The stored records as owned pairs: a faithful snapshot.
    pub fn entries(&self) -> (r: Vec<(String, Vec<u8>)>)
        requires
            self.wf(),
        ensures
            blob_snapshot_of(r@, self@),
    {
        let names = self.store.keys();
        let mut out: Vec<(String, Vec<u8>)> = Vec::new();
        let n = names.len();
        let mut i: usize = 0;
        while i < n
            invariant
                i <= n,
                n == names@.len(),
                self.wf(),
                out@.len() == i,
                forall|k: int| 0 <= k < i ==> #[trigger] out@[k].0 == names@[k],
                forall|k: int|
                    0 <= k < i ==> self@.contains_key(#[trigger] out@[k].0@) && self@[out@[k].0@]
                        == out@[k].1@,
                forall|k: int| 0 <= k < n ==> self.store@.contains_key(#[trigger] names@[k]@),
                forall|nm: Seq<char>| #[trigger]
                    self.store@.contains_key(nm) ==> exists|k: int|
                        0 <= k < n && names@[k]@ == nm,
                forall|k: int, l: int| 0 <= k < l < n ==> names@[k]@ != names@[l]@,
            decreases n - i,
        {
            match self.store.get(names[i].as_str()) {
                Some(v) => {
                    out.push((names[i].clone(), slice_to_vec(v.as_slice())));
                },
                None => {
                    proof {
                        assert(false);
                    }
                },
            }
            i += 1;
        }
        proof {
            assert forall|nm: Seq<char>| #[trigger]
                self@.contains_key(nm) implies exists|k: int|
                0 <= k < out@.len() && out@[k].0@ == nm by {
                let k = choose|k: int| 0 <= k < n && names@[k]@ == nm;
                assert(out@[k].0@ == nm);
            }
        }
        out
    }

    /// Delete the blob stored under a key, if any.
    pub fn remove(&mut self, key: &str)
        requires
            old(self).wf(),
        ensures
            final(self).wf(),
            final(self)@ == old(self)@.remove(key@),
    {
        let _ = self.store.remove(key);
        proof {
            assert(self@ =~= old(self)@.remove(key@));
        }
    }
}

/// A unit of deferred reclamation work, owning everything it needs.
pub enum Job {
    /// Delete one expired key from the named database.
    ExpireKey { db_name: String, key: String },
    /// Drop a closed database's evicted engine; `path` is the directory
    /// that held it.
    DestroyDb { db: Db, db_name: String, path: String },
}

/// The records of every catalogued database after one reclamation job.
pub open spec fn apply_job(
    m: Map<Seq<char>, Map<Seq<char>, Seq<u8>>>,
    j: Job,
) -> Map<Seq<char>, Map<Seq<char>, Seq<u8>>> {
    match j {
        Job::ExpireKey { db_name, key } => {
            if m.contains_key(db_name@) {
                m.insert(db_name@, m[db_name@].remove(key@))
            } else {
                m
            }
        },
        Job::DestroyDb { .. } => m,
    }
}

/// The records of every catalogued database after a queue of reclamation
/// jobs, run front to back.
pub open spec fn apply_jobs(
    m: Map<Seq<char>, Map<Seq<char>, Seq<u8>>>,
    js: Seq<Job>,
) -> Map<Seq<char>, Map<Seq<char>, Seq<u8>>>
    decreases js.len(),
{
    if js.len() == 0 {
        m
    } else {
        apply_jobs(apply_job(m, js.first()), js.drop_first())
    }
}

/// The names that a sequence of recorded meta entries binds.
pub open spec fn meta_entry_names(entries: Seq<(String, String)>) -> Set<Seq<char>> {
    Set::new(
        |n: Seq<char>| exists|i: int| 0 <= i < entries.len() && #[trigger] entries[i].0@ == n,
    )
}

/// The façade over the catalogue, the meta-database, and the
/// reclamation queue.
pub struct DbManager {
    db_cfg: DbConfig,
    root_db: StrMap<String>,
    dbs: StrMap<Db>,
    jobs: Vec<Job>,
}

impl DbManager {
    /// The catalogue and the meta-database agree: they bind exactly the
    /// same names, each to the path `<root>/<name>`, and every engine
    /// in the catalogue is well formed.
    pub closed spec fn wf(self) -> bool {
        &&& self.dbs.wf()
        &&& self.root_db.wf()
        &&& forall|n: Seq<char>| #[trigger] self.dbs@.contains_key(n) ==> self.dbs@[n].wf()
        &&& self.root_db@.dom() == self.dbs@.dom()
        &&& forall|n: Seq<char>| #[trigger]
            self.dbs@.contains_key(n) ==> self.root_db@[n]@ == path_of(self.db_cfg.0.path@, n)
    }

    /// The root directory all databases live under.
    pub closed spec fn root(self) -> Seq<char> {
        self.db_cfg.0.path@
    }

    /// The names of the catalogued databases.
    pub closed spec fn names(self) -> Set<Seq<char>> {
        self.dbs@.dom()
    }

    /// The engine of the catalogued database called `n`.
    pub closed spec fn engine(self, n: Seq<char>) -> Db {
        self.dbs@[n]
    }

    /// The records of the catalogued database called `n`.
    pub closed spec fn records(self, n: Seq<char>) -> Map<Seq<char>, Seq<u8>> {
        self.dbs@[n]@
    }

    /// The persistent name-to-path mapping of the meta-database.
    pub closed spec fn meta(self) -> Map<Seq<char>, Seq<char>> {
        Map::new(|n: Seq<char>| self.root_db@.contains_key(n), |n: Seq<char>| self.root_db@[n]@)
    }

    /// The queued reclamation jobs, front first.
    pub closed spec fn pending(self) -> Seq<Job> {
        self.jobs@
    }

    /// The records of every catalogued database, by name.
    pub open spec fn all_records(self) -> Map<Seq<char>, Map<Seq<char>, Seq<u8>>> {
        Map::new(|n: Seq<char>| self.names().contains(n), |n: Seq<char>| self.records(n))
    }

    /// A fresh manager over the given configuration, cataloguing nothing.
    pub fn new(db_cfg: DbConfig) -> (r: DbResult<DbManager>)
        ensures
            r matches Ok(m) && m.wf() && m.root() == db_cfg.0.path@ && m.names()
                == Set::<Seq<char>>::empty() && m.meta() == Map::<Seq<char>, Seq<char>>::empty()
                && m.pending() == Seq::<Job>::empty(),
    {
        let m = DbManager {
            db_cfg,
            root_db: StrMap::new(),
            dbs: StrMap::new(),
            jobs: Vec::new(),
        };
        proof {
            assert(m.names() =~= Set::<Seq<char>>::empty());
            assert(m.meta() =~= Map::<Seq<char>, Seq<char>>::empty());
        }
        Ok(m)
    }

    /// Reconcile a manager from recorded meta entries `(name, path)`,
    /// as read back from persistent storage by the caller.
    ///
    /// Every recorded path must lie at `<root>/<name>`: an entry
    /// recorded elsewhere aborts construction, and exactly such an
    /// entry does — the manager never starts from state it cannot
    /// vouch for. On success each recorded name is catalogued with a
    /// fresh store, and the meta-database holds exactly the recorded
    /// names.
    pub fn from_meta(db_cfg: DbConfig, entries: Vec<(String, String)>) -> (r: DbResult<DbManager>)
        ensures
            r matches Ok(m) ==> m.wf() && m.root() == db_cfg.0.path@ && m.names()
                == meta_entry_names(entries@) && m.pending() == Seq::<Job>::empty() && (forall|
                i: int,
            |
                0 <= i < entries@.len() ==> m.meta()[#[trigger] entries@[i].0@] == entries@[i].1@
                    && m.records(entries@[i].0@) == Map::<Seq<char>, Seq<u8>>::empty()),
            r is Err <==> exists|i: int|
                0 <= i < entries@.len() && #[trigger] entries@[i].1@ != path_of(
                    db_cfg.0.path@,
                    entries@[i].0@,
                ),
            r matches Err(e) ==> e matches DbError::Validation(_),
    {
        let ghost root = db_cfg.0.path@;
        let ghost all = entries@;
        let n = entries.len();
        let mut i: usize = 0;
        while i < n
            invariant
                i <= n,
                n == all.len(),
                entries@ == all,
                root == db_cfg.0.path@,
                forall|j: int| 0 <= j < i ==> #[trigger] all[j].1@ == path_of(root, all[j].0@),
            decreases n - i,
        {
            let expected = db_cfg.db_path(entries[i].0.as_str());
            if !str_eq(entries[i].1.as_str(), expected.as_str()) {
                proof {
                    assert(entries@[i as int].1@ != path_of(db_cfg.0.path@, entries@[i as int].0@));
                }
                let mut msg = "meta entry for ".to_owned();
                msg.append(entries[i].0.as_str());
                msg.append(" records a path outside the store root");
                return Err(DbError::Validation(msg));
            }
            i += 1;
        }
        let mut m = DbManager {
            db_cfg,
            root_db: StrMap::new(),
            dbs: StrMap::new(),
            jobs: Vec::new(),
        };
        proof {
            assert(m.names() =~= meta_entry_names(all.subrange(0, 0)));
        }
        let mut i: usize = 0;
        while i < n
            invariant
                i <= n,
                n == all.len(),
                entries@ == all,
                m.wf(),
                m.root() == root,
                m.pending() == Seq::<Job>::empty(),
                m.names() == meta_entry_names(all.subrange(0, i as int)),
                forall|j: int| 0 <= j < n ==> #[trigger] all[j].1@ == path_of(root, all[j].0@),
                forall|nm: Seq<char>| #[trigger]
                    m.names().contains(nm) ==> m.records(nm) == Map::<Seq<char>, Seq<u8>>::empty(),
            decreases n - i,
        {
            let name = entries[i].0.clone();
            let path = entries[i].1.clone();
            let ghost pre_names = m.names();
            m.open_on_path(name, path);
            proof {
                let s1 = all.subrange(0, i + 1);
                let s0 = all.subrange(0, i as int);
                assert forall|nm: Seq<char>|
                    meta_entry_names(s1).contains(nm) <==> pre_names.insert(
                        all[i as int].0@,
                    ).contains(nm) by {
                    if meta_entry_names(s1).contains(nm) {
                        let j = choose|j: int| 0 <= j < s1.len() && s1[j].0@ == nm;
                        if j < i {
                            assert(s0[j].0@ == nm);
                        }
                    }
                    if meta_entry_names(s0).contains(nm) {
                        let j = choose|j: int| 0 <= j < s0.len() && s0[j].0@ == nm;
                        assert(s1[j].0@ == nm);
                    }
                    if nm == all[i as int].0@ {
                        assert(s1[i as int].0@ == nm);
                    }
                }
                assert(meta_entry_names(s1) =~= pre_names.insert(all[i as int].0@));
            }
            i += 1;
        }
        proof {
            assert(all.subrange(0, n as int) =~= all);
            assert forall|j: int|
                0 <= j < all.len() implies m.meta()[#[trigger] all[j].0@] == all[j].1@
                && m.records(all[j].0@) == Map::<Seq<char>, Seq<u8>>::empty() by {
                assert(all.subrange(0, n as int)[j].0@ == all[j].0@);
                assert(m.names().contains(all[j].0@));
            }
        }
        Ok(m)
    }

    /// The meta-database's bindings as owned pairs, each name once.
    pub fn meta_entries(&self) -> (r: Vec<(String, String)>)
        requires
            self.wf(),
        ensures
            forall|i: int|
                0 <= i < r@.len() ==> self.meta().contains_key(#[trigger] r@[i].0@) && self.meta()[
                    r@[i].0@
                ] == r@[i].1@,
            forall|n: Seq<char>| #[trigger]
                self.meta().contains_key(n) ==> exists|i: int|
                    0 <= i < r@.len() && r@[i].0@ == n,
            forall|i: int, j: int| 0 <= i < j < r@.len() ==> r@[i].0@ != r@[j].0@,
    {
        self.root_db.pairs()
    }

    /// Every catalogued database's records as owned pairs: a faithful
    /// snapshot of each store, each name once.
    pub fn export_records(&self) -> (r: Vec<(String, Vec<(String, Vec<u8>)>)>)
        requires
            self.wf(),
        ensures
            forall|i: int|
                0 <= i < r@.len() ==> self.names().contains(#[trigger] r@[i].0@)
                    && blob_snapshot_of(r@[i].1@, self.records(r@[i].0@)),
            forall|n: Seq<char>| #[trigger]
                self.names().contains(n) ==> exists|i: int| 0 <= i < r@.len() && r@[i].0@ == n,
            forall|i: int, j: int| 0 <= i < j < r@.len() ==> r@[i].0@ != r@[j].0@,
    {
        let names = self.dbs.keys();
        let mut out: Vec<(String, Vec<(String, Vec<u8>)>)> = Vec::new();
        let n = names.len();
        let mut i: usize = 0;
        while i < n
            invariant
                i <= n,
                n == names@.len(),
                self.wf(),
                out@.len() == i,
                forall|k: int| 0 <= k < i ==> #[trigger] out@[k].0 == names@[k],
                forall|k: int|
                    0 <= k < i ==> self.names().contains(#[trigger] out@[k].0@)
                        && blob_snapshot_of(out@[k].1@, self.records(out@[k].0@)),
                forall|k: int| 0 <= k < n ==> self.dbs@.contains_key(#[trigger] names@[k]@),
                forall|nm: Seq<char>| #[trigger]
                    self.dbs@.contains_key(nm) ==> exists|k: int|
                        0 <= k < n && names@[k]@ == nm,
                forall|k: int, l: int| 0 <= k < l < n ==> names@[k]@ != names@[l]@,
            decreases n - i,
        {
            match self.dbs.get(names[i].as_str()) {
                Some(db) => {
                    let recs = db.entries();
                    out.push((names[i].clone(), recs));
                },
                None => {
                    proof {
                        assert(false);
                    }
                },
            }
            i += 1;
        }
        proof {
            assert forall|nm: Seq<char>| #[trigger]
                self.names().contains(nm) implies exists|k: int|
                0 <= k < out@.len() && out@[k].0@ == nm by {
                let k = choose|k: int| 0 <= k < n && names@[k]@ == nm;
                assert(out@[k].0@ == nm);
            }
        }
        out
    }

    /// Write a batch of raw record blobs into the database called
    /// `db_name`, front to back, each key taking its pair's blob.
    ///
    /// A name that is not catalogued is rejected, and only such a name.
    /// This is how a caller seeds a freshly reconciled store from a
    /// snapshot taken before a restart.
    pub fn restore_records(&mut self, db_name: &str, records: Vec<(String, Vec<u8>)>) -> (r:
        DbResult<()>)
        requires
            old(self).wf(),
        ensures
            final(self).wf(),
            final(self).root() == old(self).root(),
            r matches Err(e) ==> e matches DbError::Validation(_),
            r is Err <==> !old(self).names().contains(db_name@),
            r is Err ==> *final(self) == *old(self),
            r is Ok ==> final(self).names() == old(self).names(),
            r is Ok ==> final(self).meta() == old(self).meta(),
            r is Ok ==> final(self).pending() == old(self).pending(),
            r is Ok ==> final(self).records(db_name@) == blob_pairs_fold(
                old(self).records(db_name@),
                records@,
            ),
            r is Ok ==> forall|n: Seq<char>|
                n != db_name@ && old(self).names().contains(n) ==> final(self).records(n) == old(
                    self,
                ).records(n),
    {
        if self.not_contains(db_name) {
            return Err(not_exists(db_name));
        }
        let ghost all = records@;
        match self.dbs.remove(db_name) {
            Some(mut db) => {
                let ghost orig = db@;
                let n = records.len();
                proof {
                    assert(all.subrange(0, n as int) =~= all);
                }
                let mut i: usize = 0;
                while i < n
                    invariant
                        i <= n,
                        n == all.len(),
                        records@ == all,
                        db.wf(),
                        blob_pairs_fold(db@, all.subrange(i as int, n as int)) == blob_pairs_fold(
                            orig,
                            all,
                        ),
                    decreases n - i,
                {
                    db.put(records[i].0.as_str(), slice_to_vec(records[i].1.as_slice()));
                    proof {
                        assert(all.subrange(i as int, n as int).first() == all[i as int]);
                        assert(all.subrange(i as int, n as int).drop_first() =~= all.subrange(
                            i + 1,
                            n as int,
                        ));
                    }
                    i += 1;
                }
                proof {
                    assert(all.subrange(n as int, n as int) =~= Seq::<(String, Vec<u8>)>::empty());
                }
                self.dbs.insert(db_name.to_owned(), db);
                proof {
                    assert(self.dbs@ =~= old(self).dbs@.insert(db_name@, self.dbs@[db_name@]));
                    assert(self.dbs@.dom() =~= old(self).dbs@.dom());
                    assert forall|n2: Seq<char>| #[trigger]
                        self.dbs@.contains_key(n2) implies self.dbs@[n2].wf() by {
                        if n2 != db_name@ {
                            assert(old(self).dbs@.contains_key(n2));
                        }
                    }
                    assert(self.meta() =~= old(self).meta());
                }
                Ok(())
            },
            None => {
                proof {
                    assert(false);
                }
                Err(not_exists(db_name))
            },
        }
    }

    /// Whether a database called `db_name` is catalogued.
    pub fn contains(&self, db_name: &str) -> (r: bool)
        requires
            self.wf(),
        ensures
            r == self.names().contains(db_name@),
    {
        self.dbs.contains_key(db_name)
    }

    fn not_contains(&self, db_name: &str) -> (r: bool)
        requires
            self.wf(),
        ensures
            r == !self.names().contains(db_name@),
    {
        !self.contains(db_name)
    }

    /// Create and catalogue a database called `db_name`.
    ///
    /// The name is validated first: the reserved name `root`, the empty
    /// name, and a name already catalogued are rejected, and exactly
    /// those. On success the meta-database records `<root>/<name>`
    /// before the catalogue binds the name to a fresh, empty store.
    pub fn open(&mut self, db_name: String) -> (r: DbResult<()>)
        requires
            old(self).wf(),
        ensures
            final(self).wf(),
            final(self).root() == old(self).root(),
            r matches Err(e) ==> e matches DbError::Validation(_),
            r is Err <==> (db_name@ == "root"@ || db_name@.len() == 0 || old(self).names().contains(
                db_name@,
            )),
            r is Err ==> *final(self) == *old(self),
            r is Ok ==> final(self).names() == old(self).names().insert(db_name@),
            r is Ok ==> final(self).meta() == old(self).meta().insert(
                db_name@,
                path_of(old(self).root(), db_name@),
            ),
            r is Ok ==> final(self).records(db_name@) == Map::<Seq<char>, Seq<u8>>::empty(),
            r is Ok ==> forall|n: Seq<char>|
                n != db_name@ && old(self).names().contains(n) ==> final(self).records(n) == old(
                    self,
                ).records(n),
            r is Ok ==> final(self).pending() == old(self).pending(),
    {
        if str_eq(db_name.as_str(), "root") {
            return Err(DbError::Validation("the database name root is reserved".to_owned()));
        }
        if db_name.as_str().is_empty() {
            return Err(DbError::Validation("the database name is empty".to_owned()));
        }
        if self.contains(db_name.as_str()) {
            let mut msg = "Database ".to_owned();
            msg.append(db_name.as_str());
            msg.append(" already exists");
            return Err(DbError::Validation(msg));
        }
        let path = self.db_cfg.db_path(db_name.as_str());
        self.open_on_path(db_name, path);
        Ok(())
    }

    /// Bind `db_name` in the meta-database and the catalogue, with a
    /// fresh store at the given path.
    fn open_on_path(&mut self, db_name: String, path: String)
        requires
            old(self).wf(),
            path@ == path_of(old(self).root(), db_name@),
        ensures
            final(self).wf(),
            final(self).root() == old(self).root(),
            final(self).names() == old(self).names().insert(db_name@),
            final(self).meta() == old(self).meta().insert(db_name@, path@),
            final(self).records(db_name@) == Map::<Seq<char>, Seq<u8>>::empty(),
            forall|n: Seq<char>|
                n != db_name@ && old(self).names().contains(n) ==> final(self).records(n) == old(
                    self,
                ).records(n),
            final(self).pending() == old(self).pending(),
    {
        let ghost p = path@;
        self.root_db.insert(db_name.clone(), path);
        self.dbs.insert(db_name, Db::new());
        proof {
            assert(self.names() =~= old(self).names().insert(db_name@));
            assert(self.meta() =~= old(self).meta().insert(db_name@, p));
            assert(self.records(db_name@) =~= Map::<Seq<char>, Seq<u8>>::empty());
        }
    }

    /// Evict and tear down the database called `db_name`.
    ///
    /// A name that is not catalogued is rejected, and only such a name.
    /// On success the catalogue entry is evicted, the meta-database
    /// entry is deleted, and a destruction job owning the evicted engine
    /// is queued; the call returns without waiting for it.
    pub fn close(&mut self, db_name: String) -> (r: DbResult<()>)
        requires
            old(self).wf(),
        ensures
            final(self).wf(),
            final(self).root() == old(self).root(),
            r matches Err(e) ==> e matches DbError::Validation(_),
            r is Err <==> !old(self).names().contains(db_name@),
            r is Err ==> *final(self) == *old(self),
            r is Ok ==> final(self).names() == old(self).names().remove(db_name@),
            r is Ok ==> final(self).meta() == old(self).meta().remove(db_name@),
            r is Ok ==> forall|n: Seq<char>|
                n != db_name@ && old(self).names().contains(n) ==> final(self).records(n) == old(
                    self,
                ).records(n),
            r is Ok ==> final(self).pending().len() == old(self).pending().len() + 1,
            r is Ok ==> final(self).pending().drop_last() == old(self).pending(),
            r is Ok ==> (final(self).pending().last() matches Job::DestroyDb {
                db,
                db_name: jn,
                path,
            } && db == old(self).engine(db_name@) && jn@ == db_name@ && path@ == path_of(
                old(self).root(),
                db_name@,
            )),
    {
        if self.not_contains(db_name.as_str()) {
            let mut msg = "Can't close ".to_owned();
            msg.append(db_name.as_str());
            msg.append(" db - doesn't exist");
            return Err(DbError::Validation(msg));
        }
        let path = self.db_cfg.db_path(db_name.as_str());
        match self.dbs.remove(db_name.as_str()) {
            Some(db) => {
                let _ = self.root_db.remove(db_name.as_str());
                self.jobs.push(Job::DestroyDb { db, db_name, path });
                proof {
                    assert(self.names() =~= old(self).names().remove(db_name@));
                    assert(self.meta() =~= old(self).meta().remove(db_name@));
                    assert(self.pending().drop_last() =~= old(self).pending());
                }
                Ok(())
            },
            None => {
                proof {
                    assert(false);
                }
                Err(DbError::Validation("Can't close db - doesn't exist".to_owned()))
            },
        }
    }

    /// Store a payload under `key` in the database called `db_name`,
    /// stamped with the expiry `ttl`.
    ///
    /// A name that is not catalogued is rejected, and only such a name.
    /// On success the encoded record replaces whatever the key held.
    pub fn store(&mut self, db_name: &str, key: &str, val: Vec<u8>, ttl: u128) -> (r: DbResult<()>)
        requires
            old(self).wf(),
        ensures
            final(self).wf(),
            final(self).root() == old(self).root(),
            r matches Err(e) ==> e matches DbError::Validation(_),
            r is Err <==> !old(self).names().contains(db_name@),
            r is Err ==> *final(self) == *old(self),
            r is Ok ==> final(self).names() == old(self).names(),
            r is Ok ==> final(self).meta() == old(self).meta(),
            r is Ok ==> final(self).pending() == old(self).pending(),
            r is Ok ==> final(self).records(db_name@) == old(self).records(db_name@).insert(
                key@,
                encode_spec(ttl, val@),
            ),
            r is Ok ==> forall|n: Seq<char>|
                n != db_name@ && old(self).names().contains(n) ==> final(self).records(n) == old(
                    self,
                ).records(n),
    {
        if self.not_contains(db_name) {
            return Err(not_exists(db_name));
        }
        let ghost v = val@;
        let data = Data::new(ttl, val);
        let bytes = match data.as_bytes() {
            Ok(b) => b,
            Err(e) => {
                proof {
                    assert(false);
                }
                return Err(e);
            },
        };
        match self.dbs.remove(db_name) {
            Some(mut db) => {
                db.put(key, bytes);
                self.dbs.insert(db_name.to_owned(), db);
                proof {
                    assert(self.dbs@ =~= old(self).dbs@.insert(db_name@, self.dbs@[db_name@]));
                    assert(self.dbs@.dom() =~= old(self).dbs@.dom());
                    assert forall|n: Seq<char>| #[trigger]
                        self.dbs@.contains_key(n) implies self.dbs@[n].wf() by {
                        if n != db_name@ {
                            assert(old(self).dbs@.contains_key(n));
                        }
                    }
                    assert(self.meta() =~= old(self).meta());
                    assert(self.records(db_name@) =~= old(self).records(db_name@).insert(
                        key@,
                        encode_spec(ttl, v),
                    ));
                }
                Ok(())
            },
            None => {
                proof {
                    assert(false);
                }
                Err(not_exists(db_name))
            },
        }
    }

    /// Read the payload stored under `key` in the database called
    /// `db_name`, deciding expiry against the clock reading `now`.
    ///
    /// A name that is not catalogued is rejected, and only such a name.
    /// An absent key reads as `None`; a blob that does not decode is a
    /// serialization error; a live record yields its payload; an expired
    /// record yields `None` and queues a deferred deletion job — the
    /// read path never deletes synchronously.
    pub fn read_at(&mut self, db_name: &str, key: &str, now: u128) -> (r: DbResult<Option<Vec<u8>>>)
        requires
            old(self).wf(),
        ensures
            final(self).wf(),
            final(self).root() == old(self).root(),
            final(self).names() == old(self).names(),
            final(self).meta() == old(self).meta(),
            forall|n: Seq<char>|
                old(self).names().contains(n) ==> final(self).records(n) == old(self).records(n),
            !old(self).names().contains(db_name@) ==> (r matches Err(e) && e matches
                DbError::Validation(_)) && *final(self) == *old(self),
            old(self).names().contains(db_name@) ==> ({
                let recs = old(self).records(db_name@);
                &&& !recs.contains_key(key@) ==> (r matches Ok(o) && o is None && *final(self)
                    == *old(self))
                &&& recs.contains_key(key@) ==> match decode_spec(recs[key@]) {
                    Option::None => (r matches Err(e) && e matches DbError::Serialization(_))
                        && *final(self) == *old(self),
                    Option::Some(rec) => {
                        if expired_at(rec.0, now) {
                            &&& (r matches Ok(o) && o is None)
                            &&& final(self).pending().len() == old(self).pending().len() + 1
                            &&& final(self).pending().drop_last() == old(self).pending()
                            &&& (final(self).pending().last() matches Job::ExpireKey {
                                db_name: jn,
                                key: jk,
                            } && jn@ == db_name@ && jk@ == key@)
                        } else {
                            (r matches Ok(o) && o matches Some(v) && v@ == rec.1) && *final(self)
                                == *old(self)
                        }
                    },
                }
            }),
    {
        let bytes_opt = match self.dbs.get(db_name) {
            Some(db) => db.get(key),
            None => {
                return Err(not_exists(db_name));
            },
        };
        match bytes_opt {
            Some(bytes) => {
                let data = match bytes.as_struct() {
                    Ok(d) => d,
                    Err(e) => {
                        return Err(e);
                    },
                };
                if is_expired_at(data.ttl(), now) {
                    self.expire(db_name, key);
                    Ok(None)
                } else {
                    Ok(Some(data.into_payload()))
                }
            },
            None => Ok(None),
        }
    }

    /// Queue the deferred deletion of an expired key; the read path
    /// never deletes synchronously.
    fn expire(&mut self, db_name: &str, key: &str)
        requires
            old(self).wf(),
        ensures
            final(self).wf(),
            final(self).root() == old(self).root(),
            final(self).names() == old(self).names(),
            final(self).meta() == old(self).meta(),
            forall|n: Seq<char>|
                old(self).names().contains(n) ==> final(self).records(n) == old(self).records(n),
            final(self).pending().len() == old(self).pending().len() + 1,
            final(self).pending().drop_last() == old(self).pending(),
            (final(self).pending().last() matches Job::ExpireKey { db_name: jn, key: jk } && jn@
                == db_name@ && jk@ == key@),
    {
        self.jobs.push((Job::ExpireKey { db_name: db_name.to_owned(), key: key.to_owned() }));
        proof {
            assert(self.pending().drop_last() =~= old(self).pending());
        }
    }

    /// Read the payload stored under `key` in the database called
    /// `db_name`, deciding expiry against the wall clock.
    ///
    /// The validation, absent-key and decoding behaviour is that of
    /// `read_at`. A record stamped `0` is returned without consulting
    /// the clock. For any other stamp the clock decides: the payload
    /// comes back from a live record, an expired record reads as `None`
    /// with a deferred deletion queued, and a clock failure is a
    /// conversion error.
    pub fn read(&mut self, db_name: &str, key: &str) -> (r: DbResult<Option<Vec<u8>>>)
        requires
            old(self).wf(),
        ensures
            final(self).wf(),
            final(self).root() == old(self).root(),
            final(self).names() == old(self).names(),
            final(self).meta() == old(self).meta(),
            forall|n: Seq<char>|
                old(self).names().contains(n) ==> final(self).records(n) == old(self).records(n),
            !old(self).names().contains(db_name@) ==> (r matches Err(e) && e matches
                DbError::Validation(_)) && *final(self) == *old(self),
            old(self).names().contains(db_name@) ==> ({
                let recs = old(self).records(db_name@);
                &&& !recs.contains_key(key@) ==> (r matches Ok(o) && o is None && *final(self)
                    == *old(self))
                &&& recs.contains_key(key@) ==> match decode_spec(recs[key@]) {
                    Option::None => (r matches Err(e) && e matches DbError::Serialization(_))
                        && *final(self) == *old(self),
                    Option::Some(rec) => {
                        let post = *final(self);
                        let pre = *old(self);
                        &&& rec.0 == 0 ==> (r matches Ok(o) && o matches Some(v) && v@ == rec.1
                            && post == pre)
                        &&& r matches Ok(o) ==> (o matches Some(v) ==> v@ == rec.1 && post == pre)
                        &&& r matches Ok(o) ==> (o is None ==> rec.0 != 0 && post.pending().len()
                            == pre.pending().len() + 1 && post.pending().drop_last()
                            == pre.pending() && (post.pending().last() matches Job::ExpireKey {
                            db_name: jn,
                            key: jk,
                        } && jn@ == db_name@ && jk@ == key@))
                        &&& (r matches Err(e) ==> e matches DbError::Conversion(_) && rec.0 != 0
                            && post == pre)
                    },
                }
            }),
    {
        let bytes_opt = match self.dbs.get(db_name) {
            Some(db) => db.get(key),
            None => {
                return Err(not_exists(db_name));
            },
        };
        match bytes_opt {
            Some(bytes) => {
                let data = match bytes.as_struct() {
                    Ok(d) => d,
                    Err(e) => {
                        return Err(e);
                    },
                };
                let expired = match is_expired(data.ttl()) {
                    Ok(b) => b,
                    Err(e) => {
                        return Err(e);
                    },
                };
                if expired {
                    self.expire(db_name, key);
                    Ok(None)
                } else {
                    Ok(Some(data.into_payload()))
                }
            },
            None => Ok(None),
        }
    }

    /// Delete whatever `key` holds in the database called `db_name`.
    ///
    /// A name that is not catalogued is rejected, and only such a name.
    pub fn remove(&mut self, db_name: &str, key: &str) -> (r: DbResult<()>)
        requires
            old(self).wf(),
        ensures
            final(self).wf(),
            final(self).root() == old(self).root(),
            r matches Err(e) ==> e matches DbError::Validation(_),
            r is Err <==> !old(self).names().contains(db_name@),
            r is Err ==> *final(self) == *old(self),
            r is Ok ==> final(self).names() == old(self).names(),
            r is Ok ==> final(self).meta() == old(self).meta(),
            r is Ok ==> final(self).pending() == old(self).pending(),
            r is Ok ==> final(self).records(db_name@) == old(self).records(db_name@).remove(key@),
            r is Ok ==> forall|n: Seq<char>|
                n != db_name@ && old(self).names().contains(n) ==> final(self).records(n) == old(
                    self,
                ).records(n),
    {
        if self.not_contains(db_name) {
            return Err(not_exists(db_name));
        }
        match self.dbs.remove(db_name) {
            Some(mut db) => {
                db.remove(key);
                self.dbs.insert(db_name.to_owned(), db);
                proof {
                    assert(self.dbs@ =~= old(self).dbs@.insert(db_name@, self.dbs@[db_name@]));
                    assert(self.dbs@.dom() =~= old(self).dbs@.dom());
                    assert forall|n: Seq<char>| #[trigger]
                        self.dbs@.contains_key(n) implies self.dbs@[n].wf() by {
                        if n != db_name@ {
                            assert(old(self).dbs@.contains_key(n));
                        }
                    }
                    assert(self.meta() =~= old(self).meta());
                }
                Ok(())
            },
            None => {
                proof {
                    assert(false);
                }
                Err(not_exists(db_name))
            },
        }
    }

    /// Run the job at the front of the reclamation queue, if any.
    ///
    /// An expiry job deletes its key from its database, or does nothing
    /// if that database has since been closed; a destruction job drops
    /// the evicted engine it owns. Returns whether a job was run.
    pub fn run_pending_job(&mut self) -> (r: bool)
        requires
            old(self).wf(),
        ensures
            final(self).wf(),
            final(self).root() == old(self).root(),
            final(self).names() == old(self).names(),
            final(self).meta() == old(self).meta(),
            r == (old(self).pending().len() > 0),
            !r ==> *final(self) == *old(self),
            r ==> final(self).pending() == old(self).pending().drop_first(),
            r ==> final(self).all_records() == apply_job(
                old(self).all_records(),
                old(self).pending().first(),
            ),
    {
        if self.jobs.len() == 0 {
            return false;
        }
        let job = self.jobs.remove(0);
        proof {
            assert(self.jobs@ =~= old(self).jobs@.drop_first());
        }
        match job {
            Job::ExpireKey { db_name, key } => {
                match self.dbs.remove(db_name.as_str()) {
                    Some(mut db) => {
                        db.remove(key.as_str());
                        self.dbs.insert(db_name, db);
                        proof {
                            assert(self.dbs@ =~= old(self).dbs@.insert(
                                db_name@,
                                self.dbs@[db_name@],
                            ));
                            assert(self.dbs@.dom() =~= old(self).dbs@.dom());
                            assert forall|n: Seq<char>| #[trigger]
                                self.dbs@.contains_key(n) implies self.dbs@[n].wf() by {
                                if n != db_name@ {
                                    assert(old(self).dbs@.contains_key(n));
                                }
                            }
                            assert(self.meta() =~= old(self).meta());
                            assert(self.all_records() =~= apply_job(
                                old(self).all_records(),
                                old(self).pending().first(),
                            ));
                        }
                    },
                    None => {
                        proof {
                            assert(self.dbs@ =~= old(self).dbs@);
                            assert(self.all_records() =~= apply_job(
                                old(self).all_records(),
                                old(self).pending().first(),
                            ));
                        }
                    },
                }
            },
            Job::DestroyDb { .. } => {
                proof {
                    assert(self.all_records() =~= apply_job(
                        old(self).all_records(),
                        old(self).pending().first(),
                    ));
                }
            },
        }
        true
    }

    /// Drain the reclamation queue, running every job front to back.
    pub fn run_pending_jobs(&mut self)
        requires
            old(self).wf(),
        ensures
            final(self).wf(),
            final(self).root() == old(self).root(),
            final(self).names() == old(self).names(),
            final(self).meta() == old(self).meta(),
            final(self).pending().len() == 0,
            final(self).all_records() == apply_jobs(old(self).all_records(), old(self).pending()),
    {
        loop
            invariant
                self.wf(),
                self.root() == old(self).root(),
                self.names() == old(self).names(),
                self.meta() == old(self).meta(),
                apply_jobs(self.all_records(), self.pending()) == apply_jobs(
                    old(self).all_records(),
                    old(self).pending(),
                ),
            ensures
                self.wf(),
                self.root() == old(self).root(),
                self.names() == old(self).names(),
                self.meta() == old(self).meta(),
                self.pending().len() == 0,
                self.all_records() == apply_jobs(old(self).all_records(), old(self).pending()),
            decreases self.jobs@.len(),
        {
            let ghost pre = *self;
            let more = self.run_pending_job();
            if !more {
                proof {
                    assert(apply_jobs(self.all_records(), self.pending()) == self.all_records());
                }
                break ;
            }
            proof {
                assert(apply_jobs(pre.all_records(), pre.pending()) == apply_jobs(
                    apply_job(pre.all_records(), pre.pending().first()),
                    pre.pending().drop_first(),
                ));
            }
        }
    }
}

/// Law: a record stamped `0` never expires, whatever the clock says.
pub proof fn lemma_zero_ttl_never_expires(now: u128)
    ensures
        !expired_at(0, now),
{
}

/// Law: expiry is strict: a record stamped with the present clock
/// reading is still live.
pub proof fn lemma_expiry_is_strict(t: u128)
    ensures
        !expired_at(t, t),
{
}

/// Law: a record stored with stamp `0` decodes back to its payload and
/// is live at every clock reading.
pub proof fn lemma_zero_ttl_store_always_live(
    recs: Map<Seq<char>, Seq<u8>>,
    k: Seq<char>,
    p: Seq<u8>,
    now: u128,
)
    requires
        p.len() < 0x1_0000_0000_0000_0000,
    ensures
        ({
            let recs2 = recs.insert(k, encode_spec(0, p));
            &&& recs2.contains_key(k)
            &&& decode_spec(recs2[k]) == Some((0u128, p))
            &&& !expired_at(0, now)
        }),
{
    lemma_codec_round_trip(0, p);
}

/// Law: a record stored with a positive stamp `t` decodes back to its
/// payload, is live at every clock reading up to and including `t`, and
/// is expired at every reading strictly past `t`.
pub proof fn lemma_ttl_bounds_life(
    recs: Map<Seq<char>, Seq<u8>>,
    k: Seq<char>,
    p: Seq<u8>,
    t: u128,
    now: u128,
)
    requires
        t > 0,
        p.len() < 0x1_0000_0000_0000_0000,
    ensures
        ({
            let recs2 = recs.insert(k, encode_spec(t, p));
            &&& recs2.contains_key(k)
            &&& decode_spec(recs2[k]) == Some((t, p))
            &&& (now <= t ==> !expired_at(t, now))
            &&& (now > t ==> expired_at(t, now))
        }),
{
    lemma_codec_round_trip(t, p);
}

proof fn lemma_apply_job_preserves_dom(m: Map<Seq<char>, Map<Seq<char>, Seq<u8>>>, j: Job)
    ensures
        apply_job(m, j).dom() == m.dom(),
{
    assert(apply_job(m, j).dom() =~= m.dom());
}

proof fn lemma_apply_jobs_preserves_dom(m: Map<Seq<char>, Map<Seq<char>, Seq<u8>>>, js: Seq<Job>)
    ensures
        apply_jobs(m, js).dom() == m.dom(),
    decreases js.len(),
{
    if js.len() > 0 {
        lemma_apply_job_preserves_dom(m, js.first());
        lemma_apply_jobs_preserves_dom(apply_job(m, js.first()), js.drop_first());
    }
}

proof fn lemma_apply_jobs_push(m: Map<Seq<char>, Map<Seq<char>, Seq<u8>>>, js: Seq<Job>, j: Job)
    ensures
        apply_jobs(m, js.push(j)) == apply_job(apply_jobs(m, js), j),
    decreases js.len(),
{
    if js.len() == 0 {
        assert(js.push(j).first() == j);
        assert(js.push(j).drop_first() =~= Seq::<Job>::empty());
        assert(apply_jobs(m, js.push(j)) == apply_jobs(
            apply_job(m, j),
            Seq::<Job>::empty(),
        ));
        assert(apply_jobs(apply_job(m, j), Seq::<Job>::empty()) == apply_job(m, j));
        assert(apply_jobs(m, js) == m);
    } else {
        assert(js.push(j).first() == js.first());
        assert(js.push(j).drop_first() =~= js.drop_first().push(j));
        assert(apply_jobs(m, js.push(j)) == apply_jobs(
            apply_job(m, js.first()),
            js.drop_first().push(j),
        ));
        lemma_apply_jobs_push(apply_job(m, js.first()), js.drop_first(), j);
        assert(apply_jobs(m, js) == apply_jobs(apply_job(m, js.first()), js.drop_first()));
    }
}

/// Law: once a read has queued the expiry of key `k` of database `n`,
/// draining the queue leaves `n` catalogued but without `k`, whatever
/// other jobs stand in front.
pub proof fn lemma_reclamation_removes_key(
    m: Map<Seq<char>, Map<Seq<char>, Seq<u8>>>,
    q: Seq<Job>,
    n: String,
    k: String,
)
    requires
        m.contains_key(n@),
    ensures
        ({
            let done = apply_jobs(m, q.push((Job::ExpireKey { db_name: n, key: k })));
            &&& done.contains_key(n@)
            &&& !done[n@].contains_key(k@)
        }),
{
    let j = (Job::ExpireKey { db_name: n, key: k });
    lemma_apply_jobs_push(m, q, j);
    lemma_apply_jobs_preserves_dom(m, q);
    lemma_apply_job_preserves_dom(apply_jobs(m, q), j);
}

proof fn lemma_blob_fold_push(
    m: Map<Seq<char>, Seq<u8>>,
    ps: Seq<(String, Vec<u8>)>,
    p: (String, Vec<u8>),
)
    ensures
        blob_pairs_fold(m, ps.push(p)) == blob_pairs_fold(m, ps).insert(p.0@, p.1@),
    decreases ps.len(),
{
    if ps.len() == 0 {
        assert(ps.push(p).first() == p);
        assert(ps.push(p).drop_first() =~= Seq::<(String, Vec<u8>)>::empty());
        assert(blob_pairs_fold(m.insert(p.0@, p.1@), Seq::<(String, Vec<u8>)>::empty())
            == m.insert(p.0@, p.1@));
    } else {
        assert(ps.push(p).first() == ps.first());
        assert(ps.push(p).drop_first() =~= ps.drop_first().push(p));
        lemma_blob_fold_push(m.insert(ps.first().0@, ps.first().1@), ps.drop_first(), p);
    }
}

/// Law: a snapshot of a record store, replayed onto an empty store,
/// rebuilds exactly the records it was taken from.
pub proof fn lemma_snapshot_restores_records(
    ps: Seq<(String, Vec<u8>)>,
    m: Map<Seq<char>, Seq<u8>>,
)
    requires
        blob_snapshot_of(ps, m),
    ensures
        blob_pairs_fold(Map::<Seq<char>, Seq<u8>>::empty(), ps) == m,
    decreases ps.len(),
{
    if ps.len() == 0 {
        assert forall|k: Seq<char>| !(#[trigger] m.contains_key(k)) by {
            if m.contains_key(k) {
                let i = choose|i: int| 0 <= i < ps.len() && ps[i].0@ == k;
            }
        }
        assert(blob_pairs_fold(Map::<Seq<char>, Seq<u8>>::empty(), ps) =~= m);
    } else {
        let p = ps.last();
        let q = ps.drop_last();
        let k0 = p.0@;
        assert(ps[ps.len() - 1].0@ == k0);
        assert(m.contains_key(k0) && m[k0] == p.1@);
        assert(blob_snapshot_of(q, m.remove(k0))) by {
            assert forall|i: int|
                0 <= i < q.len() implies m.remove(k0).contains_key(#[trigger] q[i].0@)
                && m.remove(k0)[q[i].0@] == q[i].1@ by {
                assert(ps[i] == q[i]);
                assert(ps[i].0@ != ps[ps.len() - 1].0@);
            }
            assert forall|k: Seq<char>| #[trigger]
                m.remove(k0).contains_key(k) implies exists|i: int|
                0 <= i < q.len() && q[i].0@ == k by {
                let i = choose|i: int| 0 <= i < ps.len() && ps[i].0@ == k;
                assert(i != ps.len() - 1);
                assert(q[i].0@ == k);
            }
            assert forall|i: int, j: int|
                0 <= i < j < q.len() implies q[i].0@ != q[j].0@ by {
                assert(ps[i] == q[i] && ps[j] == q[j]);
                assert(ps[i].0@ != ps[j].0@);
            }
        }
        lemma_snapshot_restores_records(q, m.remove(k0));
        assert(ps =~= q.push(p));
        lemma_blob_fold_push(Map::<Seq<char>, Seq<u8>>::empty(), q, p);
        assert(m.remove(k0).insert(k0, p.1@) =~= m);
    }
}

/// Law: the catalogue and the meta-database agree at quiescence: they
/// bind exactly the same names, and each catalogued name is recorded at
/// `<root>/<name>`.
pub proof fn lemma_catalogue_meta_consistent(m: &DbManager)
    requires
        m.wf(),
    ensures
        m.meta().dom() == m.names(),
        forall|n: Seq<char>| #[trigger]
            m.names().contains(n) ==> m.meta()[n] == path_of(m.root(), n),
{
    assert(m.meta().dom() =~= m.names());
}

fn not_exists(db_name: &str) -> (r: DbError)
    ensures
        r matches DbError::Validation(m) && m@ == "Db "@ + db_name@ + " - doesn't exist"@,
{
    let mut msg = "Db ".to_owned();
    msg.append(db_name);
    msg.append(" - doesn't exist");
    DbError::Validation(msg)
}

/// What the engine is told to do with a key/value pair it meets during
/// compaction.
#[derive(Debug, PartialEq, Eq, Structural)]
pub enum CompactionDecision {
    Keep,
    Remove,
}

/// The compaction policy at clock reading `now`: a blob that does not
/// decode is dropped, an expired record is dropped, everything else is
/// kept.
pub open spec fn filter_decision(value: Seq<u8>, now: u128) -> CompactionDecision {
    match decode_spec(value) {
        Option::None => CompactionDecision::Remove,
        Option::Some(rec) => if expired_at(rec.0, now) {
            CompactionDecision::Remove
        } else {
            CompactionDecision::Keep
        },
    }
}

/// Decide what compaction does with `value`, against the clock reading
/// `now`.
pub fn compaction_filter_at(_level: u32, _key: &[u8], value: &[u8], now: u128) -> (r:
    CompactionDecision)
    ensures
        r == filter_decision(value@, now),
{
    let v = slice_to_vec(value);
    match v.as_struct() {
        Ok(data) => {
            if is_expired_at(data.ttl(), now) {
                CompactionDecision::Remove
            } else {
                CompactionDecision::Keep
            }
        },
        Err(_) => CompactionDecision::Remove,
    }
}

/// Decide what compaction does with `value`, against the wall clock.
///
/// A blob that does not decode is dropped whatever the clock says, and a
/// record stamped `0` is kept without consulting the clock; a clock
/// failure drops the record.
pub fn compaction_filter(_level: u32, _key: &[u8], value: &[u8]) -> (r: CompactionDecision)
    ensures
        decode_spec(value@) is None ==> r == CompactionDecision::Remove,
        decode_spec(value@) matches Some(rec) && rec.0 == 0 ==> r == CompactionDecision::Keep,
{
    let v = slice_to_vec(value);
    match v.as_struct() {
        Ok(data) => {
            match is_expired(data.ttl()) {
                Ok(true) => CompactionDecision::Remove,
                Ok(false) => CompactionDecision::Keep,
                Err(_) => CompactionDecision::Remove,
            }
        },
        Err(_) => CompactionDecision::Remove,
    }
}

} // verus!
