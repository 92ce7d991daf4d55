//! What a node knows of itself: its name, its stores and its meshes.
use crate::bytes;
use crate::bytes::{to_array16, to_vec, Uuid};
use crate::clock::{Clock, SystemClock};
use crate::message;
use crate::message::Message;
use crate::proto::storage::{MeshInfo, StoreMetadata, StoreMetadataModel};
use crate::store::watch;
use crate::store::watch::to_lossy_text;
use crate::table;
use crate::table::ByteTable;
use vstd::prelude::*;
use vstd::string::*;

verus! {

/// What can go wrong with the node's data about itself.
#[derive(Debug, PartialEq, Eq)]
pub enum MetaStoreError {
    /// The database cannot be opened.
    Database(String),
    /// A table cannot be opened.
    Table(String),
    /// A transaction cannot be begun.
    Transaction(String),
    /// A transaction cannot be committed.
    Commit(String),
    /// The storage failed.
    Storage(String),
}

impl MetaStoreError {
    /// The text of the error.
    pub open spec fn text(self) -> Seq<char> {
        match self {
            MetaStoreError::Database(t) => "Database error: "@ + t@,
            MetaStoreError::Table(t) => "Table error: "@ + t@,
            MetaStoreError::Transaction(t) => "Transaction error: "@ + t@,
            MetaStoreError::Commit(t) => "Commit error: "@ + t@,
            MetaStoreError::Storage(t) => "Storage error: "@ + t@,
        }
    }

    /// The text of the error.
    pub fn to_string(&self) -> (r: String)
        ensures
            r@ == self.text(),
    {
        match self {
            MetaStoreError::Database(t) => "Database error: ".to_owned().concat(t.as_str()),
            MetaStoreError::Table(t) => "Table error: ".to_owned().concat(t.as_str()),
            MetaStoreError::Transaction(t) => "Transaction error: ".to_owned().concat(t.as_str()),
            MetaStoreError::Commit(t) => "Commit error: ".to_owned().concat(t.as_str()),
            MetaStoreError::Storage(t) => "Storage error: ".to_owned().concat(t.as_str()),
        }
    }
}

/// The model of a [`MetaStore`].
#[verifier::ext_equal]
pub struct MetaModel {
    /// The stores by their identifiers.
    pub stores: Map<Seq<u8>, Seq<u8>>,
    /// The meshes by their identifiers.
    pub meshes: Map<Seq<u8>, Seq<u8>>,
    /// Everything else by its name.
    pub meta: Map<Seq<u8>, Seq<u8>>,
}

/// The key under which the node's name is kept.
pub open spec fn name_key() -> Seq<u8> {
    vstd::utf8::encode_utf8("name"@)
}

/// The key under which the root store is kept.
pub open spec fn root_key() -> Seq<u8> {
    vstd::utf8::encode_utf8("root_store"@)
}

/// The identifier that a key is; zeros for what is none.
pub open spec fn key_id(key: Seq<u8>) -> Seq<u8> {
    if key.len() == 16 {
        key
    } else {
        bytes::zeros(16)
    }
}

/// What is stored under the given keys, with their identifiers. What cannot be
/// read is passed over.
pub open spec fn records<T: Message>(m: Map<Seq<u8>, Seq<u8>>, keys: Seq<Seq<u8>>) -> Seq<
    (Seq<u8>, T::V),
>
    decreases keys.len(),
{
    if keys.len() == 0 {
        Seq::empty()
    } else {
        let before = records::<T>(m, keys.drop_last());
        match message::decoded::<T>(m[keys.last()]) {
            Some(x) => before.push((key_id(keys.last()), x)),
            None => before,
        }
    }
}

/// The models of listed records.
pub open spec fn record_models<T: Message>(v: Seq<(Uuid, T)>) -> Seq<(Seq<u8>, T::V)> {
    v.map_values(|p: (Uuid, T)| (p.0@, p.1@))
}

/// The node's name.
pub open spec fn name_of(m: MetaModel) -> Option<Seq<char>> {
    if m.meta.dom().contains(name_key()) {
        Some(watch::lossy_text(m.meta[name_key()]))
    } else {
        None
    }
}

/// The root store.
pub open spec fn root_of(m: MetaModel) -> Option<Seq<u8>> {
    if m.meta.dom().contains(root_key()) && m.meta[root_key()].len() == 16 {
        Some(m.meta[root_key()])
    } else {
        None
    }
}

/// The node's data with one more store.
pub open spec fn with_store(m: MetaModel, store: Seq<u8>, mesh: Seq<u8>, now_ms: u64) -> MetaModel {
    MetaModel {
        stores: m.stores.insert(
            store,
            message::encoded::<StoreMetadata>(
                StoreMetadataModel { mesh_id: mesh, created_at: now_ms },
            ),
        ),
        ..m
    }
}

/// The node's data with a root store.
pub open spec fn with_root(m: MetaModel, store: Seq<u8>) -> MetaModel {
    MetaModel { meta: m.meta.insert(root_key(), store), ..m }
}

/// The node's data with a name.
pub open spec fn with_name(m: MetaModel, name: Seq<char>) -> MetaModel {
    MetaModel { meta: m.meta.insert(name_key(), vstd::utf8::encode_utf8(name)), ..m }
}

proof fn lemma_keys_differ()
    ensures
        name_key() != root_key(),
{
    vstd::utf8::encode_utf8_decode_utf8("name"@);
    vstd::utf8::encode_utf8_decode_utf8("root_store"@);
    reveal_strlit("name");
    reveal_strlit("root_store");
    assert("name"@.len() == 4);
    assert("root_store"@.len() == 10);
}

/// The root store is kept, and the name does not touch it.
pub proof fn law_root_store_is_kept(m: MetaModel, store: Seq<u8>, name: Seq<char>)
    requires
        store.len() == 16,
    ensures
        root_of(with_root(m, store)) == Some(store),
        root_of(with_name(with_root(m, store), name)) == Some(store),
        name_of(with_root(m, store)) == name_of(m),
{
    lemma_keys_differ();
}

/// What a node knows of itself.
pub struct MetaStore {
    stores: ByteTable,
    meshes: ByteTable,
    meta: ByteTable,
}

impl View for MetaStore {
    type V = MetaModel;

    closed spec fn view(&self) -> MetaModel {
        MetaModel { stores: self.stores@, meshes: self.meshes@, meta: self.meta@ }
    }
}

impl MetaStore {
    /// The tables are well formed.
    pub closed spec fn wf(&self) -> bool {
        self.stores.wf() && self.meshes.wf() && self.meta.wf()
    }

    /// A node that knows nothing of itself.
    pub fn open() -> (r: Self)
        ensures
            r.wf(),
            r@ == (MetaModel { stores: Map::empty(), meshes: Map::empty(), meta: Map::empty() }),
    {
        MetaStore { stores: ByteTable::new(), meshes: ByteTable::new(), meta: ByteTable::new() }
    }

    /// What is in the given tables.
    pub fn from_tables(stores: ByteTable, meshes: ByteTable, meta: ByteTable) -> (r: Self)
        requires
            stores.wf(),
            meshes.wf(),
            meta.wf(),
        ensures
            r.wf(),
            r@ == (MetaModel { stores: stores@, meshes: meshes@, meta: meta@ }),
    {
        MetaStore { stores, meshes, meta }
    }

    /// The tables: stores, meshes, and everything else.
    pub fn tables(&self) -> (r: (&ByteTable, &ByteTable, &ByteTable))
        requires
            self.wf(),
        ensures
            r.0.wf(),
            r.0@ == self@.stores,
            r.1.wf(),
            r.1@ == self@.meshes,
            r.2.wf(),
            r.2@ == self@.meta,
    {
        (&self.stores, &self.meshes, &self.meta)
    }

    /// Keeps a mesh that the node is part of.
    pub fn add_mesh(&mut self, mesh_id: &Uuid, info: &MeshInfo)
        requires
            old(self).wf(),
        ensures
            final(self).wf(),
            final(self)@ == (MetaModel {
                meshes: old(self)@.meshes.insert(mesh_id@, message::encoded::<MeshInfo>(info@)),
                ..old(self)@
            }),
    {
        self.meshes.insert(mesh_id.as_slice(), message::encode(info));
    }

    /// Forgets a mesh.
    pub fn remove_mesh(&mut self, mesh_id: &Uuid)
        requires
            old(self).wf(),
        ensures
            final(self).wf(),
            final(self)@ == (MetaModel {
                meshes: old(self)@.meshes.remove(mesh_id@),
                ..old(self)@
            }),
    {
        self.meshes.remove(mesh_id.as_slice());
    }

    /// The records of a table, with their identifiers.
    fn list<T: Message>(t: &ByteTable) -> (r: Vec<(Uuid, T)>)
        requires
            t.wf(),
        ensures
            record_models::<T>(r@) == records::<T>(t@, table::sorted_keys(t@.dom())),
    {
        let ghost keys = t.keys();
        let mut out: Vec<(Uuid, T)> = Vec::new();
        let mut i: usize = 0;
        proof {
            t.lemma_keys();
            assert(keys.take(0) =~= Seq::empty());
            assert(record_models::<T>(out@) =~= Seq::empty());
        }
        while i < t.len()
            invariant
                t.wf(),
                keys == t.keys(),
                i <= keys.len(),
                record_models::<T>(out@) == records::<T>(t@, keys.take(i as int)),
            decreases keys.len() - i,
        {
            let ghost before = out@;
            let key = t.key_at(i);
            proof {
                assert(keys.take(i + 1).drop_last() =~= keys.take(i as int));
                assert(keys.take(i + 1).last() == key@);
            }
            let id: Uuid = if key.len() == 16 {
                to_array16(key.as_slice())
            } else {
                [0u8;16]
            };
            assert(id@ =~= key_id(key@));
            match message::decode::<T>(t.value_at(i).as_slice()) {
                Ok(info) => {
                    let ghost x = (id@, info@);
                    out.push((id, info));
                    assert(record_models::<T>(out@) =~= record_models::<T>(before).push(x));
                },
                Err(_) => {},
            }
            i += 1;
        }
        assert(keys.take(i as int) =~= keys);
        out
    }

    /// The meshes that the node is part of.
    pub fn list_meshes(&self) -> (r: Vec<(Uuid, MeshInfo)>)
        requires
            self.wf(),
        ensures
            record_models::<MeshInfo>(r@) == records::<MeshInfo>(
                self@.meshes,
                table::sorted_keys(self@.meshes.dom()),
            ),
    {
        MetaStore::list::<MeshInfo>(&self.meshes)
    }

    /// What is known of a mesh.
    pub fn get_mesh(&self, mesh_id: &Uuid) -> (r: Option<MeshInfo>)
        requires
            self.wf(),
        ensures
            if self@.meshes.dom().contains(mesh_id@) {
                match message::decoded::<MeshInfo>(self@.meshes[mesh_id@]) {
                    Some(m) => r matches Some(x) && x@ == m,
                    None => r is None,
                }
            } else {
                r is None
            },
    {
        match self.meshes.get(mesh_id.as_slice()) {
            Some(stored) => match message::decode::<MeshInfo>(stored.as_slice()) {
                Ok(info) => Some(info),
                Err(_) => None,
            },
            None => None,
        }
    }

    /// Keeps a store of a mesh, made at the given time in milliseconds since the
    /// epoch.
    pub fn add_store_at(&mut self, store_id: &Uuid, mesh_id: &Uuid, now_ms: u64)
        requires
            old(self).wf(),
        ensures
            final(self).wf(),
            final(self)@ == with_store(old(self)@, store_id@, mesh_id@, now_ms),
    {
        let info = StoreMetadata { mesh_id: to_vec(mesh_id.as_slice()), created_at: now_ms };
        self.stores.insert(store_id.as_slice(), message::encode(&info));
    }

    /// Keeps a store of a mesh, made now.
    pub fn add_store_with_mesh(&mut self, store_id: &Uuid, mesh_id: &Uuid)
        requires
            old(self).wf(),
        ensures
            final(self).wf(),
            exists|now_ms: u64|
                final(self)@ == #[trigger] with_store(old(self)@, store_id@, mesh_id@, now_ms),
    {
        let now: u64 = SystemClock.now_ms();
        self.add_store_at(store_id, mesh_id, now);
    }

    /// Keeps a store that is the root of its own mesh, made now.
    pub fn add_store(&mut self, store_id: &Uuid)
        requires
            old(self).wf(),
        ensures
            final(self).wf(),
            exists|now_ms: u64|
                final(self)@ == #[trigger] with_store(old(self)@, store_id@, store_id@, now_ms),
    {
        self.add_store_with_mesh(store_id, store_id);
    }

    /// The stores of the node.
    pub fn list_stores(&self) -> (r: Vec<(Uuid, StoreMetadata)>)
        requires
            self.wf(),
        ensures
            record_models::<StoreMetadata>(r@) == records::<StoreMetadata>(
                self@.stores,
                table::sorted_keys(self@.stores.dom()),
            ),
    {
        MetaStore::list::<StoreMetadata>(&self.stores)
    }

    /// The node's name.
    pub fn name(&self) -> (r: Option<String>)
        requires
            self.wf(),
        ensures
            match name_of(self@) {
                Some(n) => r matches Some(x) && x@ == n,
                None => r is None,
            },
    {
        match self.meta.get("name".as_bytes()) {
            Some(stored) => Some(to_lossy_text(stored.as_slice())),
            None => None,
        }
    }

    /// Gives the node a name, which it has from then on.
    pub fn set_name(&mut self, name: &str)
        requires
            old(self).wf(),
        ensures
            final(self).wf(),
            final(self)@ == with_name(old(self)@, name@),
            name_of(final(self)@) == Some(name@),
    {
        self.meta.insert("name".as_bytes(), to_vec(name.as_bytes()));
        proof {
            watch::law_text_is_read_back(name@);
        }
    }

    /// The root store.
    pub fn root_store(&self) -> (r: Option<Uuid>)
        requires
            self.wf(),
        ensures
            match root_of(self@) {
                Some(id) => r matches Some(x) && x@ == id,
                None => r is None,
            },
    {
        match self.meta.get("root_store".as_bytes()) {
            Some(stored) => if stored.len() == 16 {
                Some(to_array16(stored.as_slice()))
            } else {
                None
            },
            None => None,
        }
    }

    /// Sets the root store.
    pub fn set_root_store(&mut self, store_id: &Uuid)
        requires
            old(self).wf(),
        ensures
            final(self).wf(),
            final(self)@ == with_root(old(self)@, store_id@),
    {
        self.meta.insert("root_store".as_bytes(), to_vec(store_id.as_slice()));
    }
}

/// A store that was added is listed with its mesh and the time, and the others stay listed.
pub proof fn law_added_store_is_kept(
    m: MetaModel,
    store: Seq<u8>,
    mesh: Seq<u8>,
    now_ms: u64,
    other: Seq<u8>,
)
    requires
        other != store,
        message::encoded::<StoreMetadata>(
            StoreMetadataModel { mesh_id: mesh, created_at: now_ms },
        ).len() <= u64::MAX,
    ensures
        ({
            let after = with_store(m, store, mesh, now_ms);
            &&& after.stores.dom().contains(store)
            &&& message::decoded::<StoreMetadata>(after.stores[store]) matches Some(d) && d.mesh_id
                == mesh && d.created_at == now_ms
            &&& after.stores.dom().contains(other) == m.stores.dom().contains(other)
            &&& after.stores[other] == m.stores[other]
            &&& after.meta == m.meta && after.meshes == m.meshes
        }),
{
    crate::proto::storage::law_store_metadata_round_trip(
        StoreMetadataModel { mesh_id: mesh, created_at: now_ms },
    );
}

/// A name that was set is read back, and everything else stays as it was.
pub proof fn law_name_is_read_back(m: MetaModel, name: Seq<char>)
    ensures
        name_of(with_name(m, name)) == Some(name),
        root_of(with_name(m, name)) == root_of(m),
        with_name(m, name).stores == m.stores,
        with_name(m, name).meshes == m.meshes,
{
    lemma_keys_differ();
    watch::law_text_is_read_back(name);
}

/// The records of a table are exactly those that can be read, each with its identifier.
pub proof fn law_records_are_listed<T: Message>(
    m: Map<Seq<u8>, Seq<u8>>,
    keys: Seq<Seq<u8>>,
    id: Seq<u8>,
    x: T::V,
)
    requires
        forall|i: int| 0 <= i < keys.len() ==> (#[trigger] keys[i]).len() == 16,
    ensures
        records::<T>(m, keys).contains((id, x)) <==> keys.contains(id) && message::decoded::<T>(
            m[id],
        ) == Some(x),
    decreases keys.len(),
{
    if keys.len() > 0 {
        let before = keys.drop_last();
        let k = keys.last();
        assert forall|i: int| 0 <= i < before.len() implies (#[trigger] before[i]).len() == 16 by {
            assert(before[i] == keys[i]);
        }
        assert(keys[keys.len() - 1].len() == 16);
        law_records_are_listed::<T>(m, before, id, x);
        assert(keys.contains(id) <==> before.contains(id) || id == k) by {
            if before.contains(id) {
                assert(keys[before.index_of(id)] == id);
            }
            if keys.contains(id) && id != k {
                assert(before[keys.index_of(id)] == id);
            }
            assert(keys[keys.len() - 1] == k);
        }
        let q = records::<T>(m, before);
        let r = records::<T>(m, keys);
        if q.contains((id, x)) {
            assert(r[q.index_of((id, x))] == (id, x));
        }
        if r.contains((id, x)) {
            let i = r.index_of((id, x));
            if i < q.len() {
                assert(q[i] == (id, x));
            }
        }
        if r.len() > q.len() {
            assert(r[r.len() - 1] == r.last());
        }
    }
}

} // verus!
