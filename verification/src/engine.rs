//! The engine: the store's public face.
//!
//! A dictionary-like surface — set, delete, lookup, ordered iteration —
//! over the LSM.  Every mutation is durable in the write-ahead log before
//! it is visible; constructing the engine over the bytes of an existing
//! log reproduces exactly the state those bytes record.

use vstd::prelude::*;

verus! {

use vstd::map::*;
use crate::key::Key;
use crate::lsm;
use crate::lsm::{LSM, apply_ops};
use crate::memtable::entries_sorted;
use crate::value::Value;
use crate::wal::{OpView, spec_encode_op, wal_file_ops, wal_header_bytes};

/// How the engine can fail: every failure comes from the storage layer.
#[derive(Debug, PartialEq, Eq, Structural, Clone, Copy)]
pub enum Error {
    StorageError(lsm::Error),
}

/// The engine encapsulates local storage: it owns the LSM and delegates
/// each operation to it.
pub struct Engine {
    lsm: LSM,
}

impl Engine {
    /// The mapping the store currently holds.
    pub closed spec fn mem(&self) -> Map<Seq<u8>, Seq<u8>> {
        self.lsm.mem()
    }

    /// The store's pairs, keys ascending.
    pub closed spec fn mem_entries(&self) -> Seq<(Seq<u8>, Seq<u8>)> {
        self.lsm.mem_entries()
    }

    /// The bytes of the write-ahead log.
    pub closed spec fn wal_log(&self) -> Seq<u8> {
        self.lsm.wal_log()
    }

    pub closed spec fn wf(&self) -> bool {
        self.lsm.wf()
    }

    /// Start the engine: recover from the bytes of an existing WAL, or
    /// begin fresh and empty with a new log.
    pub fn new(recovered: Option<Vec<u8>>) -> (r: Result<Engine, Error>)
        ensures
            match recovered {
                None => r matches Ok(e) && e.wf() && e.mem() == Map::<Seq<u8>, Seq<u8>>::empty()
                    && e.wal_log() == wal_header_bytes(),
                Some(bytes) => {
                    &&& (r is Ok <==> wal_file_ops(bytes@) is Some)
                    &&& r matches Ok(e) ==> e.wf() && e.wal_log() == bytes@ && e.mem()
                        == apply_ops(Map::empty(), wal_file_ops(bytes@).unwrap())
                },
            },
    {
        match LSM::new(recovered) {
            Ok(l) => Ok(Engine { lsm: l }),
            Err(e) => Err(Error::StorageError(e)),
        }
    }

    /// Start up the engine and make sure it is operational; the same as
    /// `new`, under the name a launching shell reads naturally.
    pub fn start(recovered: Option<Vec<u8>>) -> (r: Result<Engine, Error>)
        ensures
            match recovered {
                None => r matches Ok(e) && e.wf() && e.mem() == Map::<Seq<u8>, Seq<u8>>::empty()
                    && e.wal_log() == wal_header_bytes(),
                Some(bytes) => {
                    &&& (r is Ok <==> wal_file_ops(bytes@) is Some)
                    &&& r matches Ok(e) ==> e.wf() && e.wal_log() == bytes@ && e.mem()
                        == apply_ops(Map::empty(), wal_file_ops(bytes@).unwrap())
                },
            },
    {
        Engine::new(recovered)
    }

    /// Insert a key-value pair into the store.
    ///
    /// On success the change is durable in the WAL and a lookup of the
    /// key returns the inserted value (absent an intervening mutation);
    /// the prior value for the key, if any, is handed back.
    pub fn set(&mut self, key: Key, value: Value) -> (r: Result<Option<Value>, Error>)
        requires
            old(self).wf(),
            old(self).wal_log().len() + 8 + spec_encode_op(OpView::Put(key@, value@)).len()
                <= usize::MAX,
        ensures
            final(self).wf(),
            final(self).mem() == old(self).mem().insert(key@, value@),
            r matches Ok(p) && (p is Some <==> old(self).mem().contains_key(key@)) && (
            p matches Some(x) ==> x@ == old(self).mem()[key@]),
    {
        match self.lsm.set(key, value) {
            Ok(p) => Ok(p),
            Err(e) => Err(Error::StorageError(e)),
        }
    }

    /// Delete a key from the store.
    ///
    /// The key need not exist, in which case the operation changes
    /// nothing and hands back nothing.  On success the deletion is
    /// durable in the WAL and the key can no longer be found.
    pub fn del(&mut self, key: &Key) -> (r: Result<Option<Value>, Error>)
        requires
            old(self).wf(),
            old(self).wal_log().len() + 8 + spec_encode_op(OpView::Delete(key@)).len()
                <= usize::MAX,
        ensures
            final(self).wf(),
            final(self).mem() == old(self).mem().remove(key@),
            r matches Ok(p) && (p is Some <==> old(self).mem().contains_key(key@)) && (
            p matches Some(x) ==> x@ == old(self).mem()[key@]),
    {
        match self.lsm.del(key) {
            Ok(p) => Ok(p),
            Err(e) => Err(Error::StorageError(e)),
        }
    }

    /// Look up the value for the given key, if it exists.  No state
    /// changes.
    pub fn get(&self, key: &Key) -> (r: Result<Option<Value>, Error>)
        requires
            self.wf(),
        ensures
            r matches Ok(o) && (o is Some <==> self.mem().contains_key(key@)) && (o matches Some(v)
                ==> v@ == self.mem()[key@]),
    {
        match self.lsm.get(key) {
            Ok(o) => Ok(o),
            Err(e) => Err(Error::StorageError(e)),
        }
    }

    /// The store's pairs in ascending key order.
    pub fn iter(&self) -> (r: EngineIterator)
        requires
            self.wf(),
        ensures
            r.wf(),
            r.position() == 0,
            r.items_view() == self.mem_entries(),
            entries_sorted(r.items_view()),
    {
        self.lsm.iter()
    }

    /// The WAL's bytes, copied; what a fresh engine would recover from.
    pub fn wal_contents(&self) -> (r: Vec<u8>)
        ensures
            r@ == self.wal_log(),
    {
        self.lsm.wal_contents()
    }

    /// The WAL bytes appended since the shell last carried any to disk.
    pub fn take_unsynced_wal(&mut self) -> (r: Vec<u8>)
        requires
            old(self).wf(),
        ensures
            final(self).wf(),
            final(self).mem() == old(self).mem(),
            final(self).wal_log() == old(self).wal_log(),
    {
        self.lsm.take_unsynced_wal()
    }
}

/// Durability: a well-formed engine's WAL replays to a history whose
/// effect is exactly the engine's contents, so an engine constructed over
/// those bytes reproduces the same mapping (see `Engine::new`).
pub proof fn lemma_engine_durability(e: Engine)
    requires
        e.wf(),
    ensures
        wal_file_ops(e.wal_log()) is Some,
        apply_ops(Map::empty(), wal_file_ops(e.wal_log()).unwrap()) == e.mem(),
{
    lsm::lemma_recovery_reconstructs(e.lsm);
}

/// Iteration over the store's pairs, in ascending key order; a snapshot
/// of the memtable at the time it was made.
pub struct EngineIterator {
    items: Vec<(Key, Value)>,
    pos: usize,
}

impl EngineIterator {
    /// The pairs this iterator yields, in order.
    pub closed spec fn items_view(&self) -> Seq<(Seq<u8>, Seq<u8>)> {
        self.items@.map_values(|e: (Key, Value)| (e.0@, e.1@))
    }

    /// How many pairs have been yielded already.
    pub closed spec fn position(&self) -> int {
        self.pos as int
    }

    pub open spec fn wf(&self) -> bool {
        0 <= self.position() <= self.items_view().len()
    }

    /// An iterator over the given pairs, from the first.
    pub fn new(items: Vec<(Key, Value)>) -> (r: EngineIterator)
        ensures
            r.wf(),
            r.position() == 0,
            r.items_view() == items@.map_values(|e: (Key, Value)| (e.0@, e.1@)),
    {
        EngineIterator { items, pos: 0 }
    }

    /// The next pair, or nothing when the pairs are exhausted.
    pub fn next(&mut self) -> (r: Option<(Key, Value)>)
        requires
            old(self).wf(),
        ensures
            final(self).wf(),
            final(self).items_view() == old(self).items_view(),
            old(self).position() == old(self).items_view().len() ==> r is None
                && final(self).position() == old(self).position(),
            old(self).position() < old(self).items_view().len() ==> (r matches Some(p) && (p.0@,
            p.1@) == old(self).items_view()[old(self).position()]
                && final(self).position() == old(self).position() + 1),
    {
        if self.pos == self.items.len() {
            None
        } else {
            let k = Key::new(self.items[self.pos].0.to_vec());
            let v = Value::new(self.items[self.pos].1.to_vec());
            self.pos = self.pos + 1;
            Some((k, v))
        }
    }
}

} // verus!
