//! The log-structured merge tree: the storage engine's core.
//!
//! The LSM binds a write-ahead log, the in-memory ordered table (C0) and
//! an ordered vector of slabs describing on-disk SSTables (C1).  Every
//! mutation is recorded in the WAL before the memtable changes, so that
//! replaying the log reconstructs exactly the table's contents; lookups
//! probe the memtable first and consult the slab list on a miss.
//!
//! The invariant carried by every operation — that the WAL's bytes parse
//! to an operation sequence whose effect is precisely the memtable's map —
//! is what makes startup recovery exact.

use vstd::prelude::*;

verus! {

use vstd::map::*;
use crate::binary_io::frame;
use crate::key::Key;
use crate::value::Value;
use crate::memtable::Memtable;
use crate::sstable::{Slab, slab_covers};
use crate::wal;
use crate::wal::{
    Operation, OpView, WalWriter, WalReader, spec_encode_op, op_bounded, parse_op_at,
    parse_ops_from, parse_wal_header, wal_file_ops, wal_header_bytes, lemma_wal_header_ops,
    lemma_parse_ops_append, lemma_parse_wal_header_extend, lemma_parse_op_len,
};
use crate::engine::EngineIterator;

/// How the storage engine can fail.
#[derive(Debug, PartialEq, Eq, Structural, Clone, Copy)]
pub enum Error {
    /// The write-ahead log failed, or replaying it hit a truncated or
    /// malformed record.
    WalError(wal::Error),
    /// An SSTable could not be opened or read.
    SSTableError(crate::sstable::Error),
}

/// The effect of one operation on a key-value mapping.
pub open spec fn apply_op(m: Map<Seq<u8>, Seq<u8>>, op: OpView) -> Map<Seq<u8>, Seq<u8>> {
    match op {
        OpView::Put(k, v) => m.insert(k, v),
        OpView::Delete(k) => m.remove(k),
    }
}

/// The effect of a sequence of operations, applied in order.
pub open spec fn apply_ops(m: Map<Seq<u8>, Seq<u8>>, ops: Seq<OpView>) -> Map<Seq<u8>, Seq<u8>>
    decreases ops.len(),
{
    if ops.len() == 0 {
        m
    } else {
        apply_ops(apply_op(m, ops[0]), ops.drop_first())
    }
}

/// Applying one more operation applies it to the accumulated effect.
pub proof fn lemma_apply_ops_push(m: Map<Seq<u8>, Seq<u8>>, ops: Seq<OpView>, op: OpView)
    ensures
        apply_ops(m, ops.push(op)) == apply_op(apply_ops(m, ops), op),
    decreases ops.len(),
{
    if ops.len() == 0 {
        assert(ops.push(op)[0] == op);
        assert(ops.push(op).drop_first() =~= Seq::<OpView>::empty());
        assert(apply_ops(apply_op(m, op), Seq::<OpView>::empty()) == apply_op(m, op));
    } else {
        assert(ops.push(op)[0] == ops[0]);
        assert(ops.push(op).drop_first() =~= ops.drop_first().push(op));
        lemma_apply_ops_push(apply_op(m, ops[0]), ops.drop_first(), op);
    }
}

/// The LSM: a WAL writer held for the engine's lifetime, the memtable,
/// and the sorted slab vector (empty in this core, which implements no
/// flush; the lookup path still consults it).
pub struct LSM {
    wal: WalWriter,
    memtable: Memtable,
    slabs: Vec<Slab>,
}

impl LSM {
    /// The mapping the store currently holds.
    pub closed spec fn mem(&self) -> Map<Seq<u8>, Seq<u8>> {
        self.memtable.as_map()
    }

    /// The memtable's pairs, keys ascending.
    pub closed spec fn mem_entries(&self) -> Seq<(Seq<u8>, Seq<u8>)> {
        self.memtable.model()
    }

    /// The bytes of the write-ahead log.
    pub closed spec fn wal_log(&self) -> Seq<u8> {
        self.wal.log()
    }

    /// Whether the WAL writer discards writes (only during recovery).
    pub closed spec fn wal_is_null(&self) -> bool {
        self.wal.is_null()
    }

    /// The structural invariant: memtable sorted, WAL writer sound, and
    /// no slabs (this core does not flush).
    pub closed spec fn inv(&self) -> bool {
        &&& self.memtable.wf()
        &&& self.wal.wf()
        &&& self.slabs@.len() == 0
    }

    /// Durability invariant: the WAL's bytes replay to exactly the
    /// memtable's contents.
    pub open spec fn wf(&self) -> bool {
        &&& self.inv()
        &&& !self.wal_is_null()
        &&& wal_file_ops(self.wal_log()) is Some
        &&& apply_ops(Map::empty(), wal_file_ops(self.wal_log()).unwrap()) == self.mem()
    }

    /// Start the engine.  With no prior WAL (`None`) a fresh log is
    /// created and the store starts empty.  With the bytes of an existing
    /// WAL, the log is opened, every recorded operation is replayed into
    /// a scratch store whose WAL discards writes, and the log is then
    /// resumed for appending: the store holds exactly the durable
    /// history.  A truncated or malformed record is fatal: the engine
    /// refuses to start rather than present a partial view.
    pub fn new(recovered: Option<Vec<u8>>) -> (r: Result<LSM, Error>)
        ensures
            match recovered {
                None => r matches Ok(l) && l.wf() && l.mem() == Map::<Seq<u8>, Seq<u8>>::empty()
                    && l.wal_log() == wal_header_bytes(),
                Some(bytes) => {
                    &&& (r is Ok <==> wal_file_ops(bytes@) is Some)
                    &&& r matches Ok(l) ==> l.wf() && l.wal_log() == bytes@ && l.mem()
                        == apply_ops(Map::empty(), wal_file_ops(bytes@).unwrap())
                },
            },
    {
        match recovered {
            None => {
                let wal = WalWriter::create();
                let l = LSM { wal, memtable: Memtable::new(), slabs: Vec::new() };
                proof {
                    lemma_wal_header_ops();
                }
                Ok(l)
            },
            Some(bytes) => Self::init_with_recovery(bytes),
        }
    }

    /// Replay an existing WAL into a scratch store, then resume the log.
    fn init_with_recovery(bytes: Vec<u8>) -> (r: Result<LSM, Error>)
        ensures
            r is Ok <==> wal_file_ops(bytes@) is Some,
            r matches Ok(l) ==> l.wf() && l.wal_log() == bytes@ && l.mem() == apply_ops(
                Map::empty(),
                wal_file_ops(bytes@).unwrap(),
            ),
    {
        let ghost bytes0 = bytes@;
        let blen: usize = bytes.len();
        let log_copy = bytes.clone();
        proof {
            assert(log_copy@ =~= bytes0);
        }
        let mut reader = match WalReader::open(log_copy) {
            Ok(rd) => rd,
            Err(e) => {
                return Err(Error::WalError(e));
            },
        };
        let ghost hdr_end = parse_wal_header(bytes0).unwrap();
        let mut lsm = LSM { wal: WalWriter::null(), memtable: Memtable::new(), slabs: Vec::new() };
        let ghost mut processed: Seq<OpView> = Seq::empty();
        proof {
            assert(Seq::<OpView>::empty() + parse_ops_from(bytes0, hdr_end).unwrap()
                =~= parse_ops_from(bytes0, hdr_end).unwrap());
        }
        loop
            invariant
                lsm.inv(),
                lsm.wal_is_null(),
                lsm.wal_log().len() == 0,
                lsm.mem() == apply_ops(Map::empty(), processed),
                reader.wf(),
                reader.log() == bytes0,
                bytes0 == bytes@,
                bytes0.len() == blen,
                parse_wal_header(bytes0) == Some(hdr_end),
                0 <= hdr_end <= bytes0.len(),
                match parse_ops_from(bytes0, reader.cursor()) {
                    Some(rest) => parse_ops_from(bytes0, hdr_end) == Some(processed + rest),
                    None => parse_ops_from(bytes0, hdr_end) is None,
                },
            ensures
                lsm.inv(),
                lsm.wal_is_null(),
                lsm.mem() == apply_ops(Map::empty(), processed),
                wal_file_ops(bytes0) == Some(processed),
            decreases bytes0.len() - reader.cursor(),
        {
            let ghost cur = reader.cursor();
            match reader.next() {
                None => {
                    proof {
                        assert(parse_ops_from(bytes0, cur) == Some(Seq::<OpView>::empty()));
                        assert(processed + Seq::<OpView>::empty() =~= processed);
                    }
                    break ;
                },
                Some(Err(e)) => {
                    proof {
                        assert(parse_op_at(bytes0, cur) is None);
                        assert(parse_ops_from(bytes0, cur) is None);
                    }
                    return Err(Error::WalError(e));
                },
                Some(Ok(op)) => {
                    let ghost ov = op@;
                    let ghost e = reader.cursor();
                    proof {
                        assert(parse_op_at(bytes0, cur) == Some((ov, e)));
                        assert(cur < e <= bytes0.len());
                        let payload = crate::binary_io::parse_frame(bytes0, cur).unwrap().0;
                        lemma_parse_op_len(payload);
                        assert(spec_encode_op(ov).len() == payload.len());
                        assert(payload.len() + 8 + cur <= bytes0.len());
                        assert(bytes0.len() == blen);
                        assert(8 + spec_encode_op(ov).len() <= usize::MAX);
                        match parse_ops_from(bytes0, e) {
                            Some(rest2) => {
                                assert(parse_ops_from(bytes0, cur) == Some(seq![ov] + rest2));
                                assert(processed + (seq![ov] + rest2) =~= processed.push(ov)
                                    + rest2);
                            },
                            None => {
                                assert(parse_ops_from(bytes0, cur) is None);
                            },
                        }
                    }
                    let applied = match op {
                        Operation::Put(k, v) => lsm.set(k, v),
                        Operation::Delete(k) => lsm.del(&k),
                    };
                    match applied {
                        Ok(_) => {},
                        Err(e) => {
                            return Err(e);
                        },
                    }
                    proof {
                        lemma_apply_ops_push(Map::empty(), processed, ov);
                        processed = processed.push(ov);
                    }
                },
            }
        }
        lsm.wal = WalWriter::resume(bytes);
        Ok(lsm)
    }

    /// Insert a key-value pair: record the operation in the WAL, then
    /// store the pair, handing back the value the key held before, if
    /// any.
    pub fn set(&mut self, k: Key, v: Value) -> (r: Result<Option<Value>, Error>)
        requires
            old(self).inv(),
            old(self).wal_log().len() + 8 + spec_encode_op(OpView::Put(k@, v@)).len()
                <= usize::MAX,
        ensures
            final(self).inv(),
            final(self).mem() == old(self).mem().insert(k@, v@),
            final(self).wal_is_null() == old(self).wal_is_null(),
            r matches Ok(p) && (p is Some <==> old(self).mem().contains_key(k@)) && (p matches Some(
                x,
            ) ==> x@ == old(self).mem()[k@]),
            !old(self).wal_is_null() ==> final(self).wal_log() == old(self).wal_log() + frame(
                spec_encode_op(OpView::Put(k@, v@)),
            ),
            old(self).wal_is_null() ==> final(self).wal_log() == old(self).wal_log(),
            old(self).wf() ==> final(self).wf(),
    {
        let op = Operation::Put(Key::new(k.to_vec()), Value::new(v.to_vec()));
        match self.wal.write(&op) {
            Ok(_) => {},
            Err(e) => {
                return Err(Error::WalError(e));
            },
        }
        let prior = self.memtable.insert(k, v);
        proof {
            if old(self).wf() {
                lemma_wf_after_append(old(self).wal_log(), op@, self.wal_log());
                lemma_apply_ops_push(
                    Map::empty(),
                    wal_file_ops(old(self).wal_log()).unwrap(),
                    op@,
                );
            }
        }
        Ok(prior)
    }

    /// Delete a key: record the operation in the WAL, then remove the
    /// entry, handing back the value it held, if any.  Deleting an absent
    /// key is not an error.
    pub fn del(&mut self, k: &Key) -> (r: Result<Option<Value>, Error>)
        requires
            old(self).inv(),
            old(self).wal_log().len() + 8 + spec_encode_op(OpView::Delete(k@)).len()
                <= usize::MAX,
        ensures
            final(self).inv(),
            final(self).mem() == old(self).mem().remove(k@),
            final(self).wal_is_null() == old(self).wal_is_null(),
            r matches Ok(p) && (p is Some <==> old(self).mem().contains_key(k@)) && (p matches Some(
                x,
            ) ==> x@ == old(self).mem()[k@]),
            !old(self).wal_is_null() ==> final(self).wal_log() == old(self).wal_log() + frame(
                spec_encode_op(OpView::Delete(k@)),
            ),
            old(self).wal_is_null() ==> final(self).wal_log() == old(self).wal_log(),
            old(self).wf() ==> final(self).wf(),
    {
        let op = Operation::Delete(Key::new(k.to_vec()));
        match self.wal.write(&op) {
            Ok(_) => {},
            Err(e) => {
                return Err(Error::WalError(e));
            },
        }
        let prior = self.memtable.remove(k);
        proof {
            if old(self).wf() {
                lemma_wf_after_append(old(self).wal_log(), op@, self.wal_log());
                lemma_apply_ops_push(
                    Map::empty(),
                    wal_file_ops(old(self).wal_log()).unwrap(),
                    op@,
                );
            }
        }
        Ok(prior)
    }

    /// Look a key up: probe the memtable; on a miss, search the slab
    /// vector for a covering slab.  No state changes.
    pub fn get(&self, k: &Key) -> (r: Result<Option<Value>, Error>)
        requires
            self.inv(),
        ensures
            r matches Ok(o) && (o is Some <==> self.mem().contains_key(k@)) && (o matches Some(v)
                ==> v@ == self.mem()[k@]),
    {
        match self.memtable.get(k) {
            Some(v) => Ok(Some(Value::new(v.to_vec()))),
            None => {
                let key_bytes = k.to_vec();
                match find_covering_slab(&self.slabs, &key_bytes) {
                    Some(_) => {
                        proof {
                            assert(false);
                        }
                        Ok(None)
                    },
                    None => Ok(None),
                }
            },
        }
    }

    /// The store's pairs in ascending key order, as a lazy sequence.
    pub fn iter(&self) -> (r: EngineIterator)
        requires
            self.inv(),
        ensures
            r.wf(),
            r.position() == 0,
            r.items_view() == self.mem_entries(),
            crate::memtable::entries_sorted(r.items_view()),
    {
        EngineIterator::new(self.memtable.pairs())
    }

    /// The WAL's bytes, copied; what a fresh engine would recover from.
    pub fn wal_contents(&self) -> (r: Vec<u8>)
        ensures
            r@ == self.wal_log(),
    {
        self.wal.contents()
    }

    /// The WAL bytes appended since the shell last carried any to disk.
    pub fn take_unsynced_wal(&mut self) -> (r: Vec<u8>)
        requires
            old(self).inv(),
        ensures
            final(self).inv(),
            final(self).mem() == old(self).mem(),
            final(self).wal_log() == old(self).wal_log(),
            final(self).wf() == old(self).wf(),
    {
        self.wal.take_unsynced()
    }
}

/// Index of the first slab whose key range covers `k`, if any.
pub fn find_covering_slab(slabs: &Vec<Slab>, k: &Vec<u8>) -> (r: Option<usize>)
    ensures
        match r {
            Some(i) => i < slabs@.len() && slab_covers(slabs@[i as int], k@) && forall|j: int|
                0 <= j < i ==> !slab_covers(slabs@[j], k@),
            None => forall|j: int| 0 <= j < slabs@.len() ==> !slab_covers(slabs@[j], k@),
        },
{
    let mut i: usize = 0;
    while i < slabs.len()
        invariant
            i <= slabs@.len(),
            forall|j: int| 0 <= j < i ==> !slab_covers(slabs@[j], k@),
        decreases slabs@.len() - i,
    {
        if slabs[i].covers(k) {
            return Some(i);
        }
        i = i + 1;
    }
    None
}

/// Appending one encoded operation record to a well-formed WAL extends
/// its parsed history by that operation.
proof fn lemma_wf_after_append(log: Seq<u8>, op: OpView, log1: Seq<u8>)
    requires
        wal_file_ops(log) is Some,
        op_bounded(op),
        log1 == log + frame(spec_encode_op(op)),
    ensures
        wal_file_ops(log1) == Some(wal_file_ops(log).unwrap().push(op)),
{
    let hdr = parse_wal_header(log).unwrap();
    lemma_parse_wal_header_extend(log, frame(spec_encode_op(op)));
    lemma_parse_ops_append(log, hdr, wal_file_ops(log).unwrap(), op);
}

/// Recovery is exact: the WAL of a well-formed engine replays to an
/// operation history whose effect is precisely the engine's contents, so
/// an engine started from those bytes reproduces the same mapping.
pub proof fn lemma_recovery_reconstructs(l: LSM)
    requires
        l.wf(),
    ensures
        wal_file_ops(l.wal_log()) is Some,
        apply_ops(Map::empty(), wal_file_ops(l.wal_log()).unwrap()) == l.mem(),
{
}

} // verus!
