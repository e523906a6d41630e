//! The write-ahead log.
//!
//! An append-only binary log: a framed file header (the stanza tag
//! `"r2d2::wal"` and a one-byte version) followed by framed operation
//! records in append order.  Every mutation is written here before it
//! becomes visible in memory; after a crash the log is replayed in order
//! to reconstruct the last acknowledged state.
//!
//! The log is modelled as the byte string it holds.  `WalWriter` appends
//! frames to that byte string; the shell around the library carries the
//! unsynced suffix to the operating system after each write.  `WalReader`
//! parses the byte string back, stopping cleanly at its end and failing on
//! a truncated or malformed record.

use vstd::prelude::*;

verus! {

use vstd::string::{StrSliceExecFns, StringSliceAdditionalSpecFns};
use crate::binary_io;
use crate::binary_io::{frame, parse_frame, read_frame, write_frame, lemma_parse_frame_frame};
use crate::key::Key;
use crate::value::Value;

/// The format version this library writes.
pub const VERSION: u8 = 1;

/// Record tag of a `Set` operation.
pub const SET_TAG: u8 = 0;

/// Record tag of a `Delete` operation.
pub const DELETE_TAG: u8 = 1;

/// How the write-ahead log can fail: every failure is a framing or
/// decoding failure of the underlying binary stream.
#[derive(Debug, PartialEq, Eq, Structural, Clone, Copy)]
pub enum Error {
    BinIoError(binary_io::Error),
}

/// The operation to persist in the WAL: the unit of durability and of
/// replay.
#[derive(Debug, PartialEq, Eq)]
pub enum Operation {
    /// Commit a set of the provided key-value pair.
    Put(Key, Value),
    /// Commit the deletion of the provided key.
    Delete(Key),
}

/// What an operation says, as plain byte sequences.
pub enum OpView {
    Put(Seq<u8>, Seq<u8>),
    Delete(Seq<u8>),
}

impl View for Operation {
    type V = OpView;

    open spec fn view(&self) -> OpView {
        match self {
            Operation::Put(k, v) => OpView::Put(k@, v@),
            Operation::Delete(k) => OpView::Delete(k@),
        }
    }
}

/// The payload encoding of one operation: a tag byte, then the key as a
/// length-prefixed byte string, then (for `Set`) the value likewise.
pub open spec fn spec_encode_op(op: OpView) -> Seq<u8> {
    match op {
        OpView::Put(k, v) => seq![SET_TAG] + frame(k) + frame(v),
        OpView::Delete(k) => seq![DELETE_TAG] + frame(k),
    }
}

/// The operation is short enough for its record to be framed.
pub open spec fn op_bounded(op: OpView) -> bool {
    spec_encode_op(op).len() <= u64::MAX
}

/// Parse one operation payload; the whole payload must be consumed.
pub open spec fn parse_op(p: Seq<u8>) -> Option<OpView> {
    if p.len() < 1 {
        None
    } else if p[0] == SET_TAG {
        match parse_frame(p, 1) {
            Some((k, m)) => match parse_frame(p, m) {
                Some((v, end)) => if end == p.len() {
                    Some(OpView::Put(k, v))
                } else {
                    None
                },
                None => None,
            },
            None => None,
        }
    } else if p[0] == DELETE_TAG {
        match parse_frame(p, 1) {
            Some((k, end)) => if end == p.len() {
                Some(OpView::Delete(k))
            } else {
                None
            },
            None => None,
        }
    } else {
        None
    }
}

/// An encoded operation parses back to itself.
pub proof fn lemma_parse_op_encode(op: OpView)
    requires
        op_bounded(op),
    ensures
        parse_op(spec_encode_op(op)) == Some(op),
{
    let p = spec_encode_op(op);
    binary_io::lemma_frame_len_auto();
    match op {
        OpView::Put(k, v) => {
            assert(p =~= seq![SET_TAG] + frame(k) + (frame(v) + Seq::<u8>::empty()));
            assert((seq![SET_TAG] + frame(k) + (frame(v) + Seq::<u8>::empty())) =~= (seq![SET_TAG])
                + frame(k) + (frame(v) + Seq::<u8>::empty()));
            lemma_parse_frame_frame(seq![SET_TAG], k, frame(v) + Seq::<u8>::empty());
            assert(p =~= (seq![SET_TAG] + frame(k)) + frame(v) + Seq::<u8>::empty());
            lemma_parse_frame_frame(seq![SET_TAG] + frame(k), v, Seq::<u8>::empty());
            assert(p[0] == SET_TAG);
            assert(parse_frame(p, 1) == Some((k, 1 + 8 + k.len() as int)));
            assert(parse_frame(p, 1 + 8 + k.len() as int) == Some(
                (v, 1 + 8 + k.len() + 8 + v.len() as int),
            ));
            assert(p.len() == 1 + 8 + k.len() + 8 + v.len());
        },
        OpView::Delete(k) => {
            assert(p =~= seq![DELETE_TAG] + frame(k) + Seq::<u8>::empty());
            lemma_parse_frame_frame(seq![DELETE_TAG], k, Seq::<u8>::empty());
            assert(p[0] == DELETE_TAG);
            assert(parse_frame(p, 1) == Some((k, 1 + 8 + k.len() as int)));
            assert(p.len() == 1 + 8 + k.len());
        },
    }
}

impl Operation {
    /// Encode this operation as a payload.
    pub fn encode(&self) -> (r: Vec<u8>)
        requires
            spec_encode_op(self@).len() <= usize::MAX,
        ensures
            r@ == spec_encode_op(self@),
    {
        proof {
            binary_io::lemma_frame_len_auto();
        }
        let mut out: Vec<u8> = Vec::new();
        match self {
            Operation::Put(k, v) => {
                out.push(SET_TAG);
                write_frame(&mut out, k.as_slice());
                write_frame(&mut out, v.as_slice());
                proof {
                    assert(out@ =~= spec_encode_op(self@));
                }
            },
            Operation::Delete(k) => {
                out.push(DELETE_TAG);
                write_frame(&mut out, k.as_slice());
                proof {
                    assert(out@ =~= spec_encode_op(self@));
                }
            },
        }
        out
    }

    /// Decode one operation payload; fails unless the whole payload is
    /// one well-formed operation record.
    pub fn decode(p: &[u8]) -> (r: Result<Operation, binary_io::Error>)
        ensures
            match parse_op(p@) {
                Some(o) => r matches Ok(op) && op@ == o,
                None => r == Err::<Operation, binary_io::Error>(
                    binary_io::Error::SerializationError,
                ),
            },
    {
        if p.len() < 1 {
            return Err(binary_io::Error::SerializationError);
        }
        let tag = p[0];
        if tag == SET_TAG {
            match read_frame(p, 1) {
                Ok((k, m)) => match read_frame(p, m) {
                    Ok((v, end)) => {
                        if end == p.len() {
                            Ok(Operation::Put(Key::new(k), Value::new(v)))
                        } else {
                            Err(binary_io::Error::SerializationError)
                        }
                    },
                    Err(_) => Err(binary_io::Error::SerializationError),
                },
                Err(_) => Err(binary_io::Error::SerializationError),
            }
        } else if tag == DELETE_TAG {
            match read_frame(p, 1) {
                Ok((k, end)) => {
                    if end == p.len() {
                        Ok(Operation::Delete(Key::new(k)))
                    } else {
                        Err(binary_io::Error::SerializationError)
                    }
                },
                Err(_) => Err(binary_io::Error::SerializationError),
            }
        } else {
            Err(binary_io::Error::SerializationError)
        }
    }
}

/// A parsed operation record is exactly as long as the record that the
/// operation encodes to.
pub proof fn lemma_parse_op_len(p: Seq<u8>)
    requires
        parse_op(p) is Some,
    ensures
        spec_encode_op(parse_op(p).unwrap()).len() == p.len(),
{
    binary_io::lemma_frame_len_auto();
}

/// A versioned file header: a stanza tag naming the format, and the
/// format version.
pub struct FileHeader {
    pub stanza: Vec<u8>,
    pub version: u8,
}

impl FileHeader {
    /// A header carrying the UTF-8 bytes of `stanza` and `version`.
    pub fn new(stanza: &str, version: u8) -> (h: FileHeader)
        ensures
            h.stanza@ == stanza.spec_bytes(),
            h.version == version,
    {
        FileHeader { stanza: stanza.as_bytes_vec(), version }
    }
}

/// The payload encoding of a file header: the stanza as a
/// length-prefixed byte string, then the version byte.
pub open spec fn spec_encode_header(stanza: Seq<u8>, version: u8) -> Seq<u8> {
    frame(stanza) + seq![version]
}

/// Parse one header payload; the whole payload must be consumed.
pub open spec fn parse_header(p: Seq<u8>) -> Option<(Seq<u8>, u8)> {
    match parse_frame(p, 0) {
        Some((s, m)) => if m + 1 == p.len() {
            Some((s, p[m]))
        } else {
            None
        },
        None => None,
    }
}

/// An encoded header parses back to itself.
pub proof fn lemma_parse_header_encode(stanza: Seq<u8>, version: u8)
    requires
        stanza.len() <= u64::MAX,
    ensures
        parse_header(spec_encode_header(stanza, version)) == Some((stanza, version)),
{
    let p = spec_encode_header(stanza, version);
    binary_io::lemma_frame_len_auto();
    assert(p =~= Seq::<u8>::empty() + frame(stanza) + seq![version]);
    lemma_parse_frame_frame(Seq::<u8>::empty(), stanza, seq![version]);
    assert(parse_frame(p, 0) == Some((stanza, 8 + stanza.len() as int)));
    assert(p[8 + stanza.len() as int] == version);
}

/// The WAL's stanza tag: the bytes of `"r2d2::wal"`.
pub open spec fn wal_stanza() -> Seq<u8> {
    seq![114u8, 50u8, 100u8, 50u8, 58u8, 58u8, 119u8, 97u8, 108u8]
}

/// The stanza tag as a vector.
fn wal_stanza_bytes() -> (r: Vec<u8>)
    ensures
        r@ == wal_stanza(),
{
    let mut r: Vec<u8> = Vec::new();
    r.push(114);
    r.push(50);
    r.push(100);
    r.push(50);
    r.push(58);
    r.push(58);
    r.push(119);
    r.push(97);
    r.push(108);
    proof {
        assert(r@ =~= wal_stanza());
    }
    r
}

/// The bytes a fresh WAL file starts with: the framed file header.
pub open spec fn wal_header_bytes() -> Seq<u8> {
    frame(spec_encode_header(wal_stanza(), VERSION))
}

/// Parse and verify the WAL file header; on success, the position of the
/// first operation record.
pub open spec fn parse_wal_header(bytes: Seq<u8>) -> Option<int> {
    match parse_frame(bytes, 0) {
        Some((p, end)) => match parse_header(p) {
            Some((stanza, version)) => if stanza == wal_stanza() && version == VERSION {
                Some(end)
            } else {
                None
            },
            None => None,
        },
        None => None,
    }
}

/// One framed operation record at position `pos`: the operation and the
/// position just past its frame.
pub open spec fn parse_op_at(bytes: Seq<u8>, pos: int) -> Option<(OpView, int)> {
    match parse_frame(bytes, pos) {
        Some((p, end)) => match parse_op(p) {
            Some(o) => Some((o, end)),
            None => None,
        },
        None => None,
    }
}

/// The operations recorded from position `pos` to the end of the log;
/// `None` when a truncated or malformed record stands in the way.
pub open spec fn parse_ops_from(bytes: Seq<u8>, pos: int) -> Option<Seq<OpView>>
    decreases bytes.len() - pos
        when 0 <= pos <= bytes.len()
{
    if pos == bytes.len() {
        Some(Seq::empty())
    } else {
        match parse_op_at(bytes, pos) {
            Some((o, e)) => if pos < e <= bytes.len() {
                match parse_ops_from(bytes, e) {
                    Some(rest) => Some(seq![o] + rest),
                    None => None,
                }
            } else {
                None
            },
            None => None,
        }
    }
}

/// The operations a WAL file records, in order: its header followed by
/// operation records up to a clean end of file.
pub open spec fn wal_file_ops(bytes: Seq<u8>) -> Option<Seq<OpView>> {
    match parse_wal_header(bytes) {
        Some(p) => if 0 <= p <= bytes.len() {
            parse_ops_from(bytes, p)
        } else {
            None
        },
        None => None,
    }
}

/// The bytes of a WAL file holding exactly the operations `ops`.
pub open spec fn wal_log_for(ops: Seq<OpView>) -> Seq<u8>
    decreases ops.len(),
{
    if ops.len() == 0 {
        wal_header_bytes()
    } else {
        wal_log_for(ops.drop_last()) + frame(spec_encode_op(ops.last()))
    }
}

/// A successful frame parse still succeeds, unchanged, after more bytes
/// are appended to the buffer.
pub proof fn lemma_parse_frame_extend(bytes: Seq<u8>, suffix: Seq<u8>, pos: int)
    requires
        parse_frame(bytes, pos) is Some,
    ensures
        parse_frame(bytes + suffix, pos) == parse_frame(bytes, pos),
{
    let ext = bytes + suffix;
    assert(ext.subrange(pos, pos + 8) =~= bytes.subrange(pos, pos + 8));
    let n = vstd::bytes::spec_u64_from_le_bytes(bytes.subrange(pos, pos + 8)) as int;
    assert(ext.subrange(pos + 8, pos + 8 + n) =~= bytes.subrange(pos + 8, pos + 8 + n));
}

/// Appending one encoded operation record to a log extends the parsed
/// operation sequence by exactly that operation.
pub proof fn lemma_parse_ops_append(bytes: Seq<u8>, pos: int, ops: Seq<OpView>, op: OpView)
    requires
        0 <= pos <= bytes.len(),
        op_bounded(op),
        parse_ops_from(bytes, pos) == Some(ops),
    ensures
        parse_ops_from(bytes + frame(spec_encode_op(op)), pos) == Some(ops.push(op)),
    decreases bytes.len() - pos,
{
    binary_io::lemma_frame_len_auto();
    let enc = spec_encode_op(op);
    let ext = bytes + frame(enc);
    if pos == bytes.len() {
        assert(ext =~= bytes + frame(enc) + Seq::<u8>::empty());
        lemma_parse_frame_frame(bytes, enc, Seq::<u8>::empty());
        assert(parse_frame(ext, pos) == Some((enc, pos + 8 + enc.len() as int)));
        lemma_parse_op_encode(op);
        assert(parse_op_at(ext, pos) == Some((op, ext.len() as int)));
        assert(parse_ops_from(ext, ext.len() as int) == Some(Seq::<OpView>::empty()));
        assert(seq![op] + Seq::<OpView>::empty() =~= ops.push(op));
    } else {
        let (o, e) = parse_op_at(bytes, pos).unwrap();
        lemma_parse_frame_extend(bytes, frame(enc), pos);
        assert(parse_op_at(ext, pos) == Some((o, e)));
        let rest = parse_ops_from(bytes, e).unwrap();
        lemma_parse_ops_append(bytes, e, rest, op);
        assert(seq![o] + rest.push(op) =~= (seq![o] + rest).push(op));
    }
}

/// The WAL header of a log parses the same after more bytes are appended.
pub proof fn lemma_parse_wal_header_extend(bytes: Seq<u8>, suffix: Seq<u8>)
    requires
        parse_wal_header(bytes) is Some,
    ensures
        parse_wal_header(bytes + suffix) == parse_wal_header(bytes),
{
    lemma_parse_frame_extend(bytes, suffix, 0);
}

/// A fresh WAL holds no operations: its header parses and is followed by
/// a clean end of file.
pub proof fn lemma_wal_header_ops()
    ensures
        wal_file_ops(wal_header_bytes()) == Some(Seq::<OpView>::empty()),
        parse_wal_header(wal_header_bytes()) == Some(wal_header_bytes().len() as int),
{
    binary_io::lemma_frame_len_auto();
    let payload = spec_encode_header(wal_stanza(), VERSION);
    assert(wal_header_bytes() =~= Seq::<u8>::empty() + frame(payload) + Seq::<u8>::empty());
    lemma_parse_frame_frame(Seq::<u8>::empty(), payload, Seq::<u8>::empty());
    assert(parse_frame(wal_header_bytes(), 0) == Some((payload, wal_header_bytes().len() as int)));
    lemma_parse_header_encode(wal_stanza(), VERSION);
}

/// Replay fidelity: a WAL file holding exactly the operations `ops`
/// parses back to `ops`, in order, ending cleanly.
pub proof fn lemma_wal_replay_fidelity(ops: Seq<OpView>)
    requires
        forall|i: int| 0 <= i < ops.len() ==> op_bounded(#[trigger] ops[i]),
    ensures
        wal_file_ops(wal_log_for(ops)) == Some(ops),
        parse_wal_header(wal_log_for(ops)) == Some(wal_header_bytes().len() as int),
    decreases ops.len(),
{
    lemma_wal_header_ops();
    if ops.len() == 0 {
    } else {
        let prefix = wal_log_for(ops.drop_last());
        let op = ops.last();
        lemma_wal_replay_fidelity(ops.drop_last());
        lemma_parse_wal_header_extend(prefix, frame(spec_encode_op(op)));
        let hend = wal_header_bytes().len() as int;
        assert(0 <= hend <= prefix.len()) by {
            lemma_wal_log_len(ops.drop_last());
        }
        lemma_parse_ops_append(prefix, hend, ops.drop_last(), op);
        assert(ops.drop_last().push(op) =~= ops);
    }
}

/// A WAL file extended by the encoded records of `ops`, in order.
pub open spec fn wal_log_extend(log: Seq<u8>, ops: Seq<OpView>) -> Seq<u8>
    decreases ops.len(),
{
    if ops.len() == 0 {
        log
    } else {
        wal_log_extend(log, ops.drop_last()) + frame(spec_encode_op(ops.last()))
    }
}

/// Resume appends: a log that replays to `ops1`, extended by the records
/// of `ops2`, replays to `ops1` followed by `ops2`.
pub proof fn lemma_wal_resume_appends(log: Seq<u8>, ops1: Seq<OpView>, ops2: Seq<OpView>)
    requires
        wal_file_ops(log) == Some(ops1),
        forall|i: int| 0 <= i < ops2.len() ==> op_bounded(#[trigger] ops2[i]),
    ensures
        wal_file_ops(wal_log_extend(log, ops2)) == Some(ops1 + ops2),
    decreases ops2.len(),
{
    if ops2.len() == 0 {
        assert(ops1 + ops2 =~= ops1);
    } else {
        lemma_wal_resume_appends(log, ops1, ops2.drop_last());
        let prefix = wal_log_extend(log, ops2.drop_last());
        let op = ops2.last();
        let hdr = parse_wal_header(prefix).unwrap();
        lemma_parse_wal_header_extend(prefix, frame(spec_encode_op(op)));
        assert(0 <= hdr <= prefix.len()) by {
            lemma_wal_extend_header(log, ops2.drop_last());
        }
        lemma_parse_ops_append(prefix, hdr, ops1 + ops2.drop_last(), op);
        assert((ops1 + ops2.drop_last()).push(op) =~= ops1 + ops2);
    }
}

/// Extending a log keeps its header where it was.
proof fn lemma_wal_extend_header(log: Seq<u8>, ops: Seq<OpView>)
    requires
        parse_wal_header(log) is Some,
    ensures
        parse_wal_header(wal_log_extend(log, ops)) == parse_wal_header(log),
        wal_log_extend(log, ops).len() >= log.len(),
        parse_wal_header(log).unwrap() <= log.len(),
    decreases ops.len(),
{
    binary_io::lemma_frame_len_auto();
    if ops.len() > 0 {
        lemma_wal_extend_header(log, ops.drop_last());
        lemma_parse_wal_header_extend(
            wal_log_extend(log, ops.drop_last()),
            frame(spec_encode_op(ops.last())),
        );
    }
}

/// A WAL file is at least as long as its header.
pub proof fn lemma_wal_log_len(ops: Seq<OpView>)
    ensures
        wal_log_for(ops).len() >= wal_header_bytes().len(),
    decreases ops.len(),
{
    if ops.len() > 0 {
        lemma_wal_log_len(ops.drop_last());
    }
}

/// The writer half of the WAL: appends framed operation records to the
/// log's bytes.  A *null* writer accepts writes and discards them; it is
/// used during recovery so that replay does not log its own operations
/// again.
pub struct WalWriter {
    data: Vec<u8>,
    synced: usize,
    null: bool,
}

impl WalWriter {
    /// The bytes of the log file this writer has produced.
    pub closed spec fn log(&self) -> Seq<u8> {
        self.data@
    }

    /// Whether this writer discards everything written to it.
    pub closed spec fn is_null(&self) -> bool {
        self.null
    }

    /// How many leading bytes of the log the shell has already carried to
    /// the operating system.
    pub closed spec fn synced_up_to(&self) -> int {
        self.synced as int
    }

    pub open spec fn wf(&self) -> bool {
        0 <= self.synced_up_to() <= self.log().len()
    }

    /// A writer over a *new* WAL file: the log starts over (any prior
    /// contents are discarded) and holds the file header.
    pub fn create() -> (w: WalWriter)
        ensures
            w.wf(),
            !w.is_null(),
            w.log() == wal_header_bytes(),
            w.synced_up_to() == 0,
    {
        proof {
            binary_io::lemma_frame_len_auto();
        }
        let stanza = wal_stanza_bytes();
        let header = FileHeader { stanza, version: VERSION };
        let mut payload: Vec<u8> = Vec::new();
        write_frame(&mut payload, header.stanza.as_slice());
        payload.push(header.version);
        let mut data: Vec<u8> = Vec::new();
        write_frame(&mut data, payload.as_slice());
        proof {
            assert(payload@ =~= spec_encode_header(wal_stanza(), VERSION));
            assert(data@ =~= wal_header_bytes());
        }
        WalWriter { data, synced: 0, null: false }
    }

    /// A writer that appends to an existing WAL file whose bytes are
    /// `existing`; nothing is written until the next operation.
    pub fn resume(existing: Vec<u8>) -> (w: WalWriter)
        ensures
            w.wf(),
            !w.is_null(),
            w.log() == existing@,
            w.synced_up_to() == existing@.len(),
    {
        let synced = existing.len();
        WalWriter { data: existing, synced, null: false }
    }

    /// A writer that accepts writes but never records anything.
    pub fn null() -> (w: WalWriter)
        ensures
            w.wf(),
            w.is_null(),
            w.log() == Seq::<u8>::empty(),
    {
        WalWriter { data: Vec::new(), synced: 0, null: true }
    }

    /// Append one framed operation record; report the number of bytes
    /// written (frame prefix included).  A null writer reports the same
    /// count without recording anything.
    pub fn write(&mut self, op: &Operation) -> (r: Result<usize, Error>)
        requires
            old(self).wf(),
            old(self).log().len() + 8 + spec_encode_op(op@).len() <= usize::MAX,
        ensures
            final(self).wf(),
            final(self).is_null() == old(self).is_null(),
            final(self).synced_up_to() == old(self).synced_up_to(),
            r matches Ok(n) && n == 8 + spec_encode_op(op@).len(),
            !old(self).is_null() ==> final(self).log() == old(self).log() + frame(
                spec_encode_op(op@),
            ),
            old(self).is_null() ==> final(self).log() == old(self).log(),
    {
        let payload = op.encode();
        if self.null {
            Ok(8 + payload.len())
        } else {
            let n = write_frame(&mut self.data, payload.as_slice());
            Ok(n)
        }
    }

    /// The whole log, copied.
    pub fn contents(&self) -> (r: Vec<u8>)
        ensures
            r@ == self.log(),
    {
        let r = self.data.clone();
        proof {
            assert(r@ =~= self.data@);
        }
        r
    }

    /// The bytes written since the last call (or since the writer was
    /// made), handed out for the shell to append to the file on disk.
    pub fn take_unsynced(&mut self) -> (r: Vec<u8>)
        requires
            old(self).wf(),
        ensures
            final(self).wf(),
            r@ == old(self).log().skip(old(self).synced_up_to()),
            final(self).log() == old(self).log(),
            final(self).is_null() == old(self).is_null(),
            final(self).synced_up_to() == final(self).log().len(),
    {
        let mut r: Vec<u8> = Vec::new();
        let mut i: usize = self.synced;
        while i < self.data.len()
            invariant
                self.synced <= i <= self.data.len(),
                r@ =~= self.data@.subrange(self.synced as int, i as int),
            decreases self.data.len() - i,
        {
            r.push(self.data[i]);
            i = i + 1;
        }
        self.synced = self.data.len();
        proof {
            assert(r@ =~= old(self).log().skip(old(self).synced_up_to()));
        }
        r
    }
}

/// What `WalReader::read` reports when no operation can be read at
/// position `pos`: a clean end of input exactly at the log's end, a
/// truncated frame, or a frame whose payload is not an operation record.
pub open spec fn read_error_at(bytes: Seq<u8>, pos: int) -> Error {
    if pos == bytes.len() {
        Error::BinIoError(binary_io::Error::EndOfInput)
    } else if parse_frame(bytes, pos) is None {
        Error::BinIoError(binary_io::Error::Truncated)
    } else {
        Error::BinIoError(binary_io::Error::SerializationError)
    }
}

/// The reader half of the WAL: gives back the committed operations in
/// order.  Opening verifies the file header; reading yields one record at
/// a time; `next` stops cleanly at the end of the log.
pub struct WalReader {
    header: FileHeader,
    data: Vec<u8>,
    pos: usize,
}

impl WalReader {
    /// The bytes of the log file being read.
    pub closed spec fn log(&self) -> Seq<u8> {
        self.data@
    }

    /// The position of the next record to read.
    pub closed spec fn cursor(&self) -> int {
        self.pos as int
    }

    pub open spec fn wf(&self) -> bool {
        0 <= self.cursor() <= self.log().len()
    }

    /// Open a WAL file for replay: parse the header frame and verify its
    /// stanza and version.  Succeeds exactly on a log whose header is
    /// well-formed.
    pub fn open(data: Vec<u8>) -> (r: Result<WalReader, Error>)
        ensures
            r is Ok <==> parse_wal_header(data@) is Some,
            r matches Ok(rd) ==> rd.wf() && rd.log() == data@ && Some(rd.cursor())
                == parse_wal_header(data@),
    {
        let (payload, end) = match read_frame(data.as_slice(), 0) {
            Ok(pe) => pe,
            Err(e) => {
                return Err(Error::BinIoError(e));
            },
        };
        let (stanza, m) = match read_frame(payload.as_slice(), 0) {
            Ok(sm) => sm,
            Err(e) => {
                return Err(Error::BinIoError(e));
            },
        };
        if m + 1 != payload.len() {
            return Err(Error::BinIoError(binary_io::Error::SerializationError));
        }
        let version = payload[m];
        let expected = wal_stanza_bytes();
        if !byte_vecs_equal(&stanza, &expected) || version != VERSION {
            return Err(Error::BinIoError(binary_io::Error::SerializationError));
        }
        let header = FileHeader { stanza, version };
        Ok(WalReader { header, data, pos: end })
    }

    /// Read the next committed operation from the log.
    pub fn read(&mut self) -> (r: Result<Operation, Error>)
        requires
            old(self).wf(),
        ensures
            final(self).wf(),
            final(self).log() == old(self).log(),
            match parse_op_at(old(self).log(), old(self).cursor()) {
                Some(oe) => r matches Ok(op) && op@ == oe.0 && final(self).cursor() == oe.1,
                None => r == Err::<Operation, Error>(
                    read_error_at(old(self).log(), old(self).cursor()),
                ) && final(self).cursor() == old(self).cursor(),
            },
    {
        let (payload, end) = match read_frame(self.data.as_slice(), self.pos) {
            Ok(pe) => pe,
            Err(e) => {
                return Err(Error::BinIoError(e));
            },
        };
        match Operation::decode(payload.as_slice()) {
            Ok(op) => {
                self.pos = end;
                Ok(op)
            },
            Err(e) => Err(Error::BinIoError(e)),
        }
    }

    /// Surrender the reader, handing back the log's bytes.
    pub fn into_log(self) -> (r: Vec<u8>)
        ensures
            r@ == self.log(),
    {
        self.data
    }

    /// The log as a lazy sequence of operations: `None` at a clean end of
    /// the log, a failing element on a truncated or malformed record.
    pub fn next(&mut self) -> (r: Option<Result<Operation, Error>>)
        requires
            old(self).wf(),
        ensures
            final(self).wf(),
            final(self).log() == old(self).log(),
            old(self).cursor() == old(self).log().len() ==> r is None && final(self).cursor()
                == old(self).cursor(),
            old(self).cursor() != old(self).log().len() ==> match parse_op_at(
                old(self).log(),
                old(self).cursor(),
            ) {
                Some(oe) => r matches Some(x) && x matches Ok(op) && op@ == oe.0
                    && final(self).cursor() == oe.1,
                None => r == Some(
                    Err::<Operation, Error>(read_error_at(old(self).log(), old(self).cursor())),
                ) && final(self).cursor() == old(self).cursor(),
            },
    {
        if self.pos == self.data.len() {
            None
        } else {
            Some(self.read())
        }
    }
}

/// Whether two byte vectors hold the same bytes.
fn byte_vecs_equal(a: &Vec<u8>, b: &Vec<u8>) -> (r: bool)
    ensures
        r == (a@ == b@),
{
    if a.len() != b.len() {
        proof {
            assert(a@ != b@);
        }
        return false;
    }
    let mut i: usize = 0;
    while i < a.len()
        invariant
            i <= a.len(),
            a@.len() == b@.len(),
            forall|j: int| 0 <= j < i ==> a@[j] == b@[j],
        decreases a.len() - i,
    {
        if a[i] != b[i] {
            proof {
                assert(a@ != b@);
            }
            return false;
        }
        i = i + 1;
    }
    proof {
        assert(a@ =~= b@);
    }
    true
}

} // verus!
