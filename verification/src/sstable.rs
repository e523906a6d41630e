//! SSTables: immutable on-disk sorted tables, and the slabs that describe
//! them.
//!
//! A sealed table is one byte string with this layout, from offset 0:
//! a *data block* (for each pair, the key frame then the value frame, keys
//! ascending); a *meta block* (one frame: record count, data-block size,
//! index entry count); an *index block* (for each key, its frame then a
//! frame holding the absolute offset of that key's value frame); a
//! *trailer* frame (meta offset, index offset, version, stanza tag); and a
//! fixed 4-byte little-endian *trailer offset* that anchors reading.
//!
//! `Writer` streams ascending pairs into the data block and seals the
//! table; `SSTable` opens a sealed byte string and answers point lookups;
//! `Slab` is the metadata a seal hands back (level, key range, path).

use vstd::prelude::*;

verus! {

use vstd::bytes::{
    spec_u64_to_le_bytes, spec_u64_from_le_bytes, u64_to_le_bytes, u64_from_le_bytes,
    lemma_auto_spec_u64_to_from_le_bytes, spec_u32_to_le_bytes, spec_u32_from_le_bytes,
    lemma_auto_spec_u32_to_from_le_bytes,
};
use vstd::string::StringExecFns;
use crate::binary_io;
use crate::binary_io::{
    frame, parse_frame, read_frame, write_frame, write_data_size, read_data_size,
    lemma_parse_frame_frame, lemma_frame_len_auto, LENGTH_TAG_SIZE,
};
use crate::order::{lex_lt, lex_le, lex_cmp, lex_le_bytes, Cmp, lemma_lex_trichotomy};

/// The format version this library writes.
pub const VERSION: u8 = 1;

/// How SSTable operations can fail.
#[derive(Debug, PartialEq, Eq, Structural, Clone, Copy)]
pub enum Error {
    /// A framing or decoding failure of the underlying binary data.
    BinIoError(binary_io::Error),
    /// An empty table cannot be sealed.
    EmptyTable,
    /// A sealed table accepts no further append or seal.
    SealedTableError,
}

/// The SSTable's stanza tag: the bytes of `"r2d2::sstable"`.
pub open spec fn sstable_stanza() -> Seq<u8> {
    seq![114u8, 50u8, 100u8, 50u8, 58u8, 58u8, 115u8, 115u8, 116u8, 97u8, 98u8, 108u8, 101u8]
}

/// The stanza tag as a vector.
fn sstable_stanza_bytes() -> (r: Vec<u8>)
    ensures
        r@ == sstable_stanza(),
{
    let mut r: Vec<u8> = Vec::new();
    r.push(114);
    r.push(50);
    r.push(100);
    r.push(50);
    r.push(58);
    r.push(58);
    r.push(115);
    r.push(115);
    r.push(116);
    r.push(97);
    r.push(98);
    r.push(108);
    r.push(101);
    proof {
        assert(r@ =~= sstable_stanza());
    }
    r
}

// ---------------------------------------------------------------------
// Layout, as functions of the pairs the table holds
// ---------------------------------------------------------------------

/// The data block: for each pair, the key frame then the value frame.
pub open spec fn data_block_bytes(ps: Seq<(Seq<u8>, Seq<u8>)>) -> Seq<u8>
    decreases ps.len(),
{
    if ps.len() == 0 {
        Seq::empty()
    } else {
        frame(ps[0].0) + frame(ps[0].1) + data_block_bytes(ps.drop_first())
    }
}

/// The absolute offset of pair `i`'s *value frame* within the file.
pub open spec fn value_offset(ps: Seq<(Seq<u8>, Seq<u8>)>, i: int) -> int {
    data_block_bytes(ps.take(i)).len() + 8 + ps[i].0.len() as int
}

/// The index entries a seal records: each key with its value frame's
/// offset.
pub open spec fn index_entries_of(ps: Seq<(Seq<u8>, Seq<u8>)>) -> Seq<(Seq<u8>, u64)> {
    Seq::new(ps.len(), |i: int| (ps[i].0, value_offset(ps, i) as u64))
}

/// The index block: for each entry, the key frame then a frame holding
/// the 8 little-endian bytes of the value offset.
pub open spec fn index_block_bytes(entries: Seq<(Seq<u8>, u64)>) -> Seq<u8>
    decreases entries.len(),
{
    if entries.len() == 0 {
        Seq::empty()
    } else {
        frame(entries[0].0) + frame(spec_u64_to_le_bytes(entries[0].1)) + index_block_bytes(
            entries.drop_first(),
        )
    }
}

/// The meta block's payload: data-block size, record count, index entry
/// count, each as 8 little-endian bytes.
pub open spec fn spec_encode_meta(data_size: u64, data_count: u64, index_size: u64) -> Seq<u8> {
    spec_u64_to_le_bytes(data_size) + spec_u64_to_le_bytes(data_count) + spec_u64_to_le_bytes(
        index_size,
    )
}

/// Parse one meta payload; it is exactly 24 bytes.
pub open spec fn parse_meta(p: Seq<u8>) -> Option<(u64, u64, u64)> {
    if p.len() == 24 {
        Some(
            (
                spec_u64_from_le_bytes(p.subrange(0, 8)),
                spec_u64_from_le_bytes(p.subrange(8, 16)),
                spec_u64_from_le_bytes(p.subrange(16, 24)),
            ),
        )
    } else {
        None
    }
}

/// The trailer's payload: meta offset, index offset, version byte, and
/// the length-prefixed stanza tag.
pub open spec fn spec_encode_trailer(meta_offset: u64, index_offset: u64) -> Seq<u8> {
    spec_u64_to_le_bytes(meta_offset) + spec_u64_to_le_bytes(index_offset) + seq![VERSION] + frame(
        sstable_stanza(),
    )
}

/// Parse one trailer payload; the whole payload must be consumed.
pub open spec fn parse_trailer(p: Seq<u8>) -> Option<(u64, u64, u8, Seq<u8>)> {
    if p.len() < 17 {
        None
    } else {
        match parse_frame(p, 17) {
            Some((stanza, end)) => if end == p.len() {
                Some(
                    (
                        spec_u64_from_le_bytes(p.subrange(0, 8)),
                        spec_u64_from_le_bytes(p.subrange(8, 16)),
                        p[16],
                        stanza,
                    ),
                )
            } else {
                None
            },
            None => None,
        }
    }
}

/// The complete byte string of a sealed table holding the pairs `ps`.
pub open spec fn spec_sealed_bytes(ps: Seq<(Seq<u8>, Seq<u8>)>) -> Seq<u8> {
    let data = data_block_bytes(ps);
    let meta = spec_encode_meta(data.len() as u64, ps.len() as u64, ps.len() as u64);
    let index = index_block_bytes(index_entries_of(ps));
    let meta_offset = data.len() as int;
    let index_offset = meta_offset + frame(meta).len();
    let trailer_offset = index_offset + index.len();
    let trailer = spec_encode_trailer(meta_offset as u64, index_offset as u64);
    data + frame(meta) + index + frame(trailer) + spec_u32_to_le_bytes(trailer_offset as u32)
}

/// `n` index entries read from position `pos`: pairs of a key frame and
/// an 8-byte offset frame.
pub open spec fn parse_index(bytes: Seq<u8>, pos: int, n: nat) -> Option<Seq<(Seq<u8>, u64)>>
    decreases n,
{
    if n == 0 {
        Some(Seq::empty())
    } else {
        match parse_frame(bytes, pos) {
            Some((k, m)) => match parse_frame(bytes, m) {
                Some((offp, e)) => if offp.len() == 8 {
                    match parse_index(bytes, e, (n - 1) as nat) {
                        Some(rest) => Some(seq![(k, spec_u64_from_le_bytes(offp))] + rest),
                        None => None,
                    }
                } else {
                    None
                },
                None => None,
            },
            None => None,
        }
    }
}

/// Parse a whole SSTable file: anchor, trailer (stanza and version
/// verified), meta, then the index entries.
pub open spec fn parse_sstable(bytes: Seq<u8>) -> Option<Seq<(Seq<u8>, u64)>> {
    if bytes.len() < 4 {
        None
    } else {
        let toff = spec_u32_from_le_bytes(
            bytes.subrange(bytes.len() - 4, bytes.len() as int),
        ) as int;
        match parse_frame(bytes, toff) {
            Some((tp, _)) => match parse_trailer(tp) {
                Some((moff, ioff, ver, stanza)) => if stanza == sstable_stanza() && ver
                    == VERSION {
                    match parse_frame(bytes, moff as int) {
                        Some((mp, _)) => match parse_meta(mp) {
                            Some((_dsize, _dcount, isize)) => parse_index(
                                bytes,
                                ioff as int,
                                isize as nat,
                            ),
                            None => None,
                        },
                        None => None,
                    }
                } else {
                    None
                },
                None => None,
            },
            None => None,
        }
    }
}

/// Look a key up in a sequence of index entries; a later entry overrides
/// an earlier one with the same key.
pub open spec fn index_lookup(entries: Seq<(Seq<u8>, u64)>, k: Seq<u8>) -> Option<u64>
    decreases entries.len(),
{
    if entries.len() == 0 {
        None
    } else if entries.last().0 == k {
        Some(entries.last().1)
    } else {
        index_lookup(entries.drop_last(), k)
    }
}

// ---------------------------------------------------------------------
// Lemmas about the layout
// ---------------------------------------------------------------------

/// Appending one pair appends its two frames to the data block.
pub proof fn lemma_data_block_push(ps: Seq<(Seq<u8>, Seq<u8>)>, p: (Seq<u8>, Seq<u8>))
    ensures
        data_block_bytes(ps.push(p)) == data_block_bytes(ps) + frame(p.0) + frame(p.1),
    decreases ps.len(),
{
    if ps.len() == 0 {
        assert(ps.push(p)[0] == p);
        assert(ps.push(p).drop_first() =~= Seq::<(Seq<u8>, Seq<u8>)>::empty());
        assert(data_block_bytes(Seq::<(Seq<u8>, Seq<u8>)>::empty()) =~= Seq::<u8>::empty());
        assert(data_block_bytes(ps) =~= Seq::<u8>::empty());
        assert(data_block_bytes(ps.push(p)) =~= data_block_bytes(ps) + frame(p.0) + frame(p.1));
    } else {
        assert(ps.push(p).drop_first() =~= ps.drop_first().push(p));
        lemma_data_block_push(ps.drop_first(), p);
        assert(data_block_bytes(ps.push(p)) =~= data_block_bytes(ps) + frame(p.0) + frame(p.1));
    }
}

/// The data block splits around any one pair's two frames.
pub proof fn lemma_data_block_split(ps: Seq<(Seq<u8>, Seq<u8>)>, i: int)
    requires
        0 <= i < ps.len(),
    ensures
        data_block_bytes(ps) == data_block_bytes(ps.take(i)) + frame(ps[i].0) + frame(ps[i].1)
            + data_block_bytes(ps.skip(i + 1)),
    decreases i,
{
    if i == 0 {
        assert(ps.take(0) =~= Seq::<(Seq<u8>, Seq<u8>)>::empty());
        assert(ps.skip(1) =~= ps.drop_first());
        assert(data_block_bytes(ps) =~= data_block_bytes(ps.take(0)) + frame(ps[0].0) + frame(
            ps[0].1,
        ) + data_block_bytes(ps.skip(1)));
    } else {
        lemma_data_block_split(ps.drop_first(), i - 1);
        assert(ps.drop_first().take(i - 1) =~= ps.take(i).drop_first());
        assert(ps.drop_first().skip(i) =~= ps.skip(i + 1));
        assert(ps.drop_first()[i - 1] == ps[i]);
        assert(data_block_bytes(ps.take(i)) == frame(ps.take(i)[0].0) + frame(ps.take(i)[0].1)
            + data_block_bytes(ps.take(i).drop_first()));
        assert(ps.take(i)[0] == ps[0]);
        assert(data_block_bytes(ps) =~= data_block_bytes(ps.take(i)) + frame(ps[i].0) + frame(
            ps[i].1,
        ) + data_block_bytes(ps.skip(i + 1)));
    }
}

/// Appending one entry appends its two frames to the index block.
pub proof fn lemma_index_block_push(entries: Seq<(Seq<u8>, u64)>, e: (Seq<u8>, u64))
    ensures
        index_block_bytes(entries.push(e)) == index_block_bytes(entries) + frame(e.0) + frame(
            spec_u64_to_le_bytes(e.1),
        ),
    decreases entries.len(),
{
    if entries.len() == 0 {
        assert(entries.push(e)[0] == e);
        assert(entries.push(e).drop_first() =~= Seq::<(Seq<u8>, u64)>::empty());
        assert(index_block_bytes(Seq::<(Seq<u8>, u64)>::empty()) =~= Seq::<u8>::empty());
        assert(index_block_bytes(entries) =~= Seq::<u8>::empty());
        assert(index_block_bytes(entries.push(e)) =~= index_block_bytes(entries) + frame(e.0)
            + frame(spec_u64_to_le_bytes(e.1)));
    } else {
        assert(entries.push(e).drop_first() =~= entries.drop_first().push(e));
        lemma_index_block_push(entries.drop_first(), e);
        assert(index_block_bytes(entries.push(e)) =~= index_block_bytes(entries) + frame(e.0)
            + frame(spec_u64_to_le_bytes(e.1)));
    }
}

/// An index block standing at `prefix.len()` parses back to exactly the
/// entries it was built from.
pub proof fn lemma_parse_index_block(
    prefix: Seq<u8>,
    entries: Seq<(Seq<u8>, u64)>,
    suffix: Seq<u8>,
)
    requires
        forall|i: int| 0 <= i < entries.len() ==> (#[trigger] entries[i]).0.len() <= u64::MAX,
    ensures
        parse_index(
            prefix + index_block_bytes(entries) + suffix,
            prefix.len() as int,
            entries.len() as nat,
        ) == Some(entries),
    decreases entries.len(),
{
    lemma_frame_len_auto();
    lemma_auto_spec_u64_to_from_le_bytes();
    if entries.len() == 0 {
    } else {
        let e0 = entries[0];
        let kf = frame(e0.0);
        let of = frame(spec_u64_to_le_bytes(e0.1));
        let rest_block = index_block_bytes(entries.drop_first());
        let whole = prefix + index_block_bytes(entries) + suffix;
        assert(whole =~= prefix + kf + (of + rest_block + suffix));
        lemma_parse_frame_frame(prefix, e0.0, of + rest_block + suffix);
        let m = prefix.len() + 8 + e0.0.len() as int;
        assert(whole =~= (prefix + kf) + of + (rest_block + suffix));
        lemma_parse_frame_frame(prefix + kf, spec_u64_to_le_bytes(e0.1), rest_block + suffix);
        let e = m + 8 + 8;
        assert(parse_frame(whole, prefix.len() as int) == Some((e0.0, m)));
        assert(parse_frame(whole, m) == Some((spec_u64_to_le_bytes(e0.1), e)));
        assert(spec_u64_from_le_bytes(spec_u64_to_le_bytes(e0.1)) == e0.1);
        lemma_parse_index_block(prefix + kf + of, entries.drop_first(), suffix);
        assert(whole =~= (prefix + kf + of) + rest_block + suffix);
        assert(parse_index(whole, e, (entries.len() - 1) as nat) == Some(entries.drop_first()));
        assert(seq![(e0.0, e0.1)] + entries.drop_first() =~= entries);
    }
}

/// An encoded trailer parses back to itself.
pub proof fn lemma_parse_trailer_encode(meta_offset: u64, index_offset: u64)
    ensures
        parse_trailer(spec_encode_trailer(meta_offset, index_offset)) == Some(
            (meta_offset, index_offset, VERSION, sstable_stanza()),
        ),
{
    lemma_frame_len_auto();
    lemma_auto_spec_u64_to_from_le_bytes();
    let p = spec_encode_trailer(meta_offset, index_offset);
    let head = spec_u64_to_le_bytes(meta_offset) + spec_u64_to_le_bytes(index_offset) + seq![
        VERSION,
    ];
    assert(head.len() == 17);
    assert(p =~= head + frame(sstable_stanza()) + Seq::<u8>::empty());
    lemma_parse_frame_frame(head, sstable_stanza(), Seq::<u8>::empty());
    assert(parse_frame(p, 17) == Some((sstable_stanza(), p.len() as int)));
    assert(p.subrange(0, 8) =~= spec_u64_to_le_bytes(meta_offset));
    assert(p.subrange(8, 16) =~= spec_u64_to_le_bytes(index_offset));
    assert(p[16] == VERSION);
}

/// An encoded meta block parses back to itself.
pub proof fn lemma_parse_meta_encode(data_size: u64, data_count: u64, index_size: u64)
    ensures
        parse_meta(spec_encode_meta(data_size, data_count, index_size)) == Some(
            (data_size, data_count, index_size),
        ),
{
    lemma_auto_spec_u64_to_from_le_bytes();
    let p = spec_encode_meta(data_size, data_count, index_size);
    assert(p.subrange(0, 8) =~= spec_u64_to_le_bytes(data_size));
    assert(p.subrange(8, 16) =~= spec_u64_to_le_bytes(data_count));
    assert(p.subrange(16, 24) =~= spec_u64_to_le_bytes(index_size));
}

/// Keys strictly ascending across the pairs.
pub open spec fn pairs_sorted(ps: Seq<(Seq<u8>, Seq<u8>)>) -> bool {
    forall|i: int, j: int| 0 <= i < j < ps.len() ==> lex_lt(ps[i].0, ps[j].0)
}

/// A sealed table parses back to exactly the index its writer recorded,
/// and each recorded offset holds that pair's value frame.
pub proof fn lemma_parse_sealed(ps: Seq<(Seq<u8>, Seq<u8>)>)
    requires
        ps.len() > 0,
        spec_sealed_bytes(ps).len() <= u32::MAX,
    ensures
        parse_sstable(spec_sealed_bytes(ps)) == Some(index_entries_of(ps)),
        forall|i: int|
            0 <= i < ps.len() ==> #[trigger] parse_frame(
                spec_sealed_bytes(ps),
                value_offset(ps, i),
            ) == Some((ps[i].1, value_offset(ps, i) + 8 + ps[i].1.len())),
{
    lemma_frame_len_auto();
    lemma_auto_spec_u64_to_from_le_bytes();
    lemma_auto_spec_u32_to_from_le_bytes();
    lemma_sealed_len(ps);
    lemma_data_block_min_len(ps);
    let whole = spec_sealed_bytes(ps);
    let data = data_block_bytes(ps);
    assert(data.len() <= u32::MAX);
    assert(16 * ps.len() <= u32::MAX);
    let meta = spec_encode_meta(data.len() as u64, ps.len() as u64, ps.len() as u64);
    let index = index_block_bytes(index_entries_of(ps));
    let meta_offset = data.len() as int;
    let index_offset = meta_offset + frame(meta).len();
    let trailer_offset = index_offset + index.len();
    let trailer = spec_encode_trailer(meta_offset as u64, index_offset as u64);
    let anchor = spec_u32_to_le_bytes(trailer_offset as u32);

    // The anchor holds the trailer offset.
    assert(whole.len() == trailer_offset + frame(trailer).len() + 4);
    assert(whole.subrange(whole.len() - 4, whole.len() as int) =~= anchor);
    assert(spec_u32_from_le_bytes(anchor) == trailer_offset as u32);

    // The trailer frame parses and carries the two block offsets.
    assert(whole =~= (data + frame(meta) + index) + frame(trailer) + anchor);
    lemma_parse_frame_frame(data + frame(meta) + index, trailer, anchor);
    assert(parse_frame(whole, trailer_offset) == Some(
        (trailer, trailer_offset + 8 + trailer.len()),
    ));
    lemma_parse_trailer_encode(meta_offset as u64, index_offset as u64);

    // The meta frame parses and carries the index size.
    assert(whole =~= data + frame(meta) + (index + frame(trailer) + anchor));
    lemma_parse_frame_frame(data, meta, index + frame(trailer) + anchor);
    assert(parse_frame(whole, meta_offset) == Some((meta, meta_offset + 8 + meta.len())));
    lemma_parse_meta_encode(data.len() as u64, ps.len() as u64, ps.len() as u64);

    // The index block parses back to the recorded entries.
    assert forall|i: int| 0 <= i < ps.len() implies (#[trigger] index_entries_of(ps)[i]).0.len()
        <= u64::MAX by {
        lemma_value_frame_len(ps, i);
    }
    assert(whole =~= (data + frame(meta)) + index + (frame(trailer) + anchor));
    lemma_parse_index_block(data + frame(meta), index_entries_of(ps), frame(trailer) + anchor);
    assert(parse_index(whole, index_offset, ps.len() as nat) == Some(index_entries_of(ps)));

    // Each recorded offset holds that pair's value frame.
    assert forall|i: int| 0 <= i < ps.len() implies #[trigger] parse_frame(
        whole,
        value_offset(ps, i),
    ) == Some((ps[i].1, value_offset(ps, i) + 8 + ps[i].1.len())) by {
        lemma_data_block_split(ps, i);
        let before = data_block_bytes(ps.take(i)) + frame(ps[i].0);
        let after = data_block_bytes(ps.skip(i + 1)) + frame(meta) + index + frame(trailer)
            + anchor;
        assert(whole =~= before + frame(ps[i].1) + after);
        lemma_value_frame_len(ps, i);
        lemma_parse_frame_frame(before, ps[i].1, after);
        assert(before.len() == value_offset(ps, i));
    }
}

/// Each pair's key and value are shorter than the data block they stand
/// in.
proof fn lemma_value_frame_len(ps: Seq<(Seq<u8>, Seq<u8>)>, i: int)
    requires
        0 <= i < ps.len(),
        spec_sealed_bytes(ps).len() <= u32::MAX,
    ensures
        ps[i].0.len() <= u64::MAX,
        ps[i].1.len() <= u64::MAX,
        value_offset(ps, i) + 8 + ps[i].1.len() <= data_block_bytes(ps).len(),
{
    lemma_frame_len_auto();
    lemma_data_block_split(ps, i);
}

/// A key no entry holds is not found in the index.
pub proof fn lemma_index_lookup_absent(entries: Seq<(Seq<u8>, u64)>, k: Seq<u8>)
    requires
        forall|i: int| 0 <= i < entries.len() ==> (#[trigger] entries[i]).0 != k,
    ensures
        index_lookup(entries, k) is None,
    decreases entries.len(),
{
    if entries.len() > 0 {
        assert(forall|i: int|
            0 <= i < entries.len() - 1 ==> (#[trigger] entries.drop_last()[i]) == entries[i]);
        lemma_index_lookup_absent(entries.drop_last(), k);
    }
}

/// When no later entry repeats its key, looking entry `i`'s key up finds
/// entry `i`'s offset.
pub proof fn lemma_index_lookup_found(entries: Seq<(Seq<u8>, u64)>, i: int)
    requires
        0 <= i < entries.len(),
        forall|j: int| i < j < entries.len() ==> (#[trigger] entries[j]).0 != entries[i].0,
    ensures
        index_lookup(entries, entries[i].0) == Some(entries[i].1),
    decreases entries.len(),
{
    if i == entries.len() - 1 {
    } else {
        assert(forall|j: int|
            0 <= j < entries.len() - 1 ==> (#[trigger] entries.drop_last()[j]) == entries[j]);
        lemma_index_lookup_found(entries.drop_last(), i);
    }
}

// ---------------------------------------------------------------------
// Slab
// ---------------------------------------------------------------------

/// Whether the slab's key range holds `k`.
pub open spec fn slab_covers(s: Slab, k: Seq<u8>) -> bool {
    lex_le(s.min_key_view(), k) && lex_le(k, s.max_key_view())
}

/// Metadata about one sealed SSTable: its level, the range of keys it
/// holds, and the path of its backing file.  The engine keeps slabs
/// sorted by key range and asks each whether it covers a key.
pub struct Slab {
    level: u8,
    min_key: Vec<u8>,
    max_key: Vec<u8>,
    path: String,
}

impl Slab {
    /// The level of the slab and its associated SSTable.
    pub closed spec fn level_view(&self) -> u8 {
        self.level
    }

    /// The level of the slab and its associated SSTable.
    pub fn level(&self) -> (r: u8)
        ensures
            r == self.level_view(),
    {
        self.level
    }

    /// The smallest key stored in this slab.
    pub closed spec fn min_key_view(&self) -> Seq<u8> {
        self.min_key@
    }

    /// The greatest key stored in this slab.
    pub closed spec fn max_key_view(&self) -> Seq<u8> {
        self.max_key@
    }

    /// The path of the backing file.
    pub closed spec fn path_view(&self) -> Seq<char> {
        self.path@
    }

    pub fn new(level: u8, path: &str, min_key: Vec<u8>, max_key: Vec<u8>) -> (s: Slab)
        ensures
            s.level_view() == level,
            s.min_key_view() == min_key@,
            s.max_key_view() == max_key@,
            s.path_view() == path@,
    {
        Slab { level, min_key, max_key, path: String::from_str(path) }
    }

    /// Whether `k` lies within this slab's key range: the key might then
    /// be found in the associated SSTable; outside the range it is
    /// definitely absent.
    pub fn covers(&self, k: &Vec<u8>) -> (r: bool)
        ensures
            r == (lex_le(self.min_key_view(), k@) && lex_le(k@, self.max_key_view())),
    {
        lex_le_bytes(self.min_key.as_slice(), k.as_slice()) && lex_le_bytes(
            k.as_slice(),
            self.max_key.as_slice(),
        )
    }

    /// The path of the backing file, for the shell to open.
    pub fn path(&self) -> (r: &str)
        ensures
            r@ == self.path_view(),
    {
        self.path.as_str()
    }
}

// ---------------------------------------------------------------------
// Writer
// ---------------------------------------------------------------------

/// Streams ascending key-value pairs into an SSTable and seals it.
///
/// Once sealed the byte string is complete — the trailer offset is its
/// final 4 bytes — and every appended key is retrievable through
/// `SSTable::open` on those bytes; further `append` or `seal` calls fail
/// with the sealed-table error.
pub struct Writer {
    data: Vec<u8>,
    data_count: usize,
    index: Vec<(Vec<u8>, u64)>,
    path: String,
    sealed: bool,
    pairs: Ghost<Seq<(Seq<u8>, Seq<u8>)>>,
}

impl Writer {
    /// The pairs appended so far, in order.
    pub closed spec fn pairs_view(&self) -> Seq<(Seq<u8>, Seq<u8>)> {
        self.pairs@
    }

    /// Whether the table has been sealed.
    pub closed spec fn is_sealed(&self) -> bool {
        self.sealed
    }

    /// The destination path this writer was created with.
    pub closed spec fn path_view(&self) -> Seq<char> {
        self.path@
    }

    /// The bytes written so far: the growing data block while unsealed,
    /// the complete table once sealed.
    pub closed spec fn file(&self) -> Seq<u8> {
        self.data@
    }

    pub closed spec fn wf(&self) -> bool {
        &&& pairs_sorted(self.pairs@)
        &&& spec_sealed_bytes(self.pairs@).len() <= u32::MAX
        &&& self.data_count == self.pairs@.len()
        &&& !self.sealed ==> {
            &&& self.data@ == data_block_bytes(self.pairs@)
            &&& self.index@.map_values(|e: (Vec<u8>, u64)| (e.0@, e.1)) == index_entries_of(
                self.pairs@,
            )
        }
        &&& self.sealed ==> self.data@ == spec_sealed_bytes(self.pairs@)
    }

    /// A writer toward a new table at `path`, holding no pairs, not
    /// sealed.
    pub fn create(path: &str) -> (w: Writer)
        ensures
            w.wf(),
            !w.is_sealed(),
            w.pairs_view() == Seq::<(Seq<u8>, Seq<u8>)>::empty(),
            w.path_view() == path@,
    {
        let w = Writer {
            data: Vec::new(),
            data_count: 0,
            index: Vec::new(),
            path: String::from_str(path),
            sealed: false,
            pairs: Ghost(Seq::empty()),
        };
        proof {
            lemma_frame_len_auto();
            assert(w.index@.map_values(|e: (Vec<u8>, u64)| (e.0@, e.1)) =~= index_entries_of(
                w.pairs@,
            ));
            lemma_sealed_len_empty();
        }
        w
    }

    /// Append one key-value pair: the key frame, then the value frame,
    /// recording the value frame's offset in the index.  The key must be
    /// strictly greater than every key appended before; a sealed table
    /// refuses the append.
    pub fn append(&mut self, k: Vec<u8>, v: Vec<u8>) -> (r: Result<(), Error>)
        requires
            old(self).wf(),
            !old(self).is_sealed() ==> {
                &&& old(self).pairs_view().len() > 0 ==> lex_lt(
                    old(self).pairs_view().last().0,
                    k@,
                )
                &&& spec_sealed_bytes(old(self).pairs_view().push((k@, v@))).len() <= u32::MAX
            },
        ensures
            final(self).wf(),
            final(self).is_sealed() == old(self).is_sealed(),
            final(self).path_view() == old(self).path_view(),
            old(self).is_sealed() ==> r == Err::<(), Error>(Error::SealedTableError)
                && final(self).pairs_view() == old(self).pairs_view(),
            !old(self).is_sealed() ==> r == Ok::<(), Error>(())
                && final(self).pairs_view() == old(self).pairs_view().push((k@, v@)),
    {
        if self.sealed {
            return Err(Error::SealedTableError);
        }
        let ghost ps0 = self.pairs@;
        let ghost kv = (k@, v@);
        proof {
            lemma_frame_len_auto();
            lemma_sealed_len_grows(ps0, kv);
            lemma_index_block_le_sealed(ps0.push(kv));
            assert(data_block_bytes(ps0.push(kv)).len() <= u32::MAX);
            lemma_data_block_min_len(ps0.push(kv));
        }
        write_frame(&mut self.data, k.as_slice());
        let off = self.data.len() as u64;
        write_frame(&mut self.data, v.as_slice());
        self.index.push((k, off));
        self.data_count = self.data_count + 1;
        self.pairs = Ghost(ps0.push(kv));
        proof {
            let ps1 = self.pairs@;
            lemma_data_block_push(ps0, kv);
            assert(self.data@ =~= data_block_bytes(ps1));
            assert forall|i: int, j: int| 0 <= i < j < ps1.len() implies lex_lt(
                ps1[i].0,
                ps1[j].0,
            ) by {
                if j < ps1.len() - 1 {
                } else {
                    if i < ps0.len() - 1 {
                        crate::order::lemma_lex_lt_transitive(
                            ps1[i].0,
                            ps0.last().0,
                            kv.0,
                        );
                    }
                }
            }
            assert(self.index@.map_values(|e: (Vec<u8>, u64)| (e.0@, e.1)) =~= index_entries_of(
                ps1,
            )) by {
                assert forall|i: int| 0 <= i < ps1.len() implies (
                #[trigger] index_entries_of(ps1)[i]) == self.index@.map_values(
                    |e: (Vec<u8>, u64)| (e.0@, e.1),
                )[i] by {
                    if i < ps0.len() {
                        assert(ps1.take(i) =~= ps0.take(i));
                        assert(index_entries_of(ps0)[i] == (ps0[i].0, value_offset(ps0, i) as u64));
                    } else {
                        assert(ps1.take(i) =~= ps0);
                    }
                }
            }
        }
        Ok(())
    }

    /// Seal the table: write the meta block, the index block, the
    /// trailer, and the 4-byte trailer offset; hand back the slab that
    /// describes the result (level 0, the path, and the first and last
    /// keys appended).  Sealing an empty table is an error; sealing twice
    /// is the sealed-table error.
    pub fn seal(&mut self) -> (r: Result<Slab, Error>)
        requires
            old(self).wf(),
        ensures
            final(self).wf(),
            final(self).pairs_view() == old(self).pairs_view(),
            final(self).path_view() == old(self).path_view(),
            old(self).is_sealed() ==> r == Err::<Slab, Error>(Error::SealedTableError)
                && final(self).is_sealed(),
            !old(self).is_sealed() && old(self).pairs_view().len() == 0 ==> r == Err::<
                Slab,
                Error,
            >(Error::EmptyTable) && !final(self).is_sealed(),
            !old(self).is_sealed() && old(self).pairs_view().len() > 0 ==> {
                &&& final(self).is_sealed()
                &&& final(self).file() == spec_sealed_bytes(old(self).pairs_view())
                &&& r matches Ok(slab) && slab.level_view() == 0 && slab.min_key_view() == old(
                    self,
                ).pairs_view()[0].0 && slab.max_key_view() == old(self).pairs_view().last().0
                    && slab.path_view() == old(self).path_view()
            },
    {
        if self.sealed {
            return Err(Error::SealedTableError);
        }
        if self.data_count == 0 {
            return Err(Error::EmptyTable);
        }
        proof {
            lemma_frame_len_auto();
            lemma_auto_spec_u64_to_from_le_bytes();
            lemma_index_block_le_sealed(self.pairs@);
        }
        let ghost ps = self.pairs@;
        let ghost whole = spec_sealed_bytes(ps);
        let ghost path0 = self.path@;

        // Meta block.
        let meta_offset = self.data.len();
        let mut meta: Vec<u8> = Vec::new();
        let mut t = u64_to_le_bytes(self.data.len() as u64);
        meta.append(&mut t);
        let mut t = u64_to_le_bytes(self.data_count as u64);
        meta.append(&mut t);
        let mut t = u64_to_le_bytes(self.index.len() as u64);
        meta.append(&mut t);
        proof {
            assert(meta@ =~= spec_encode_meta(
                data_block_bytes(ps).len() as u64,
                ps.len() as u64,
                ps.len() as u64,
            ));
        }
        write_frame(&mut self.data, meta.as_slice());

        // Index block.
        let index_offset = self.data.len();
        let ghost entries = index_entries_of(ps);
        let mut i: usize = 0;
        while i < self.index.len()
            invariant
                i <= self.index.len(),
                self.index@.map_values(|e: (Vec<u8>, u64)| (e.0@, e.1)) == entries,
                entries == index_entries_of(ps),
                spec_sealed_bytes(ps).len() <= u32::MAX,
                index_offset == data_block_bytes(ps).len() + 32,
                self.pairs@ == ps,
                !self.sealed,
                self.data_count == ps.len(),
                self.path@ == path0,
                pairs_sorted(ps),
                ps.len() > 0,
                self.index@.len() == ps.len(),
                self.data@ == data_block_bytes(ps) + frame(
                    spec_encode_meta(
                        data_block_bytes(ps).len() as u64,
                        ps.len() as u64,
                        ps.len() as u64,
                    ),
                ) + index_block_bytes(entries.take(i as int)),
            decreases self.index.len() - i,
        {
            proof {
                lemma_frame_len_auto();
                lemma_index_block_le_sealed(ps);
                lemma_index_block_take_le(entries, i as int);
            }
            let key_slice = self.index[i].0.as_slice();
            write_frame(&mut self.data, key_slice);
            let off_bytes = u64_to_le_bytes(self.index[i].1);
            write_frame(&mut self.data, off_bytes.as_slice());
            proof {
                lemma_index_block_push(entries.take(i as int), entries[i as int]);
                assert(entries.take(i as int).push(entries[i as int]) =~= entries.take(
                    i as int + 1,
                ));
                assert(self.data@ =~= data_block_bytes(ps) + frame(
                    spec_encode_meta(
                        data_block_bytes(ps).len() as u64,
                        ps.len() as u64,
                        ps.len() as u64,
                    ),
                ) + index_block_bytes(entries.take(i as int + 1)));
            }
            i = i + 1;
        }
        proof {
            assert(entries.take(entries.len() as int) =~= entries);
        }

        // Trailer and anchor.
        let trailer_offset = self.data.len();
        let mut trailer: Vec<u8> = Vec::new();
        let mut t = u64_to_le_bytes(meta_offset as u64);
        trailer.append(&mut t);
        let mut t = u64_to_le_bytes(index_offset as u64);
        trailer.append(&mut t);
        trailer.push(VERSION);
        let stanza = sstable_stanza_bytes();
        write_frame(&mut trailer, stanza.as_slice());
        proof {
            assert(trailer@ =~= spec_encode_trailer(meta_offset as u64, index_offset as u64));
        }
        write_frame(&mut self.data, trailer.as_slice());
        write_data_size(&mut self.data, trailer_offset as u32);
        self.sealed = true;
        proof {
            assert(self.data@ =~= whole);
        }

        let min_key = self.index[0].0.clone();
        let last = self.index.len() - 1;
        let max_key = self.index[last].0.clone();
        proof {
            assert(min_key@ =~= self.index@[0].0@);
            assert(max_key@ =~= self.index@[last as int].0@);
            assert(self.index@.map_values(|e: (Vec<u8>, u64)| (e.0@, e.1))[0]
                == index_entries_of(ps)[0]);
            assert(self.index@.map_values(|e: (Vec<u8>, u64)| (e.0@, e.1))[last as int]
                == index_entries_of(ps)[last as int]);
            assert(index_entries_of(ps)[0].0 == ps[0].0);
            assert(index_entries_of(ps)[last as int].0 == ps.last().0);
        }
        Ok(Slab { level: 0, min_key, max_key, path: clone_string(&self.path) })
    }

    /// The bytes written so far, copied; after a seal, the whole table.
    pub fn bytes(&self) -> (r: Vec<u8>)
        ensures
            r@ == self.file(),
    {
        let r = self.data.clone();
        proof {
            assert(r@ =~= self.data@);
        }
        r
    }
}

/// Copy a string.
fn clone_string(s: &String) -> (r: String)
    ensures
        r@ == s@,
{
    String::from_str(s.as_str())
}

/// The length of a sealed table, by blocks: the data block, the 32-byte
/// meta frame, the index block, the 46-byte trailer frame, and the 4-byte
/// anchor.
pub proof fn lemma_sealed_len(ps: Seq<(Seq<u8>, Seq<u8>)>)
    ensures
        spec_sealed_bytes(ps).len() == data_block_bytes(ps).len() + 32 + index_block_bytes(
            index_entries_of(ps),
        ).len() + 50,
{
    lemma_frame_len_auto();
    lemma_auto_spec_u64_to_from_le_bytes();
    lemma_auto_spec_u32_to_from_le_bytes();
    let data = data_block_bytes(ps);
    let meta = spec_encode_meta(data.len() as u64, ps.len() as u64, ps.len() as u64);
    assert(meta.len() == 24);
    assert(sstable_stanza().len() == 13);
    let trailer = spec_encode_trailer(
        data.len() as u64,
        (data.len() + 32) as u64,
    );
    assert(trailer.len() == 38);
    assert(spec_u32_to_le_bytes(
        (data.len() + 32 + index_block_bytes(index_entries_of(ps)).len()) as u32,
    ).len() == 4);
}

/// The data block devotes at least 16 bytes to each pair.
pub proof fn lemma_data_block_min_len(ps: Seq<(Seq<u8>, Seq<u8>)>)
    ensures
        data_block_bytes(ps).len() >= 16 * ps.len(),
    decreases ps.len(),
{
    lemma_frame_len_auto();
    if ps.len() > 0 {
        lemma_data_block_min_len(ps.drop_first());
    }
}

/// A sealed empty table is tiny.
proof fn lemma_sealed_len_empty()
    ensures
        spec_sealed_bytes(Seq::<(Seq<u8>, Seq<u8>)>::empty()).len() <= u32::MAX,
{
    lemma_frame_len_auto();
    let ps = Seq::<(Seq<u8>, Seq<u8>)>::empty();
    lemma_sealed_len(ps);
    assert(data_block_bytes(ps) =~= Seq::<u8>::empty());
    assert(index_entries_of(ps) =~= Seq::<(Seq<u8>, u64)>::empty());
    assert(index_block_bytes(Seq::<(Seq<u8>, u64)>::empty()) =~= Seq::<u8>::empty());
}

/// Appending a pair only grows the sealed file.
proof fn lemma_sealed_len_grows(ps: Seq<(Seq<u8>, Seq<u8>)>, p: (Seq<u8>, Seq<u8>))
    ensures
        spec_sealed_bytes(ps).len() <= spec_sealed_bytes(ps.push(p)).len(),
        data_block_bytes(ps.push(p)).len() == data_block_bytes(ps).len() + 16 + p.0.len()
            + p.1.len(),
    decreases ps.len(),
{
    lemma_frame_len_auto();
    lemma_data_block_push(ps, p);
    lemma_index_entries_push_block(ps, p);
    lemma_sealed_len(ps);
    lemma_sealed_len(ps.push(p));
}

/// The index block of one more pair grows by that pair's entry.
proof fn lemma_index_entries_push_block(ps: Seq<(Seq<u8>, Seq<u8>)>, p: (Seq<u8>, Seq<u8>))
    ensures
        index_block_bytes(index_entries_of(ps.push(p))).len() == index_block_bytes(
            index_entries_of(ps),
        ).len() + 24 + p.0.len(),
{
    lemma_frame_len_auto();
    lemma_auto_spec_u64_to_from_le_bytes();
    let ps1 = ps.push(p);
    assert forall|i: int| 0 <= i < ps.len() implies index_entries_of(ps1)[i] == index_entries_of(
        ps,
    )[i] by {
        assert(ps1.take(i) =~= ps.take(i));
    }
    assert(ps1.take(ps.len() as int) =~= ps);
    assert(index_entries_of(ps1) =~= index_entries_of(ps).push(
        (p.0, value_offset(ps1, ps.len() as int) as u64),
    ));
    lemma_index_block_push(
        index_entries_of(ps),
        (p.0, value_offset(ps1, ps.len() as int) as u64),
    );
}

/// The index block is not longer than the sealed file.
proof fn lemma_index_block_le_sealed(ps: Seq<(Seq<u8>, Seq<u8>)>)
    ensures
        data_block_bytes(ps).len() + 32 + index_block_bytes(index_entries_of(ps)).len() + 50
            == spec_sealed_bytes(ps).len(),
{
    lemma_sealed_len(ps);
}

/// The index block of a prefix of the entries is not longer than that of
/// all of them.
proof fn lemma_index_block_take_le(entries: Seq<(Seq<u8>, u64)>, i: int)
    requires
        0 <= i < entries.len(),
    ensures
        index_block_bytes(entries.take(i)).len() + 16 + entries[i].0.len() <= index_block_bytes(
            entries,
        ).len(),
    decreases entries.len(),
{
    lemma_frame_len_auto();
    lemma_auto_spec_u64_to_from_le_bytes();
    lemma_index_block_split(entries, i);
}

// ---------------------------------------------------------------------
// Reader
// ---------------------------------------------------------------------

/// A read-only, sealed SSTable: the file's bytes and the index read from
/// them.  Point lookups seek to the offset the index records and read one
/// frame as the value.
pub struct SSTable {
    file: Vec<u8>,
    index: Vec<(Vec<u8>, u64)>,
}

impl SSTable {
    /// The bytes of the backing file.
    pub closed spec fn file_view(&self) -> Seq<u8> {
        self.file@
    }

    /// The index entries, in the order the file lists them.
    pub closed spec fn index_view(&self) -> Seq<(Seq<u8>, u64)> {
        self.index@.map_values(|e: (Vec<u8>, u64)| (e.0@, e.1))
    }

    pub open spec fn wf(&self) -> bool {
        parse_sstable(self.file_view()) == Some(self.index_view())
    }

    /// Open a sealed table: read the 4-byte trailer offset at the end of
    /// the file, the trailer (verifying its stanza and version), the meta
    /// block, and the index.  Succeeds exactly on bytes that parse as an
    /// SSTable.
    pub fn open(file: Vec<u8>) -> (r: Result<SSTable, Error>)
        ensures
            r is Ok <==> parse_sstable(file@) is Some,
            r matches Ok(t) ==> t.wf() && t.file_view() == file@ && Some(t.index_view())
                == parse_sstable(file@),
    {
        if file.len() < LENGTH_TAG_SIZE {
            return Err(Error::BinIoError(binary_io::Error::Truncated));
        }
        let toff32 = match read_data_size(file.as_slice(), file.len() - LENGTH_TAG_SIZE) {
            Ok(x) => x,
            Err(e) => {
                return Err(Error::BinIoError(e));
            },
        };
        let toff = toff32 as usize;
        if toff > file.len() {
            return Err(Error::BinIoError(binary_io::Error::Truncated));
        }
        let (tp, _tend) = match read_frame(file.as_slice(), toff) {
            Ok(x) => x,
            Err(e) => {
                return Err(Error::BinIoError(e));
            },
        };
        if tp.len() < 17 {
            return Err(Error::BinIoError(binary_io::Error::SerializationError));
        }
        let moff64 = u64_from_le_bytes(vstd::slice::slice_subrange(tp.as_slice(), 0, 8));
        let ioff64 = u64_from_le_bytes(vstd::slice::slice_subrange(tp.as_slice(), 8, 16));
        let ver = tp[16];
        let (stanza, send) = match read_frame(tp.as_slice(), 17) {
            Ok(x) => x,
            Err(e) => {
                return Err(Error::BinIoError(e));
            },
        };
        if send != tp.len() {
            return Err(Error::BinIoError(binary_io::Error::SerializationError));
        }
        let expected = sstable_stanza_bytes();
        if !(lex_cmp(stanza.as_slice(), expected.as_slice()) == Cmp::Equal) || ver != VERSION {
            return Err(Error::BinIoError(binary_io::Error::SerializationError));
        }
        if moff64 > file.len() as u64 {
            return Err(Error::BinIoError(binary_io::Error::Truncated));
        }
        let (mp, _mend) = match read_frame(file.as_slice(), moff64 as usize) {
            Ok(x) => x,
            Err(e) => {
                return Err(Error::BinIoError(e));
            },
        };
        if mp.len() != 24 {
            return Err(Error::BinIoError(binary_io::Error::SerializationError));
        }
        let isize64 = u64_from_le_bytes(vstd::slice::slice_subrange(mp.as_slice(), 16, 24));
        let ghost ioff = ioff64 as int;
        let ghost total = isize64 as nat;
        proof {
            assert(parse_sstable(file@) == parse_index(file@, ioff, total));
        }
        if isize64 == 0 {
            let index: Vec<(Vec<u8>, u64)> = Vec::new();
            proof {
                assert(parse_index(file@, ioff, 0nat) == Some(Seq::<(Seq<u8>, u64)>::empty()));
                assert(index@.map_values(|e: (Vec<u8>, u64)| (e.0@, e.1)) =~= Seq::<(
                    Seq<u8>,
                    u64,
                )>::empty());
            }
            return Ok(SSTable { file, index });
        }
        if ioff64 > file.len() as u64 {
            proof {
                lemma_parse_index_pos_over(file@, ioff, total);
            }
            return Err(Error::BinIoError(binary_io::Error::Truncated));
        }
        let mut pos: usize = ioff64 as usize;
        let mut cnt: u64 = 0;
        let mut index: Vec<(Vec<u8>, u64)> = Vec::new();
        proof {
            assert(pos as int == ioff);
            assert(index@.map_values(|e: (Vec<u8>, u64)| (e.0@, e.1)) + Seq::<(
                Seq<u8>,
                u64,
            )>::empty() =~= Seq::<(Seq<u8>, u64)>::empty());
        }
        while cnt < isize64
            invariant
                cnt <= isize64,
                pos <= file@.len(),
                index@.len() == cnt,
                parse_sstable(file@) == parse_index(file@, ioff, total),
                total == isize64 as nat,
                match parse_index(file@, pos as int, (isize64 - cnt) as nat) {
                    Some(rest) => parse_index(file@, ioff, total) == Some(
                        index@.map_values(|e: (Vec<u8>, u64)| (e.0@, e.1)) + rest,
                    ),
                    None => parse_index(file@, ioff, total) is None,
                },
            decreases isize64 - cnt,
        {
            let ghost remaining = (isize64 - cnt) as nat;
            let (k, m) = match read_frame(file.as_slice(), pos) {
                Ok(x) => x,
                Err(e) => {
                    proof {
                        assert(parse_frame(file@, pos as int) is None);
                        assert(parse_index(file@, pos as int, remaining) is None);
                    }
                    return Err(Error::BinIoError(e));
                },
            };
            let (offp, e) = match read_frame(file.as_slice(), m) {
                Ok(x) => x,
                Err(e) => {
                    proof {
                        assert(parse_frame(file@, m as int) is None);
                        assert(parse_index(file@, pos as int, remaining) is None);
                    }
                    return Err(Error::BinIoError(e));
                },
            };
            if offp.len() != 8 {
                proof {
                    assert(parse_index(file@, pos as int, remaining) is None);
                }
                return Err(Error::BinIoError(binary_io::Error::SerializationError));
            }
            let off = u64_from_le_bytes(offp.as_slice());
            let ghost entry = (k@, off);
            index.push((k, off));
            proof {
                let views = index@.map_values(|e: (Vec<u8>, u64)| (e.0@, e.1));
                let old_views = views.drop_last();
                assert(old_views =~= index@.drop_last().map_values(
                    |e: (Vec<u8>, u64)| (e.0@, e.1),
                ));
                match parse_index(file@, e as int, (remaining - 1) as nat) {
                    Some(rest2) => {
                        assert(parse_index(file@, pos as int, remaining) == Some(
                            seq![entry] + rest2,
                        ));
                        assert(old_views + (seq![entry] + rest2) =~= views + rest2);
                    },
                    None => {
                        assert(parse_index(file@, pos as int, remaining) is None);
                    },
                }
            }
            pos = e;
            cnt = cnt + 1;
        }
        proof {
            assert(parse_index(file@, pos as int, 0nat) == Some(Seq::<(Seq<u8>, u64)>::empty()));
            assert(index@.map_values(|e: (Vec<u8>, u64)| (e.0@, e.1)) + Seq::<(
                Seq<u8>,
                u64,
            )>::empty() =~= index@.map_values(|e: (Vec<u8>, u64)| (e.0@, e.1)));
        }
        Ok(SSTable { file, index })
    }

    /// Look the key up in the index; on a miss return nothing, on a hit
    /// read one frame at the recorded offset as the value.
    pub fn get(&self, k: &Vec<u8>) -> (r: Result<Option<Vec<u8>>, Error>)
        ensures
            match index_lookup(self.index_view(), k@) {
                None => r == Ok::<Option<Vec<u8>>, Error>(None),
                Some(off) => match parse_frame(self.file_view(), off as int) {
                    Some(pr) => r matches Ok(o) && o matches Some(v) && v@ == pr.0,
                    None => r is Err,
                },
            },
    {
        let ghost iv = self.index_view();
        let mut i: usize = self.index.len();
        proof {
            assert(iv.take(i as int) =~= iv);
        }
        loop
            invariant
                i <= self.index.len(),
                iv == self.index_view(),
                index_lookup(iv, k@) == index_lookup(iv.take(i as int), k@),
            decreases i,
        {
            if i == 0 {
                proof {
                    assert(iv.take(0) =~= Seq::<(Seq<u8>, u64)>::empty());
                }
                return Ok(None);
            }
            i = i - 1;
            proof {
                assert(iv.take(i as int + 1).last() == iv[i as int]);
                assert(iv.take(i as int + 1).drop_last() =~= iv.take(i as int));
            }
            if lex_cmp(self.index[i].0.as_slice(), k.as_slice()) == Cmp::Equal {
                let off = self.index[i].1;
                proof {
                    assert(index_lookup(iv.take(i as int + 1), k@) == Some(iv[i as int].1));
                }
                if off > self.file.len() as u64 {
                    return Err(Error::BinIoError(binary_io::Error::Truncated));
                }
                match read_frame(self.file.as_slice(), off as usize) {
                    Ok((v, _)) => {
                        return Ok(Some(v));
                    },
                    Err(e) => {
                        return Err(Error::BinIoError(e));
                    },
                }
            }
        }
    }
}

/// An index cannot start past the end of the file.
proof fn lemma_parse_index_pos_over(bytes: Seq<u8>, pos: int, n: nat)
    requires
        pos > bytes.len(),
        n > 0,
    ensures
        parse_index(bytes, pos, n) is None,
{
}

/// Round trip: a sealed table holding the ascending pairs `ps` parses
/// back to the index its writer recorded; every recorded key's offset
/// holds that key's value frame, and a key no pair holds is not in the
/// index.
pub proof fn lemma_sealed_table_lookup(ps: Seq<(Seq<u8>, Seq<u8>)>, k: Seq<u8>)
    requires
        ps.len() > 0,
        pairs_sorted(ps),
        spec_sealed_bytes(ps).len() <= u32::MAX,
    ensures
        parse_sstable(spec_sealed_bytes(ps)) == Some(index_entries_of(ps)),
        forall|i: int|
            0 <= i < ps.len() && (#[trigger] ps[i]).0 == k ==> index_lookup(
                index_entries_of(ps),
                k,
            ) == Some(value_offset(ps, i) as u64) && parse_frame(
                spec_sealed_bytes(ps),
                value_offset(ps, i),
            ) == Some((ps[i].1, value_offset(ps, i) + 8 + ps[i].1.len())),
        (forall|i: int| 0 <= i < ps.len() ==> (#[trigger] ps[i]).0 != k) ==> index_lookup(
            index_entries_of(ps),
            k,
        ) is None,
{
    lemma_parse_sealed(ps);
    let entries = index_entries_of(ps);
    assert forall|i: int|
        0 <= i < ps.len() && (#[trigger] ps[i]).0 == k implies index_lookup(entries, k) == Some(
        value_offset(ps, i) as u64,
    ) && parse_frame(spec_sealed_bytes(ps), value_offset(ps, i)) == Some(
        (ps[i].1, value_offset(ps, i) + 8 + ps[i].1.len()),
    ) by {
        assert forall|j: int| i < j < entries.len() implies (#[trigger] entries[j]).0
            != entries[i].0 by {
            lemma_lex_trichotomy(ps[i].0, ps[j].0);
        }
        lemma_index_lookup_found(entries, i);
    }
    if forall|i: int| 0 <= i < ps.len() ==> (#[trigger] ps[i]).0 != k {
        assert forall|i: int| 0 <= i < entries.len() implies (#[trigger] entries[i]).0 != k by {
            assert(ps[i].0 != k);
        }
        lemma_index_lookup_absent(entries, k);
    }
}

/// The index block splits around any one entry's two frames.
proof fn lemma_index_block_split(entries: Seq<(Seq<u8>, u64)>, i: int)
    requires
        0 <= i < entries.len(),
    ensures
        index_block_bytes(entries) == index_block_bytes(entries.take(i)) + frame(entries[i].0)
            + frame(spec_u64_to_le_bytes(entries[i].1)) + index_block_bytes(entries.skip(i + 1)),
    decreases i,
{
    if i == 0 {
        assert(entries.take(0) =~= Seq::<(Seq<u8>, u64)>::empty());
        assert(entries.skip(1) =~= entries.drop_first());
        assert(index_block_bytes(entries) =~= index_block_bytes(entries.take(0)) + frame(
            entries[0].0,
        ) + frame(spec_u64_to_le_bytes(entries[0].1)) + index_block_bytes(entries.skip(1)));
    } else {
        lemma_index_block_split(entries.drop_first(), i - 1);
        assert(entries.drop_first().take(i - 1) =~= entries.take(i).drop_first());
        assert(entries.drop_first().skip(i) =~= entries.skip(i + 1));
        assert(entries.drop_first()[i - 1] == entries[i]);
        assert(index_block_bytes(entries.take(i)) == frame(entries.take(i)[0].0) + frame(
            spec_u64_to_le_bytes(entries.take(i)[0].1),
        ) + index_block_bytes(entries.take(i).drop_first()));
        assert(entries.take(i)[0] == entries[0]);
        assert(index_block_bytes(entries) =~= index_block_bytes(entries.take(i)) + frame(
            entries[i].0,
        ) + frame(spec_u64_to_le_bytes(entries[i].1)) + index_block_bytes(entries.skip(i + 1)));
    }
}

} // verus!
