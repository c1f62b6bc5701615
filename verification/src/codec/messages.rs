//! Encoding and decoding of the routing protocol's message bodies.

use vstd::prelude::*;

use crate::codec::section::{
    lemma_section_err_persists, lemma_section_fails_short, lemma_section_prefix, lemma_section_round_trip,
    lemma_section_step, prefix_result, section_bytes, spec_decode_section,
};
use crate::codec::utils::{
    be16, be32, be64, decode_indexes, encode_idx, fill_hop_bytes, hop_byte, idx_bytes,
    lemma_be16_round_trip, lemma_be32_round_trip, lemma_be64_round_trip, lemma_hop_byte_round_trip,
    lemma_idx_round_trip, push_bytes, push_u16_be, push_u32_be, push_u64_be, read_array,
    read_u16_be, read_u32_be, read_u64_be, read_u8, spec_decode_idx, spec_read_bytes,
    spec_read_u16, spec_read_u32, spec_read_u64, spec_read_u8, unpack_hop_byte, lemma_decode_idx_prefix,
    lemma_read_bytes_prefix, lemma_read_u16_prefix, lemma_read_u32_prefix, lemma_read_u64_prefix,
    lemma_read_u8_prefix,
};
use crate::codec::CodecError;

verus! {

/// A user or node mapping: binds an absolute index to a target id.
#[derive(Debug, Clone, Copy)]
pub struct Mapping {
    /// Absolute 16-bit index being introduced; stored resolved, written
    /// as a delta on the wire.
    pub abs_idx: u16,
    /// the 8-byte id of the target
    pub target_id: [u8; 8],
    /// the target's profile_version
    pub version: u32,
}

/// A mapping as a value: the id as a byte sequence.
pub struct MappingV {
    pub abs_idx: u16,
    pub target_id: Seq<u8>,
    pub version: u32,
}

impl View for Mapping {
    type V = MappingV;

    open spec fn view(&self) -> MappingV {
        MappingV { abs_idx: self.abs_idx, target_id: self.target_id@, version: self.version }
    }
}

/// An actual entry in the routing table of a node. User and node entries
/// share this form: a node entry carries no manifest version, since the
/// version a node advertises travels in its mapping, which records it and
/// decides whether the node's manifest is pulled.
#[derive(Debug, Clone, Copy)]
pub struct Entry {
    /// whether this entry has only ever been propagated over the Local sphere
    pub local_only: bool,
    /// the number of hops it takes to reach the target
    pub hop_count: u8,
    /// how good the connection is; the lower the better
    pub metric: u16,
    /// the sequence number of the target for this entry
    pub seq: u16,
    /// resolved absolute index in the entry's index space
    pub abs_idx: u16,
}

/// The ROUTING_UPDATE wire message.
#[derive(Debug)]
pub struct RoutingUpdate {
    pub user_mappings: Vec<Mapping>,
    pub node_mappings: Vec<Mapping>,
    pub user_entries: Vec<Entry>,
    pub node_entries: Vec<Entry>,
}

/// A ROUTING_UPDATE as a value.
pub struct RoutingUpdateV {
    pub user_mappings: Seq<MappingV>,
    pub node_mappings: Seq<MappingV>,
    pub user_entries: Seq<Entry>,
    pub node_entries: Seq<Entry>,
}

/// The mappings of a vector, as values.
pub open spec fn mappings_view(v: Seq<Mapping>) -> Seq<MappingV> {
    v.map_values(|m: Mapping| m@)
}

impl View for RoutingUpdate {
    type V = RoutingUpdateV;

    open spec fn view(&self) -> RoutingUpdateV {
        RoutingUpdateV {
            user_mappings: mappings_view(self.user_mappings@),
            node_mappings: mappings_view(self.node_mappings@),
            user_entries: self.user_entries@,
            node_entries: self.node_entries@,
        }
    }
}

/// The INDEX_DUMP wire message: one chunk of a node's dictionaries.
#[derive(Debug)]
pub struct IndexDump {
    pub chunk_index: u8,
    pub chunk_count: u8,
    pub user_mappings: Vec<Mapping>,
    pub node_mappings: Vec<Mapping>,
}

/// An INDEX_DUMP as a value.
pub struct IndexDumpV {
    pub chunk_index: u8,
    pub chunk_count: u8,
    pub user_mappings: Seq<MappingV>,
    pub node_mappings: Seq<MappingV>,
}

impl View for IndexDump {
    type V = IndexDumpV;

    open spec fn view(&self) -> IndexDumpV {
        IndexDumpV {
            chunk_index: self.chunk_index,
            chunk_count: self.chunk_count,
            user_mappings: mappings_view(self.user_mappings@),
            node_mappings: mappings_view(self.node_mappings@),
        }
    }
}

// ---------- mapping sections ----------

/// The cursor a mapping is written relative to: the index of the mapping
/// before it, or zero.
pub open spec fn mapping_cursor(before: Seq<MappingV>) -> u16 {
    if before.len() == 0 {
        0
    } else {
        before.last().abs_idx
    }
}

/// The bytes of one mapping: its delta-encoded index, the 8-byte id and
/// the big-endian version.
pub open spec fn mapping_bytes(m: MappingV, before: Seq<MappingV>) -> Seq<u8> {
    idx_bytes(m.abs_idx, mapping_cursor(before)) + m.target_id + be32(m.version)
}

/// What reading one mapping from the front of `s` gives.
pub open spec fn spec_decode_mapping(s: Seq<u8>, before: Seq<MappingV>) -> Result<
    (MappingV, Seq<u8>),
    CodecError,
> {
    match spec_decode_idx(s, mapping_cursor(before)) {
        Err(e) => Err(e),
        Ok((abs_idx, r1)) => match spec_read_bytes(r1, 8) {
            Err(e) => Err(e),
            Ok((target_id, r2)) => match spec_read_u32(r2) {
                Err(e) => Err(e),
                Ok((version, r3)) => Ok((MappingV { abs_idx, target_id, version }, r3)),
            },
        },
    }
}

pub open spec fn mapping_enc() -> spec_fn(MappingV, Seq<MappingV>) -> Seq<u8> {
    |m: MappingV, before: Seq<MappingV>| mapping_bytes(m, before)
}

pub open spec fn mapping_dec() -> spec_fn(Seq<u8>, Seq<MappingV>) -> Result<
    (MappingV, Seq<u8>),
    CodecError,
> {
    |s: Seq<u8>, before: Seq<MappingV>| spec_decode_mapping(s, before)
}

pub open spec fn mapping_wf() -> spec_fn(MappingV) -> bool {
    |m: MappingV| m.target_id.len() == 8
}

/// The bytes of a section of mappings.
pub open spec fn mappings_bytes(ms: Seq<MappingV>) -> Seq<u8> {
    section_bytes(ms, mapping_enc())
}

pub proof fn lemma_mapping_round_trip(m: MappingV, before: Seq<MappingV>, rest: Seq<u8>)
    requires
        m.target_id.len() == 8,
    ensures
        spec_decode_mapping(mapping_bytes(m, before) + rest, before) == Ok::<
            (MappingV, Seq<u8>),
            CodecError,
        >((m, rest)),
{
    let c = mapping_cursor(before);
    let r2 = be32(m.version) + rest;
    let tail = m.target_id + r2;
    assert(mapping_bytes(m, before) + rest =~= idx_bytes(m.abs_idx, c) + tail);
    lemma_idx_round_trip(m.abs_idx, c, tail);
    assert(spec_decode_idx(idx_bytes(m.abs_idx, c) + tail, c) == Ok::<(u16, Seq<u8>), CodecError>((m.abs_idx, tail)));
    assert(tail.take(8) =~= m.target_id);
    assert(tail.skip(8) =~= r2);
    assert(spec_read_bytes(tail, 8) == Ok::<(Seq<u8>, Seq<u8>), CodecError>((m.target_id, r2)));
    lemma_be32_round_trip(m.version);
    assert(r2.skip(4) =~= rest);
    assert(spec_read_u32(r2) == Ok::<(u32, Seq<u8>), CodecError>((m.version, rest)));
}

/// Reading a section of well-formed mappings back from its bytes gives
/// the mappings and the bytes after them.
pub proof fn lemma_mappings_round_trip(ms: Seq<MappingV>, rest: Seq<u8>)
    requires
        forall|i: int| 0 <= i < ms.len() ==> (#[trigger] ms[i]).target_id.len() == 8,
    ensures
        spec_decode_section(mappings_bytes(ms) + rest, ms.len(), mapping_dec()) == Ok::<
            (Seq<MappingV>, Seq<u8>),
            CodecError,
        >((ms, rest)),
{
    assert forall|x: MappingV, before: Seq<MappingV>, r: Seq<u8>| mapping_wf()(x) implies #[trigger] mapping_dec()(
        mapping_enc()(x, before) + r,
        before,
    ) == Ok::<(MappingV, Seq<u8>), CodecError>((x, r)) by {
        lemma_mapping_round_trip(x, before, r);
    }
    assert forall|i: int| 0 <= i < ms.len() implies mapping_wf()(#[trigger] ms[i]) by {}
    lemma_section_round_trip(ms, rest, mapping_enc(), mapping_dec(), mapping_wf());
}

/// Writes a section of mappings, each index relative to the one before.
fn encode_mapping_section(ms: &Vec<Mapping>, res: &mut Vec<u8>)
    ensures
        final(res)@ == old(res)@ + mappings_bytes(mappings_view(ms@)),
{
    let mut cursor = 0u16;
    let n = ms.len();
    for k in 0..n
        invariant
            n == ms@.len(),
            cursor == mapping_cursor(mappings_view(ms@.take(k as int))),
            res@ == old(res)@ + mappings_bytes(mappings_view(ms@.take(k as int))),
    {
        let m = ms[k];
        let ghost before = mappings_view(ms@.take(k as int));
        let ghost old_res = res@;
        encode_idx(m.abs_idx, &mut cursor, res);
        push_bytes(res, &m.target_id);
        push_u32_be(res, m.version);
        let ghost now = mappings_view(ms@.take(k + 1));
        assert(now.drop_last() =~= before);
        assert(now.last() == m@);
        assert(res@ =~= old(res)@ + mappings_bytes(now));
    }
    assert(ms@.take(n as int) =~= ms@);
}

/// Reads a section of `n` mappings from the front of `buf`.
fn decode_mapping_section(buf: &mut &[u8], n: usize) -> (r: Result<Vec<Mapping>, CodecError>)
    ensures
        match (r, spec_decode_section(old(buf)@, n as nat, mapping_dec())) {
            (Ok(v), Ok((items, rest))) => mappings_view(v@) == items && final(buf)@ == rest,
            (Err(e), Err(se)) => e == se,
            _ => false,
        },
{
    let ghost start = buf@;
    let mut cursor = 0u16;
    let mut out: Vec<Mapping> = Vec::with_capacity(n);
    assert(mappings_view(out@) =~= seq![]);
    for i in 0..n
        invariant
            start == old(buf)@,
            spec_decode_section(start, i as nat, mapping_dec()) == Ok::<
                (Seq<MappingV>, Seq<u8>),
                CodecError,
            >((mappings_view(out@), buf@)),
            cursor == mapping_cursor(mappings_view(out@)),
    {
        proof {
            lemma_section_step(start, i as nat, mapping_dec());
        }
        let ghost before = mappings_view(out@);
        let ghost b0 = buf@;
        let abs_idx = match decode_indexes(buf, &mut cursor) {
            Ok(v) => v,
            Err(e) => {
                proof {
                    lemma_section_err_persists(start, (i + 1) as nat, n as nat, mapping_dec());
                }
                return Err(e);
            },
        };
        let ghost b1 = buf@;
        let target_id = match read_array::<8>(buf) {
            Ok(v) => v,
            Err(e) => {
                assert(spec_decode_mapping(b0, before) == Err::<(MappingV, Seq<u8>), CodecError>(e));
                assert(spec_decode_section(start, (i + 1) as nat, mapping_dec()) == Err::<(Seq<MappingV>, Seq<u8>), CodecError>(e));
                proof {
                    lemma_section_err_persists(start, (i + 1) as nat, n as nat, mapping_dec());
                }
                return Err(e);
            },
        };
        let ghost b2 = buf@;
        let version = match read_u32_be(buf) {
            Ok(v) => v,
            Err(e) => {
                assert(spec_decode_mapping(b0, before) == Err::<(MappingV, Seq<u8>), CodecError>(e));
                assert(spec_decode_section(start, (i + 1) as nat, mapping_dec()) == Err::<(Seq<MappingV>, Seq<u8>), CodecError>(e));
                proof {
                    lemma_section_err_persists(start, (i + 1) as nat, n as nat, mapping_dec());
                }
                return Err(e);
            },
        };
        let m = Mapping { abs_idx, target_id, version };
        out.push(m);
        assert(mappings_view(out@) =~= before.push(m@));
    }
    Ok(out)
}


// ---------- entry sections ----------

/// The cursor an entry is written relative to.
pub open spec fn entry_cursor(before: Seq<Entry>) -> u16 {
    if before.len() == 0 {
        0
    } else {
        before.last().abs_idx
    }
}

/// The bytes of one entry: delta-encoded index, sequence number, metric
/// and the hop byte.
pub open spec fn entry_bytes(e: Entry, before: Seq<Entry>) -> Seq<u8> {
    idx_bytes(e.abs_idx, entry_cursor(before)) + be16(e.seq) + be16(e.metric) + seq![
        hop_byte(e.hop_count, e.local_only),
    ]
}

/// What reading one entry from the front of `s` gives.
pub open spec fn spec_decode_entry(s: Seq<u8>, before: Seq<Entry>) -> Result<
    (Entry, Seq<u8>),
    CodecError,
> {
    match spec_decode_idx(s, entry_cursor(before)) {
        Err(e) => Err(e),
        Ok((abs_idx, r1)) => match spec_read_u16(r1) {
            Err(e) => Err(e),
            Ok((seq, r2)) => match spec_read_u16(r2) {
                Err(e) => Err(e),
                Ok((metric, r3)) => match spec_read_u8(r3) {
                    Err(e) => Err(e),
                    Ok((hb, r4)) => Ok(
                        (
                            Entry {
                                abs_idx,
                                seq,
                                metric,
                                hop_count: (hb & 0x3fu8) as u8,
                                local_only: hb & 0x80u8 != 0,
                            },
                            r4,
                        ),
                    ),
                },
            },
        },
    }
}

pub open spec fn entry_enc() -> spec_fn(Entry, Seq<Entry>) -> Seq<u8> {
    |e: Entry, before: Seq<Entry>| entry_bytes(e, before)
}

pub open spec fn entry_dec() -> spec_fn(Seq<u8>, Seq<Entry>) -> Result<(Entry, Seq<u8>), CodecError> {
    |s: Seq<u8>, before: Seq<Entry>| spec_decode_entry(s, before)
}

pub open spec fn entry_wf() -> spec_fn(Entry) -> bool {
    |e: Entry| e.hop_count < 64
}

/// The bytes of a section of entries.
pub open spec fn entries_bytes(es: Seq<Entry>) -> Seq<u8> {
    section_bytes(es, entry_enc())
}

pub proof fn lemma_entry_round_trip(e: Entry, before: Seq<Entry>, rest: Seq<u8>)
    requires
        e.hop_count < 64,
    ensures
        spec_decode_entry(entry_bytes(e, before) + rest, before) == Ok::<(Entry, Seq<u8>), CodecError>(
            (e, rest),
        ),
{
    let c = entry_cursor(before);
    let hb = hop_byte(e.hop_count, e.local_only);
    let r3 = seq![hb] + rest;
    let r2 = be16(e.metric) + r3;
    let r1 = be16(e.seq) + r2;
    assert(entry_bytes(e, before) + rest =~= idx_bytes(e.abs_idx, c) + r1);
    lemma_idx_round_trip(e.abs_idx, c, r1);
    lemma_be16_round_trip(e.seq);
    lemma_be16_round_trip(e.metric);
    lemma_hop_byte_round_trip(e.hop_count, e.local_only);
    assert(r1.skip(2) =~= r2);
    assert(r2.skip(2) =~= r3);
    assert(r3.skip(1) =~= rest);
    assert(spec_read_u16(r1) == Ok::<(u16, Seq<u8>), CodecError>((e.seq, r2)));
    assert(spec_read_u16(r2) == Ok::<(u16, Seq<u8>), CodecError>((e.metric, r3)));
    assert(spec_read_u8(r3) == Ok::<(u8, Seq<u8>), CodecError>((hb, rest)));
}

/// Reading a section of entries whose hop counts fit in six bits back
/// from its bytes gives the entries and the bytes after them.
pub proof fn lemma_entries_round_trip(es: Seq<Entry>, rest: Seq<u8>)
    requires
        forall|i: int| 0 <= i < es.len() ==> (#[trigger] es[i]).hop_count < 64,
    ensures
        spec_decode_section(entries_bytes(es) + rest, es.len(), entry_dec()) == Ok::<
            (Seq<Entry>, Seq<u8>),
            CodecError,
        >((es, rest)),
{
    assert forall|x: Entry, before: Seq<Entry>, r: Seq<u8>| entry_wf()(x) implies #[trigger] entry_dec()(
        entry_enc()(x, before) + r,
        before,
    ) == Ok::<(Entry, Seq<u8>), CodecError>((x, r)) by {
        lemma_entry_round_trip(x, before, r);
    }
    assert forall|i: int| 0 <= i < es.len() implies entry_wf()(#[trigger] es[i]) by {}
    lemma_section_round_trip(es, rest, entry_enc(), entry_dec(), entry_wf());
}

/// Writes a section of entries, each index relative to the one before.
fn encode_entry_section(es: &Vec<Entry>, res: &mut Vec<u8>)
    ensures
        final(res)@ == old(res)@ + entries_bytes(es@),
{
    let mut cursor = 0u16;
    let n = es.len();
    for k in 0..n
        invariant
            n == es@.len(),
            cursor == entry_cursor(es@.take(k as int)),
            res@ == old(res)@ + entries_bytes(es@.take(k as int)),
    {
        let e = es[k];
        let ghost before = es@.take(k as int);
        encode_idx(e.abs_idx, &mut cursor, res);
        push_u16_be(res, e.seq);
        push_u16_be(res, e.metric);
        res.push(fill_hop_bytes(e.hop_count, e.local_only));
        let ghost now = es@.take(k + 1);
        assert(now.drop_last() =~= before);
        assert(now.last() == e);
        assert(res@ =~= old(res)@ + entries_bytes(now));
    }
    assert(es@.take(n as int) =~= es@);
}

/// Reads a section of `n` entries from the front of `buf`.
fn decode_entry_section(buf: &mut &[u8], n: usize) -> (r: Result<Vec<Entry>, CodecError>)
    ensures
        match (r, spec_decode_section(old(buf)@, n as nat, entry_dec())) {
            (Ok(v), Ok((items, rest))) => v@ == items && final(buf)@ == rest,
            (Err(e), Err(se)) => e == se,
            _ => false,
        },
{
    let ghost start = buf@;
    let mut cursor = 0u16;
    let mut out: Vec<Entry> = Vec::with_capacity(n);
    for i in 0..n
        invariant
            start == old(buf)@,
            spec_decode_section(start, i as nat, entry_dec()) == Ok::<
                (Seq<Entry>, Seq<u8>),
                CodecError,
            >((out@, buf@)),
            cursor == entry_cursor(out@),
    {
        proof {
            lemma_section_step(start, i as nat, entry_dec());
        }
        let ghost before = out@;
        let ghost b0 = buf@;
        let abs_idx = match decode_indexes(buf, &mut cursor) {
            Ok(v) => v,
            Err(e) => {
                proof {
                    lemma_section_err_persists(start, (i + 1) as nat, n as nat, entry_dec());
                }
                return Err(e);
            },
        };
        let seq = match read_u16_be(buf) {
            Ok(v) => v,
            Err(e) => {
                assert(spec_decode_entry(b0, before) == Err::<(Entry, Seq<u8>), CodecError>(e));
                proof {
                    lemma_section_err_persists(start, (i + 1) as nat, n as nat, entry_dec());
                }
                return Err(e);
            },
        };
        let metric = match read_u16_be(buf) {
            Ok(v) => v,
            Err(e) => {
                assert(spec_decode_entry(b0, before) == Err::<(Entry, Seq<u8>), CodecError>(e));
                proof {
                    lemma_section_err_persists(start, (i + 1) as nat, n as nat, entry_dec());
                }
                return Err(e);
            },
        };
        let hop_byte = match read_u8(buf) {
            Ok(v) => v,
            Err(e) => {
                assert(spec_decode_entry(b0, before) == Err::<(Entry, Seq<u8>), CodecError>(e));
                proof {
                    lemma_section_err_persists(start, (i + 1) as nat, n as nat, entry_dec());
                }
                return Err(e);
            },
        };
        let (hop_count, local_only) = unpack_hop_byte(hop_byte);
        let e = Entry { abs_idx, seq, metric, hop_count, local_only };
        out.push(e);
    }
    Ok(out)
}

// ---------- ROUTING_UPDATE ----------

impl RoutingUpdateV {
    /// The bytes of a ROUTING_UPDATE body: one-byte mapping counts and
    /// two-byte entry counts before their sections.
    pub open spec fn spec_bytes(self) -> Seq<u8> {
        seq![self.user_mappings.len() as u8] + mappings_bytes(self.user_mappings) + seq![
            self.node_mappings.len() as u8,
        ] + mappings_bytes(self.node_mappings) + be16(self.user_entries.len() as u16)
            + entries_bytes(self.user_entries) + be16(self.node_entries.len() as u16)
            + entries_bytes(self.node_entries)
    }

    /// The message values that come back unchanged from their bytes: the
    /// counts fit their fields, ids are eight bytes, hop counts six bits.
    pub open spec fn well_formed(self) -> bool {
        &&& self.user_mappings.len() <= 0xff
        &&& self.node_mappings.len() <= 0xff
        &&& self.user_entries.len() <= 0xffff
        &&& self.node_entries.len() <= 0xffff
        &&& forall|i: int|
            0 <= i < self.user_mappings.len() ==> (#[trigger] self.user_mappings[i]).target_id.len()
                == 8
        &&& forall|i: int|
            0 <= i < self.node_mappings.len() ==> (#[trigger] self.node_mappings[i]).target_id.len()
                == 8
        &&& forall|i: int|
            0 <= i < self.user_entries.len() ==> (#[trigger] self.user_entries[i]).hop_count < 64
        &&& forall|i: int|
            0 <= i < self.node_entries.len() ==> (#[trigger] self.node_entries[i]).hop_count < 64
    }

    /// What decoding a ROUTING_UPDATE body gives; trailing bytes are an
    /// error.
    pub open spec fn spec_decode(s: Seq<u8>) -> Result<RoutingUpdateV, CodecError> {
        match spec_read_u8(s) {
            Err(e) => Err(e),
            Ok((n1, r1)) => match spec_decode_section(r1, n1 as nat, mapping_dec()) {
                Err(e) => Err(e),
                Ok((um, r2)) => match spec_read_u8(r2) {
                    Err(e) => Err(e),
                    Ok((n2, r3)) => match spec_decode_section(r3, n2 as nat, mapping_dec()) {
                        Err(e) => Err(e),
                        Ok((nm, r4)) => match spec_read_u16(r4) {
                            Err(e) => Err(e),
                            Ok((n3, r5)) => match spec_decode_section(r5, n3 as nat, entry_dec()) {
                                Err(e) => Err(e),
                                Ok((ue, r6)) => match spec_read_u16(r6) {
                                    Err(e) => Err(e),
                                    Ok((n4, r7)) => match spec_decode_section(
                                        r7,
                                        n4 as nat,
                                        entry_dec(),
                                    ) {
                                        Err(e) => Err(e),
                                        Ok((ne, r8)) => if r8.len() != 0 {
                                            Err(CodecError::Malformed)
                                        } else {
                                            Ok(
                                                RoutingUpdateV {
                                                    user_mappings: um,
                                                    node_mappings: nm,
                                                    user_entries: ue,
                                                    node_entries: ne,
                                                },
                                            )
                                        },
                                    },
                                },
                            },
                        },
                    },
                },
            },
        }
    }
}

impl RoutingUpdate {
    /// Appends the body of this ROUTING_UPDATE to `res`.
    pub fn encode(&self, res: &mut Vec<u8>) -> (r: Result<(), CodecError>)
        ensures
            r is Ok,
            final(res)@ == old(res)@ + self@.spec_bytes(),
    {
        let ghost v = self@;
        res.push(self.user_mappings.len() as u8);
        encode_mapping_section(&self.user_mappings, res);
        res.push(self.node_mappings.len() as u8);
        encode_mapping_section(&self.node_mappings, res);
        push_u16_be(res, self.user_entries.len() as u16);
        encode_entry_section(&self.user_entries, res);
        push_u16_be(res, self.node_entries.len() as u16);
        encode_entry_section(&self.node_entries, res);
        assert(final(res)@ =~= old(res)@ + v.spec_bytes());
        Ok(())
    }

    /// Decodes a ROUTING_UPDATE body; the whole input must be consumed.
    pub fn decode(msg: &[u8]) -> (r: Result<RoutingUpdate, CodecError>)
        ensures
            match (r, RoutingUpdateV::spec_decode(msg@)) {
                (Ok(m), Ok(sm)) => m@ == sm,
                (Err(e), Err(se)) => e == se,
                _ => false,
            },
    {
        let mut buf = msg;
        let n1 = read_u8(&mut buf)?;
        let user_mappings = decode_mapping_section(&mut buf, n1 as usize)?;
        let n2 = read_u8(&mut buf)?;
        let node_mappings = decode_mapping_section(&mut buf, n2 as usize)?;
        let n3 = read_u16_be(&mut buf)?;
        let user_entries = decode_entry_section(&mut buf, n3 as usize)?;
        let n4 = read_u16_be(&mut buf)?;
        let node_entries = decode_entry_section(&mut buf, n4 as usize)?;
        if buf.len() != 0 {
            return Err(CodecError::Malformed);
        }
        Ok(RoutingUpdate { user_mappings, node_mappings, user_entries, node_entries })
    }
}

/// A well-formed ROUTING_UPDATE decodes from its own bytes to itself.
#[verifier::rlimit(30)]
pub proof fn lemma_routing_update_round_trip(v: RoutingUpdateV)
    requires
        v.well_formed(),
    ensures
        RoutingUpdateV::spec_decode(v.spec_bytes()) == Ok::<RoutingUpdateV, CodecError>(v),
{
    let um = v.user_mappings;
    let nm = v.node_mappings;
    let ue = v.user_entries;
    let ne = v.node_entries;
    let b8 = Seq::<u8>::empty();
    let b7 = entries_bytes(ne) + b8;
    let b6 = be16(ne.len() as u16) + b7;
    let b5 = entries_bytes(ue) + b6;
    let b4 = be16(ue.len() as u16) + b5;
    let b3 = mappings_bytes(nm) + b4;
    let b2 = seq![nm.len() as u8] + b3;
    let b1 = mappings_bytes(um) + b2;
    let b0 = seq![um.len() as u8] + b1;
    assert(v.spec_bytes() =~= b0);
    assert(b0.skip(1) =~= b1);
    assert(spec_read_u8(b0) == Ok::<(u8, Seq<u8>), CodecError>((um.len() as u8, b1)));
    lemma_mappings_round_trip(um, b2);
    assert(b2.skip(1) =~= b3);
    assert(spec_read_u8(b2) == Ok::<(u8, Seq<u8>), CodecError>((nm.len() as u8, b3)));
    lemma_mappings_round_trip(nm, b4);
    lemma_be16_round_trip(ue.len() as u16);
    assert(b4.skip(2) =~= b5);
    assert(spec_read_u16(b4) == Ok::<(u16, Seq<u8>), CodecError>((ue.len() as u16, b5)));
    lemma_entries_round_trip(ue, b6);
    lemma_be16_round_trip(ne.len() as u16);
    assert(b6.skip(2) =~= b7);
    assert(spec_read_u16(b6) == Ok::<(u16, Seq<u8>), CodecError>((ne.len() as u16, b7)));
    lemma_entries_round_trip(ne, b8);
}


/// Decoding a ROUTING_UPDATE body fails only for want of bytes (`Short`)
/// or for bytes left after its last section (`Malformed`).
pub proof fn lemma_routing_update_decode_errors(s: Seq<u8>)
    ensures
        RoutingUpdateV::spec_decode(s) matches Err(e) ==> (e == CodecError::Short || e == CodecError::Malformed),
{
    assert forall|s2: Seq<u8>, before: Seq<MappingV>|
        #[trigger] mapping_dec()(s2, before) is Err implies mapping_dec()(s2, before)->Err_0 == CodecError::Short by {
    }
    assert forall|s2: Seq<u8>, before: Seq<Entry>|
        #[trigger] entry_dec()(s2, before) is Err implies entry_dec()(s2, before)->Err_0 == CodecError::Short by {
    }
    match spec_read_u8(s) {
        Err(_) => {},
        Ok((n1, r1)) => {
            lemma_section_fails_short(r1, n1 as nat, mapping_dec());
            match spec_decode_section(r1, n1 as nat, mapping_dec()) {
                Err(_) => {},
                Ok((_, r2)) => match spec_read_u8(r2) {
                    Err(_) => {},
                    Ok((n2, r3)) => {
                        lemma_section_fails_short(r3, n2 as nat, mapping_dec());
                        match spec_decode_section(r3, n2 as nat, mapping_dec()) {
                            Err(_) => {},
                            Ok((_, r4)) => match spec_read_u16(r4) {
                                Err(_) => {},
                                Ok((n3, r5)) => {
                                    lemma_section_fails_short(r5, n3 as nat, entry_dec());
                                    match spec_decode_section(r5, n3 as nat, entry_dec()) {
                                        Err(_) => {},
                                        Ok((_, r6)) => match spec_read_u16(r6) {
                                            Err(_) => {},
                                            Ok((n4, r7)) => {
                                                lemma_section_fails_short(r7, n4 as nat, entry_dec());
                                            },
                                        },
                                    }
                                },
                            },
                        }
                    },
                },
            }
        },
    }
}

/// Bytes after a well-formed ROUTING_UPDATE body make it `Malformed`.
#[verifier::spinoff_prover]
#[verifier::rlimit(40)]
pub proof fn lemma_routing_update_trailing_bytes(v: RoutingUpdateV, junk: Seq<u8>)
    requires
        v.well_formed(),
        junk.len() > 0,
    ensures
        RoutingUpdateV::spec_decode(v.spec_bytes() + junk) == Err::<RoutingUpdateV, CodecError>(
            CodecError::Malformed,
        ),
{
    let um = v.user_mappings;
    let nm = v.node_mappings;
    let ue = v.user_entries;
    let ne = v.node_entries;
    let b8 = junk;
    let b7 = entries_bytes(ne) + b8;
    let b6 = be16(ne.len() as u16) + b7;
    let b5 = entries_bytes(ue) + b6;
    let b4 = be16(ue.len() as u16) + b5;
    let b3 = mappings_bytes(nm) + b4;
    let b2 = seq![nm.len() as u8] + b3;
    let b1 = mappings_bytes(um) + b2;
    let b0 = seq![um.len() as u8] + b1;
    assert(v.spec_bytes() + junk =~= b0);
    assert(b0.skip(1) =~= b1);
    assert(spec_read_u8(b0) == Ok::<(u8, Seq<u8>), CodecError>((um.len() as u8, b1)));
    lemma_mappings_round_trip(um, b2);
    assert(b2.skip(1) =~= b3);
    assert(spec_read_u8(b2) == Ok::<(u8, Seq<u8>), CodecError>((nm.len() as u8, b3)));
    lemma_mappings_round_trip(nm, b4);
    lemma_be16_round_trip(ue.len() as u16);
    assert(b4.skip(2) =~= b5);
    assert(spec_read_u16(b4) == Ok::<(u16, Seq<u8>), CodecError>((ue.len() as u16, b5)));
    lemma_entries_round_trip(ue, b6);
    lemma_be16_round_trip(ne.len() as u16);
    assert(b6.skip(2) =~= b7);
    assert(spec_read_u16(b6) == Ok::<(u16, Seq<u8>), CodecError>((ne.len() as u16, b7)));
    lemma_entries_round_trip(ne, b8);
}

/// Reading a mapping from the first `k` bytes: the same mapping, or an
/// error.
proof fn lemma_decode_mapping_prefix(s: Seq<u8>, before: Seq<MappingV>, k: nat)
    requires
        k <= s.len(),
    ensures
        prefix_result(spec_decode_mapping(s, before), s.len(), k, spec_decode_mapping(s.take(k as int), before)),
{
    let cur = mapping_cursor(before);
    lemma_decode_idx_prefix(s, cur, k);
    lemma_decode_idx_prefix(s, cur, 0);
    match spec_decode_idx(s, cur) {
        Err(_) => {},
        Ok((_, r1)) => {
            let c1 = (s.len() - r1.len()) as nat;
            let k1: nat = if k >= c1 { (k - c1) as nat } else { 0 };
            lemma_read_bytes_prefix(r1, 8, k1);
            match spec_read_bytes(r1, 8) {
                Err(_) => {},
                Ok((_, r2)) => {
                    let c2 = (r1.len() - r2.len()) as nat;
                    let k2: nat = if k1 >= c2 { (k1 - c2) as nat } else { 0 };
                    lemma_read_u32_prefix(r2, k2);
                    match spec_read_u32(r2) {
                        Err(_) => {},
                        Ok((_, r3)) => {
                            if k >= c1 && k1 >= c2 && k2 >= (r2.len() - r3.len()) {
                                assert(k2 - (r2.len() - r3.len()) == k - (s.len() - r3.len()));
                            }
                        },
                    }
                },
            }
        },
    }
}

/// Reading an entry from the first `k` bytes: the same entry, or an
/// error.
proof fn lemma_decode_entry_prefix(s: Seq<u8>, before: Seq<Entry>, k: nat)
    requires
        k <= s.len(),
    ensures
        prefix_result(spec_decode_entry(s, before), s.len(), k, spec_decode_entry(s.take(k as int), before)),
{
    let cur = entry_cursor(before);
    lemma_decode_idx_prefix(s, cur, k);
    lemma_decode_idx_prefix(s, cur, 0);
    match spec_decode_idx(s, cur) {
        Err(_) => {},
        Ok((_, r1)) => {
            let c1 = (s.len() - r1.len()) as nat;
            let k1: nat = if k >= c1 { (k - c1) as nat } else { 0 };
            lemma_read_u16_prefix(r1, k1);
            match spec_read_u16(r1) {
                Err(_) => {},
                Ok((_, r2)) => {
                    let c2 = (r1.len() - r2.len()) as nat;
                    let k2: nat = if k1 >= c2 { (k1 - c2) as nat } else { 0 };
                    lemma_read_u16_prefix(r2, k2);
                    match spec_read_u16(r2) {
                        Err(_) => {},
                        Ok((_, r3)) => {
                            let c3 = (r2.len() - r3.len()) as nat;
                            let k3: nat = if k2 >= c3 { (k2 - c3) as nat } else { 0 };
                            lemma_read_u8_prefix(r3, k3);
                            match spec_read_u8(r3) {
                                Err(_) => {},
                                Ok((_, r4)) => {
                                    if k >= c1 && k1 >= c2 && k2 >= c3 && k3 >= (r3.len() - r4.len()) {
                                        assert(k3 - (r3.len() - r4.len()) == k - (s.len() - r4.len()));
                                    }
                                },
                            }
                        },
                    }
                },
            }
        },
    }
}

/// Every strict prefix of a well-formed ROUTING_UPDATE body fails to
/// decode.
#[verifier::spinoff_prover]
#[verifier::rlimit(40)]
pub proof fn lemma_routing_update_prefix_rejected(v: RoutingUpdateV, k: nat)
    requires
        v.well_formed(),
        k < v.spec_bytes().len(),
    ensures
        RoutingUpdateV::spec_decode(v.spec_bytes().take(k as int)) is Err,
{
    let s = v.spec_bytes();
    lemma_routing_update_round_trip(v);
    assert forall|s2: Seq<u8>, before: Seq<MappingV>, k2: nat| k2 <= s2.len() implies prefix_result(
        #[trigger] mapping_dec()(s2, before),
        s2.len(),
        k2,
        #[trigger] mapping_dec()(s2.take(k2 as int), before),
    ) by {
        lemma_decode_mapping_prefix(s2, before, k2);
    }
    assert forall|s2: Seq<u8>, before: Seq<Entry>, k2: nat| k2 <= s2.len() implies prefix_result(
        #[trigger] entry_dec()(s2, before),
        s2.len(),
        k2,
        #[trigger] entry_dec()(s2.take(k2 as int), before),
    ) by {
        lemma_decode_entry_prefix(s2, before, k2);
    }
    lemma_read_u8_prefix(s, k);
    let (n1, r1) = spec_read_u8(s)->Ok_0;
    let k1: nat = if k >= s.len() - r1.len() { (k - (s.len() - r1.len())) as nat } else { 0 };
    lemma_section_prefix(r1, n1 as nat, k1, mapping_dec());
    let (_, r2) = spec_decode_section(r1, n1 as nat, mapping_dec())->Ok_0;
    let k2: nat = if k1 >= r1.len() - r2.len() { (k1 - (r1.len() - r2.len())) as nat } else { 0 };
    lemma_read_u8_prefix(r2, k2);
    let (n2, r3) = spec_read_u8(r2)->Ok_0;
    let k3: nat = if k2 >= r2.len() - r3.len() { (k2 - (r2.len() - r3.len())) as nat } else { 0 };
    lemma_section_prefix(r3, n2 as nat, k3, mapping_dec());
    let (_, r4) = spec_decode_section(r3, n2 as nat, mapping_dec())->Ok_0;
    let k4: nat = if k3 >= r3.len() - r4.len() { (k3 - (r3.len() - r4.len())) as nat } else { 0 };
    lemma_read_u16_prefix(r4, k4);
    let (n3, r5) = spec_read_u16(r4)->Ok_0;
    let k5: nat = if k4 >= r4.len() - r5.len() { (k4 - (r4.len() - r5.len())) as nat } else { 0 };
    lemma_section_prefix(r5, n3 as nat, k5, entry_dec());
    let (_, r6) = spec_decode_section(r5, n3 as nat, entry_dec())->Ok_0;
    let k6: nat = if k5 >= r5.len() - r6.len() { (k5 - (r5.len() - r6.len())) as nat } else { 0 };
    lemma_read_u16_prefix(r6, k6);
    let (n4, r7) = spec_read_u16(r6)->Ok_0;
    let k7: nat = if k6 >= r6.len() - r7.len() { (k6 - (r6.len() - r7.len())) as nat } else { 0 };
    lemma_section_prefix(r7, n4 as nat, k7, entry_dec());
}

// ---------- INDEX_DUMP ----------

impl IndexDumpV {
    /// The bytes of an INDEX_DUMP body: chunk index and count, then each
    /// mapping section after its two-byte count.
    pub open spec fn spec_bytes(self) -> Seq<u8> {
        seq![self.chunk_index, self.chunk_count] + be16(self.user_mappings.len() as u16)
            + mappings_bytes(self.user_mappings) + be16(self.node_mappings.len() as u16)
            + mappings_bytes(self.node_mappings)
    }

    pub open spec fn well_formed(self) -> bool {
        &&& self.user_mappings.len() <= 0xffff
        &&& self.node_mappings.len() <= 0xffff
        &&& forall|i: int|
            0 <= i < self.user_mappings.len() ==> (#[trigger] self.user_mappings[i]).target_id.len()
                == 8
        &&& forall|i: int|
            0 <= i < self.node_mappings.len() ==> (#[trigger] self.node_mappings[i]).target_id.len()
                == 8
    }

    /// What decoding an INDEX_DUMP body gives; trailing bytes are an error.
    pub open spec fn spec_decode(s: Seq<u8>) -> Result<IndexDumpV, CodecError> {
        match spec_read_u8(s) {
            Err(e) => Err(e),
            Ok((ci, r0)) => match spec_read_u8(r0) {
                Err(e) => Err(e),
                Ok((cc, r1)) => match spec_read_u16(r1) {
                    Err(e) => Err(e),
                    Ok((n1, r2)) => match spec_decode_section(r2, n1 as nat, mapping_dec()) {
                        Err(e) => Err(e),
                        Ok((um, r3)) => match spec_read_u16(r3) {
                            Err(e) => Err(e),
                            Ok((n2, r4)) => match spec_decode_section(r4, n2 as nat, mapping_dec()) {
                                Err(e) => Err(e),
                                Ok((nm, r5)) => if r5.len() != 0 {
                                    Err(CodecError::Malformed)
                                } else {
                                    Ok(
                                        IndexDumpV {
                                            chunk_index: ci,
                                            chunk_count: cc,
                                            user_mappings: um,
                                            node_mappings: nm,
                                        },
                                    )
                                },
                            },
                        },
                    },
                },
            },
        }
    }
}

impl IndexDump {
    /// Appends the body of this INDEX_DUMP to `res`.
    pub fn encode(&self, res: &mut Vec<u8>) -> (r: Result<(), CodecError>)
        ensures
            r is Ok,
            final(res)@ == old(res)@ + self@.spec_bytes(),
    {
        let ghost v = self@;
        res.push(self.chunk_index);
        res.push(self.chunk_count);
        push_u16_be(res, self.user_mappings.len() as u16);
        encode_mapping_section(&self.user_mappings, res);
        push_u16_be(res, self.node_mappings.len() as u16);
        encode_mapping_section(&self.node_mappings, res);
        assert(final(res)@ =~= old(res)@ + v.spec_bytes());
        Ok(())
    }

    /// Decodes an INDEX_DUMP body; the whole input must be consumed.
    pub fn decode(msg: &[u8]) -> (r: Result<IndexDump, CodecError>)
        ensures
            match (r, IndexDumpV::spec_decode(msg@)) {
                (Ok(m), Ok(sm)) => m@ == sm,
                (Err(e), Err(se)) => e == se,
                _ => false,
            },
    {
        let mut buf = msg;
        let chunk_index = read_u8(&mut buf)?;
        let chunk_count = read_u8(&mut buf)?;
        let n_user = read_u16_be(&mut buf)?;
        let user_mappings = decode_mapping_section(&mut buf, n_user as usize)?;
        let n_node = read_u16_be(&mut buf)?;
        let node_mappings = decode_mapping_section(&mut buf, n_node as usize)?;
        if buf.len() != 0 {
            return Err(CodecError::Malformed);
        }
        Ok(IndexDump { chunk_index, chunk_count, user_mappings, node_mappings })
    }
}

/// A well-formed INDEX_DUMP decodes from its own bytes to itself.
#[verifier::rlimit(30)]
pub proof fn lemma_index_dump_round_trip(v: IndexDumpV)
    requires
        v.well_formed(),
    ensures
        IndexDumpV::spec_decode(v.spec_bytes()) == Ok::<IndexDumpV, CodecError>(v),
{
    let um = v.user_mappings;
    let nm = v.node_mappings;
    let b5 = Seq::<u8>::empty();
    let b4 = mappings_bytes(nm) + b5;
    let b3 = be16(nm.len() as u16) + b4;
    let b2 = mappings_bytes(um) + b3;
    let b1 = be16(um.len() as u16) + b2;
    let b0 = seq![v.chunk_count] + b1;
    let s = seq![v.chunk_index] + b0;
    assert(v.spec_bytes() =~= s);
    assert(s.skip(1) =~= b0);
    assert(b0.skip(1) =~= b1);
    assert(spec_read_u8(s) == Ok::<(u8, Seq<u8>), CodecError>((v.chunk_index, b0)));
    assert(spec_read_u8(b0) == Ok::<(u8, Seq<u8>), CodecError>((v.chunk_count, b1)));
    lemma_be16_round_trip(um.len() as u16);
    assert(b1.skip(2) =~= b2);
    assert(spec_read_u16(b1) == Ok::<(u16, Seq<u8>), CodecError>((um.len() as u16, b2)));
    lemma_mappings_round_trip(um, b3);
    lemma_be16_round_trip(nm.len() as u16);
    assert(b3.skip(2) =~= b4);
    assert(spec_read_u16(b3) == Ok::<(u16, Seq<u8>), CodecError>((nm.len() as u16, b4)));
    lemma_mappings_round_trip(nm, b5);
}

/// Bytes after a well-formed INDEX_DUMP body make it `Malformed`.
pub proof fn lemma_index_dump_trailing_bytes(v: IndexDumpV, junk: Seq<u8>)
    requires
        v.well_formed(),
        junk.len() > 0,
    ensures
        IndexDumpV::spec_decode(v.spec_bytes() + junk) == Err::<IndexDumpV, CodecError>(CodecError::Malformed),
{
    let um = v.user_mappings;
    let nm = v.node_mappings;
    let b5 = junk;
    let b4 = mappings_bytes(nm) + b5;
    let b3 = be16(nm.len() as u16) + b4;
    let b2 = mappings_bytes(um) + b3;
    let b1 = be16(um.len() as u16) + b2;
    let b0 = seq![v.chunk_count] + b1;
    let s = seq![v.chunk_index] + b0;
    assert(v.spec_bytes() + junk =~= s);
    assert(s.skip(1) =~= b0);
    assert(b0.skip(1) =~= b1);
    assert(spec_read_u8(s) == Ok::<(u8, Seq<u8>), CodecError>((v.chunk_index, b0)));
    assert(spec_read_u8(b0) == Ok::<(u8, Seq<u8>), CodecError>((v.chunk_count, b1)));
    lemma_be16_round_trip(um.len() as u16);
    assert(b1.skip(2) =~= b2);
    assert(spec_read_u16(b1) == Ok::<(u16, Seq<u8>), CodecError>((um.len() as u16, b2)));
    lemma_mappings_round_trip(um, b3);
    lemma_be16_round_trip(nm.len() as u16);
    assert(b3.skip(2) =~= b4);
    assert(spec_read_u16(b3) == Ok::<(u16, Seq<u8>), CodecError>((nm.len() as u16, b4)));
    lemma_mappings_round_trip(nm, b5);
}

/// Every strict prefix of a well-formed INDEX_DUMP body fails to decode.
#[verifier::spinoff_prover]
#[verifier::rlimit(40)]
pub proof fn lemma_index_dump_prefix_rejected(v: IndexDumpV, k: nat)
    requires
        v.well_formed(),
        k < v.spec_bytes().len(),
    ensures
        IndexDumpV::spec_decode(v.spec_bytes().take(k as int)) is Err,
{
    let s = v.spec_bytes();
    lemma_index_dump_round_trip(v);
    assert forall|s2: Seq<u8>, before: Seq<MappingV>, k2: nat| k2 <= s2.len() implies prefix_result(
        #[trigger] mapping_dec()(s2, before),
        s2.len(),
        k2,
        #[trigger] mapping_dec()(s2.take(k2 as int), before),
    ) by {
        lemma_decode_mapping_prefix(s2, before, k2);
    }
    lemma_read_u8_prefix(s, k);
    let (_, r0) = spec_read_u8(s)->Ok_0;
    let k0: nat = if k >= s.len() - r0.len() { (k - (s.len() - r0.len())) as nat } else { 0 };
    lemma_read_u8_prefix(r0, k0);
    let (_, r1) = spec_read_u8(r0)->Ok_0;
    let k1: nat = if k0 >= r0.len() - r1.len() { (k0 - (r0.len() - r1.len())) as nat } else { 0 };
    lemma_read_u16_prefix(r1, k1);
    let (n1, r2) = spec_read_u16(r1)->Ok_0;
    let k2: nat = if k1 >= r1.len() - r2.len() { (k1 - (r1.len() - r2.len())) as nat } else { 0 };
    lemma_section_prefix(r2, n1 as nat, k2, mapping_dec());
    let (_, r3) = spec_decode_section(r2, n1 as nat, mapping_dec())->Ok_0;
    let k3: nat = if k2 >= r2.len() - r3.len() { (k2 - (r2.len() - r3.len())) as nat } else { 0 };
    lemma_read_u16_prefix(r3, k3);
    let (n2, r4) = spec_read_u16(r3)->Ok_0;
    let k4: nat = if k3 >= r3.len() - r4.len() { (k3 - (r3.len() - r4.len())) as nat } else { 0 };
    lemma_section_prefix(r4, n2 as nat, k4, mapping_dec());
}

// ---------- manifest entries ----------

/// One user's delegation entry in a node's manifest.
#[derive(Debug, Clone, Copy)]
pub struct ManifestEntry {
    /// the delegating user's 8-byte ID
    pub user_id: [u8; 8],
    /// expiry, milliseconds since Unix epoch
    pub timeout: u64,
    /// the signature the user made over the delegation
    pub entry_signature: [u8; 64],
    /// the profile version of the delegating user
    pub profile_version: u32,
}

/// A manifest entry as a value.
pub struct ManifestEntryV {
    pub user_id: Seq<u8>,
    pub timeout: u64,
    pub entry_signature: Seq<u8>,
    pub profile_version: u32,
}

impl View for ManifestEntry {
    type V = ManifestEntryV;

    open spec fn view(&self) -> ManifestEntryV {
        ManifestEntryV {
            user_id: self.user_id@,
            timeout: self.timeout,
            entry_signature: self.entry_signature@,
            profile_version: self.profile_version,
        }
    }
}

/// The manifest entries of a vector, as values.
pub open spec fn manifest_entries_view(v: Seq<ManifestEntry>) -> Seq<ManifestEntryV> {
    v.map_values(|e: ManifestEntry| e@)
}

/// The 84 bytes of one manifest entry: user id, big-endian timeout, the
/// signature and the big-endian profile version.
pub open spec fn manifest_entry_bytes(e: ManifestEntryV) -> Seq<u8> {
    e.user_id + be64(e.timeout) + e.entry_signature + be32(e.profile_version)
}

pub open spec fn manifest_entry_wf(e: ManifestEntryV) -> bool {
    e.user_id.len() == 8 && e.entry_signature.len() == 64
}

/// What reading one manifest entry from the front of `s` gives.
pub open spec fn spec_decode_manifest_entry(s: Seq<u8>) -> Result<(ManifestEntryV, Seq<u8>), CodecError> {
    match spec_read_bytes(s, 8) {
        Err(e) => Err(e),
        Ok((user_id, r1)) => match spec_read_u64(r1) {
            Err(e) => Err(e),
            Ok((timeout, r2)) => match spec_read_bytes(r2, 64) {
                Err(e) => Err(e),
                Ok((entry_signature, r3)) => match spec_read_u32(r3) {
                    Err(e) => Err(e),
                    Ok((profile_version, r4)) => Ok(
                        (ManifestEntryV { user_id, timeout, entry_signature, profile_version }, r4),
                    ),
                },
            },
        },
    }
}

pub proof fn lemma_manifest_entry_round_trip(e: ManifestEntryV, rest: Seq<u8>)
    requires
        manifest_entry_wf(e),
    ensures
        spec_decode_manifest_entry(manifest_entry_bytes(e) + rest) == Ok::<
            (ManifestEntryV, Seq<u8>),
            CodecError,
        >((e, rest)),
{
    let r3 = be32(e.profile_version) + rest;
    let r2 = e.entry_signature + r3;
    let r1 = be64(e.timeout) + r2;
    let s = e.user_id + r1;
    assert(manifest_entry_bytes(e) + rest =~= s);
    assert(s.take(8) =~= e.user_id);
    assert(s.skip(8) =~= r1);
    lemma_be64_round_trip(e.timeout);
    assert(r1.skip(8) =~= r2);
    assert(spec_read_u64(r1) == Ok::<(u64, Seq<u8>), CodecError>((e.timeout, r2)));
    assert(r2.take(64) =~= e.entry_signature);
    assert(r2.skip(64) =~= r3);
    lemma_be32_round_trip(e.profile_version);
    assert(r3.skip(4) =~= rest);
    assert(spec_read_u32(r3) == Ok::<(u32, Seq<u8>), CodecError>((e.profile_version, rest)));
}

impl ManifestEntry {
    /// Appends the 84 bytes of this entry to `res`.
    pub fn encode(&self, res: &mut Vec<u8>)
        ensures
            final(res)@ == old(res)@ + manifest_entry_bytes(self@),
    {
        push_bytes(res, &self.user_id);
        push_u64_be(res, self.timeout);
        push_bytes(res, &self.entry_signature);
        push_u32_be(res, self.profile_version);
        assert(final(res)@ =~= old(res)@ + manifest_entry_bytes(self@));
    }
}

/// Reads one manifest entry from the front of `buf`.
fn decode_manifest_entry(buf: &mut &[u8]) -> (r: Result<ManifestEntry, CodecError>)
    ensures
        match (r, spec_decode_manifest_entry(old(buf)@)) {
            (Ok(v), Ok((sv, rest))) => v@ == sv && final(buf)@ == rest,
            (Err(e), Err(se)) => e == se,
            _ => false,
        },
{
    let user_id = read_array::<8>(buf)?;
    let timeout = read_u64_be(buf)?;
    let entry_signature = read_array::<64>(buf)?;
    let profile_version = read_u32_be(buf)?;
    Ok(ManifestEntry { user_id, timeout, entry_signature, profile_version })
}

pub open spec fn manifest_entry_enc() -> spec_fn(ManifestEntryV, Seq<ManifestEntryV>) -> Seq<u8> {
    |e: ManifestEntryV, before: Seq<ManifestEntryV>| manifest_entry_bytes(e)
}

pub open spec fn manifest_entry_dec() -> spec_fn(Seq<u8>, Seq<ManifestEntryV>) -> Result<
    (ManifestEntryV, Seq<u8>),
    CodecError,
> {
    |s: Seq<u8>, before: Seq<ManifestEntryV>| spec_decode_manifest_entry(s)
}

/// The bytes of a section of manifest entries.
pub open spec fn manifest_entries_bytes(es: Seq<ManifestEntryV>) -> Seq<u8> {
    section_bytes(es, manifest_entry_enc())
}

pub proof fn lemma_manifest_entries_round_trip(es: Seq<ManifestEntryV>, rest: Seq<u8>)
    requires
        forall|i: int| 0 <= i < es.len() ==> manifest_entry_wf(#[trigger] es[i]),
    ensures
        spec_decode_section(manifest_entries_bytes(es) + rest, es.len(), manifest_entry_dec())
            == Ok::<(Seq<ManifestEntryV>, Seq<u8>), CodecError>((es, rest)),
{
    let wf = |e: ManifestEntryV| manifest_entry_wf(e);
    assert forall|x: ManifestEntryV, before: Seq<ManifestEntryV>, r: Seq<u8>| wf(x) implies #[trigger] manifest_entry_dec()(
        manifest_entry_enc()(x, before) + r,
        before,
    ) == Ok::<(ManifestEntryV, Seq<u8>), CodecError>((x, r)) by {
        lemma_manifest_entry_round_trip(x, r);
    }
    lemma_section_round_trip(es, rest, manifest_entry_enc(), manifest_entry_dec(), wf);
}

/// Writes a run of manifest entries.
pub(crate) fn encode_manifest_entry_section(es: &[ManifestEntry], res: &mut Vec<u8>)
    ensures
        final(res)@ == old(res)@ + manifest_entries_bytes(manifest_entries_view(es@)),
{
    let n = es.len();
    for k in 0..n
        invariant
            n == es@.len(),
            res@ == old(res)@ + manifest_entries_bytes(manifest_entries_view(es@.take(k as int))),
    {
        let ghost before = manifest_entries_view(es@.take(k as int));
        es[k].encode(res);
        let ghost now = manifest_entries_view(es@.take(k + 1));
        assert(now.drop_last() =~= before);
        assert(now.last() == es@[k as int]@);
        assert(res@ =~= old(res)@ + manifest_entries_bytes(now));
    }
    assert(es@.take(n as int) =~= es@);
}

/// Reads a section of `n` manifest entries from the front of `buf`.
fn decode_manifest_entry_section(buf: &mut &[u8], n: usize) -> (r: Result<
    Vec<ManifestEntry>,
    CodecError,
>)
    ensures
        match (r, spec_decode_section(old(buf)@, n as nat, manifest_entry_dec())) {
            (Ok(v), Ok((items, rest))) => manifest_entries_view(v@) == items && final(buf)@ == rest,
            (Err(e), Err(se)) => e == se,
            _ => false,
        },
{
    let ghost start = buf@;
    let mut out: Vec<ManifestEntry> = Vec::with_capacity(n);
    assert(manifest_entries_view(out@) =~= seq![]);
    for i in 0..n
        invariant
            start == old(buf)@,
            spec_decode_section(start, i as nat, manifest_entry_dec()) == Ok::<
                (Seq<ManifestEntryV>, Seq<u8>),
                CodecError,
            >((manifest_entries_view(out@), buf@)),
    {
        proof {
            lemma_section_step(start, i as nat, manifest_entry_dec());
        }
        let ghost before = manifest_entries_view(out@);
        let e = match decode_manifest_entry(buf) {
            Ok(v) => v,
            Err(e) => {
                proof {
                    lemma_section_err_persists(start, (i + 1) as nat, n as nat, manifest_entry_dec());
                }
                return Err(e);
            },
        };
        out.push(e);
        assert(manifest_entries_view(out@) =~= before.push(e@));
    }
    Ok(out)
}


// ---------- NODE_MANIFEST ----------

/// One chunk of the manifest a node holds: the users that delegated to it.
/// On the wire: the 8-byte id of the originating node, the big-endian
/// version, chunk index, chunk count and flags, the 64-byte signature, a
/// two-byte entry count and the entries, 84 bytes each; 81 bytes before
/// the entries. A NODE_MANIFEST is link-local and sent only in answer to a
/// pull, for an origin the receiver may know by no index of the sender's,
/// so the origin is named by its 8-byte id and is not translated through
/// the neighbour's mirror; each entry carries the delegating user's profile
/// version, which the receiver holds its own record against.
#[derive(Debug)]
pub struct NodeManifest {
    /// the 8-byte id of the originating node
    pub origin_node_id: [u8; 8],
    /// monotonic counter, incremented on any change to the entries list
    pub manifest_version: u32,
    /// the index of this chunk
    pub chunk_index: u8,
    pub chunk_count: u8,
    /// bit 0 is `is_gateway`, the other bits are reserved
    pub flags: u8,
    /// the signature made by the originating node
    pub manifest_signature: [u8; 64],
    /// the users delegated to this node
    pub entries: Vec<ManifestEntry>,
}

/// A NODE_MANIFEST chunk as a value.
pub struct NodeManifestV {
    pub origin_node_id: Seq<u8>,
    pub manifest_version: u32,
    pub chunk_index: u8,
    pub chunk_count: u8,
    pub flags: u8,
    pub manifest_signature: Seq<u8>,
    pub entries: Seq<ManifestEntryV>,
}

impl View for NodeManifest {
    type V = NodeManifestV;

    open spec fn view(&self) -> NodeManifestV {
        NodeManifestV {
            origin_node_id: self.origin_node_id@,
            manifest_version: self.manifest_version,
            chunk_index: self.chunk_index,
            chunk_count: self.chunk_count,
            flags: self.flags,
            manifest_signature: self.manifest_signature@,
            entries: manifest_entries_view(self.entries@),
        }
    }
}

impl NodeManifestV {
    /// The bytes of a NODE_MANIFEST body.
    pub open spec fn spec_bytes(self) -> Seq<u8> {
        self.origin_node_id + be32(self.manifest_version) + seq![
            self.chunk_index,
            self.chunk_count,
            self.flags,
        ] + self.manifest_signature + be16(self.entries.len() as u16) + manifest_entries_bytes(
            self.entries,
        )
    }

    pub open spec fn well_formed(self) -> bool {
        &&& self.origin_node_id.len() == 8
        &&& self.manifest_signature.len() == 64
        &&& self.entries.len() <= 0xffff
        &&& forall|i: int| 0 <= i < self.entries.len() ==> manifest_entry_wf(#[trigger] self.entries[i])
    }

    /// What decoding a NODE_MANIFEST body gives; trailing bytes are an error.
    pub open spec fn spec_decode(s: Seq<u8>) -> Result<NodeManifestV, CodecError> {
        match spec_read_bytes(s, 8) {
            Err(e) => Err(e),
            Ok((origin_node_id, r1)) => match spec_read_u32(r1) {
                Err(e) => Err(e),
                Ok((manifest_version, r2)) => match spec_read_u8(r2) {
                    Err(e) => Err(e),
                    Ok((chunk_index, r3)) => match spec_read_u8(r3) {
                        Err(e) => Err(e),
                        Ok((chunk_count, r4)) => match spec_read_u8(r4) {
                            Err(e) => Err(e),
                            Ok((flags, r5)) => match spec_read_bytes(r5, 64) {
                                Err(e) => Err(e),
                                Ok((manifest_signature, r6)) => match spec_read_u16(r6) {
                                    Err(e) => Err(e),
                                    Ok((n, r7)) => match spec_decode_section(
                                        r7,
                                        n as nat,
                                        manifest_entry_dec(),
                                    ) {
                                        Err(e) => Err(e),
                                        Ok((entries, r8)) => if r8.len() != 0 {
                                            Err(CodecError::Malformed)
                                        } else {
                                            Ok(
                                                NodeManifestV {
                                                    origin_node_id,
                                                    manifest_version,
                                                    chunk_index,
                                                    chunk_count,
                                                    flags,
                                                    manifest_signature,
                                                    entries,
                                                },
                                            )
                                        },
                                    },
                                },
                            },
                        },
                    },
                },
            },
        }
    }
}

impl NodeManifest {
    /// Appends the body of this NODE_MANIFEST chunk to `res`.
    pub fn encode(&self, res: &mut Vec<u8>) -> (r: Result<(), CodecError>)
        ensures
            r is Ok,
            final(res)@ == old(res)@ + self@.spec_bytes(),
    {
        let ghost v = self@;
        push_bytes(res, &self.origin_node_id);
        push_u32_be(res, self.manifest_version);
        res.push(self.chunk_index);
        res.push(self.chunk_count);
        res.push(self.flags);
        push_bytes(res, &self.manifest_signature);
        push_u16_be(res, self.entries.len() as u16);
        encode_manifest_entry_section(self.entries.as_slice(), res);
        assert(final(res)@ =~= old(res)@ + v.spec_bytes());
        Ok(())
    }

    /// Decodes a NODE_MANIFEST body; the whole input must be consumed.
    pub fn decode(msg: &[u8]) -> (r: Result<NodeManifest, CodecError>)
        ensures
            match (r, NodeManifestV::spec_decode(msg@)) {
                (Ok(m), Ok(sm)) => m@ == sm,
                (Err(e), Err(se)) => e == se,
                _ => false,
            },
    {
        let mut buf = msg;
        let origin_node_id = read_array::<8>(&mut buf)?;
        let manifest_version = read_u32_be(&mut buf)?;
        let chunk_index = read_u8(&mut buf)?;
        let chunk_count = read_u8(&mut buf)?;
        let flags = read_u8(&mut buf)?;
        let manifest_signature = read_array::<64>(&mut buf)?;
        let n = read_u16_be(&mut buf)?;
        let entries = decode_manifest_entry_section(&mut buf, n as usize)?;
        if buf.len() != 0 {
            return Err(CodecError::Malformed);
        }
        Ok(
            NodeManifest {
                origin_node_id,
                manifest_version,
                chunk_index,
                chunk_count,
                flags,
                manifest_signature,
                entries,
            },
        )
    }
}

/// A well-formed NODE_MANIFEST chunk decodes from its own bytes to itself.
#[verifier::rlimit(30)]
pub proof fn lemma_node_manifest_round_trip(v: NodeManifestV)
    requires
        v.well_formed(),
    ensures
        NodeManifestV::spec_decode(v.spec_bytes()) == Ok::<NodeManifestV, CodecError>(v),
{
    let b8 = Seq::<u8>::empty();
    let b7 = manifest_entries_bytes(v.entries) + b8;
    let b6 = be16(v.entries.len() as u16) + b7;
    let b5 = v.manifest_signature + b6;
    let b4 = seq![v.flags] + b5;
    let b3 = seq![v.chunk_count] + b4;
    let b2 = seq![v.chunk_index] + b3;
    let b1 = be32(v.manifest_version) + b2;
    let b0 = v.origin_node_id + b1;
    assert(v.spec_bytes() =~= b0);
    assert(b0.take(8) =~= v.origin_node_id);
    assert(b0.skip(8) =~= b1);
    lemma_be32_round_trip(v.manifest_version);
    assert(b1.skip(4) =~= b2);
    assert(spec_read_u32(b1) == Ok::<(u32, Seq<u8>), CodecError>((v.manifest_version, b2)));
    assert(b2.skip(1) =~= b3);
    assert(b3.skip(1) =~= b4);
    assert(b4.skip(1) =~= b5);
    assert(b5.take(64) =~= v.manifest_signature);
    assert(b5.skip(64) =~= b6);
    lemma_be16_round_trip(v.entries.len() as u16);
    assert(b6.skip(2) =~= b7);
    assert(spec_read_u16(b6) == Ok::<(u16, Seq<u8>), CodecError>((v.entries.len() as u16, b7)));
    lemma_manifest_entries_round_trip(v.entries, b8);
}

/// Reading a manifest entry from the first `k` bytes: the same entry, or
/// an error.
proof fn lemma_decode_manifest_entry_prefix(s: Seq<u8>, k: nat)
    requires
        k <= s.len(),
    ensures
        prefix_result(spec_decode_manifest_entry(s), s.len(), k, spec_decode_manifest_entry(s.take(k as int))),
{
    lemma_read_bytes_prefix(s, 8, k);
    lemma_read_bytes_prefix(s, 8, 0);
    match spec_read_bytes(s, 8) {
        Err(_) => {},
        Ok((_, r1)) => {
            let c1 = (s.len() - r1.len()) as nat;
            let k1: nat = if k >= c1 { (k - c1) as nat } else { 0 };
            lemma_read_u64_prefix(r1, k1);
            match spec_read_u64(r1) {
                Err(_) => {},
                Ok((_, r2)) => {
                    let c2 = (r1.len() - r2.len()) as nat;
                    let k2: nat = if k1 >= c2 { (k1 - c2) as nat } else { 0 };
                    lemma_read_bytes_prefix(r2, 64, k2);
                    match spec_read_bytes(r2, 64) {
                        Err(_) => {},
                        Ok((_, r3)) => {
                            let c3 = (r2.len() - r3.len()) as nat;
                            let k3: nat = if k2 >= c3 { (k2 - c3) as nat } else { 0 };
                            lemma_read_u32_prefix(r3, k3);
                            match spec_read_u32(r3) {
                                Err(_) => {},
                                Ok((_, r4)) => {
                                    if k >= c1 && k1 >= c2 && k2 >= c3 && k3 >= (r3.len() - r4.len()) {
                                        assert(k3 - (r3.len() - r4.len()) == k - (s.len() - r4.len()));
                                    }
                                },
                            }
                        },
                    }
                },
            }
        },
    }
}

/// Bytes after a well-formed NODE_MANIFEST chunk make it `Malformed`.
#[verifier::rlimit(30)]
pub proof fn lemma_node_manifest_trailing_bytes(v: NodeManifestV, junk: Seq<u8>)
    requires
        v.well_formed(),
        junk.len() > 0,
    ensures
        NodeManifestV::spec_decode(v.spec_bytes() + junk) == Err::<NodeManifestV, CodecError>(
            CodecError::Malformed,
        ),
{
    let b8 = junk;
    let b7 = manifest_entries_bytes(v.entries) + b8;
    let b6 = be16(v.entries.len() as u16) + b7;
    let b5 = v.manifest_signature + b6;
    let b4 = seq![v.flags] + b5;
    let b3 = seq![v.chunk_count] + b4;
    let b2 = seq![v.chunk_index] + b3;
    let b1 = be32(v.manifest_version) + b2;
    let b0 = v.origin_node_id + b1;
    assert(v.spec_bytes() + junk =~= b0);
    assert(b0.take(8) =~= v.origin_node_id);
    assert(b0.skip(8) =~= b1);
    lemma_be32_round_trip(v.manifest_version);
    assert(b1.skip(4) =~= b2);
    assert(spec_read_u32(b1) == Ok::<(u32, Seq<u8>), CodecError>((v.manifest_version, b2)));
    assert(b2.skip(1) =~= b3);
    assert(b3.skip(1) =~= b4);
    assert(b4.skip(1) =~= b5);
    assert(b5.take(64) =~= v.manifest_signature);
    assert(b5.skip(64) =~= b6);
    lemma_be16_round_trip(v.entries.len() as u16);
    assert(b6.skip(2) =~= b7);
    assert(spec_read_u16(b6) == Ok::<(u16, Seq<u8>), CodecError>((v.entries.len() as u16, b7)));
    lemma_manifest_entries_round_trip(v.entries, b8);
}

/// Every strict prefix of a well-formed NODE_MANIFEST chunk fails to
/// decode.
#[verifier::spinoff_prover]
#[verifier::rlimit(40)]
pub proof fn lemma_node_manifest_prefix_rejected(v: NodeManifestV, k: nat)
    requires
        v.well_formed(),
        k < v.spec_bytes().len(),
    ensures
        NodeManifestV::spec_decode(v.spec_bytes().take(k as int)) is Err,
{
    let s = v.spec_bytes();
    lemma_node_manifest_round_trip(v);
    assert forall|s2: Seq<u8>, before: Seq<ManifestEntryV>, k2: nat| k2 <= s2.len() implies prefix_result(
        #[trigger] manifest_entry_dec()(s2, before),
        s2.len(),
        k2,
        #[trigger] manifest_entry_dec()(s2.take(k2 as int), before),
    ) by {
        lemma_decode_manifest_entry_prefix(s2, k2);
    }
    lemma_read_bytes_prefix(s, 8, k);
    let (_, r1) = spec_read_bytes(s, 8)->Ok_0;
    let k1: nat = if k >= s.len() - r1.len() { (k - (s.len() - r1.len())) as nat } else { 0 };
    lemma_read_u32_prefix(r1, k1);
    let (_, r2) = spec_read_u32(r1)->Ok_0;
    let k2: nat = if k1 >= r1.len() - r2.len() { (k1 - (r1.len() - r2.len())) as nat } else { 0 };
    lemma_read_u8_prefix(r2, k2);
    let (_, r3) = spec_read_u8(r2)->Ok_0;
    let k3: nat = if k2 >= r2.len() - r3.len() { (k2 - (r2.len() - r3.len())) as nat } else { 0 };
    lemma_read_u8_prefix(r3, k3);
    let (_, r4) = spec_read_u8(r3)->Ok_0;
    let k4: nat = if k3 >= r3.len() - r4.len() { (k3 - (r3.len() - r4.len())) as nat } else { 0 };
    lemma_read_u8_prefix(r4, k4);
    let (_, r5) = spec_read_u8(r4)->Ok_0;
    let k5: nat = if k4 >= r4.len() - r5.len() { (k4 - (r4.len() - r5.len())) as nat } else { 0 };
    lemma_read_bytes_prefix(r5, 64, k5);
    let (_, r6) = spec_read_bytes(r5, 64)->Ok_0;
    let k6: nat = if k5 >= r5.len() - r6.len() { (k5 - (r5.len() - r6.len())) as nat } else { 0 };
    lemma_read_u16_prefix(r6, k6);
    let (n, r7) = spec_read_u16(r6)->Ok_0;
    let k7: nat = if k6 >= r6.len() - r7.len() { (k6 - (r6.len() - r7.len())) as nat } else { 0 };
    lemma_section_prefix(r7, n as nat, k7, manifest_entry_dec());
}

// ---------- MANIFEST_DELTA ----------

/// An added or changed delegation carried by a MANIFEST_DELTA, with the
/// manifest version at which it was recorded.
#[derive(Debug, Clone, Copy)]
pub struct DeltaAdd {
    pub record_version: u32,
    pub entry: ManifestEntry,
}

/// A removed delegation carried by a MANIFEST_DELTA, with the manifest
/// version at which it was removed.
#[derive(Debug, Clone, Copy)]
pub struct DeltaRemove {
    pub user_id: [u8; 8],
    pub record_version: u32,
}

pub struct DeltaAddV {
    pub record_version: u32,
    pub entry: ManifestEntryV,
}

pub struct DeltaRemoveV {
    pub user_id: Seq<u8>,
    pub record_version: u32,
}

impl View for DeltaAdd {
    type V = DeltaAddV;

    open spec fn view(&self) -> DeltaAddV {
        DeltaAddV { record_version: self.record_version, entry: self.entry@ }
    }
}

impl View for DeltaRemove {
    type V = DeltaRemoveV;

    open spec fn view(&self) -> DeltaRemoveV {
        DeltaRemoveV { user_id: self.user_id@, record_version: self.record_version }
    }
}

pub open spec fn delta_adds_view(v: Seq<DeltaAdd>) -> Seq<DeltaAddV> {
    v.map_values(|a: DeltaAdd| a@)
}

pub open spec fn delta_removes_view(v: Seq<DeltaRemove>) -> Seq<DeltaRemoveV> {
    v.map_values(|r: DeltaRemove| r@)
}

/// The 88 bytes of an add: the big-endian record version, then the entry.
pub open spec fn delta_add_bytes(a: DeltaAddV) -> Seq<u8> {
    be32(a.record_version) + manifest_entry_bytes(a.entry)
}

/// The 12 bytes of a remove: the user id, then the big-endian record
/// version.
pub open spec fn delta_remove_bytes(r: DeltaRemoveV) -> Seq<u8> {
    r.user_id + be32(r.record_version)
}

pub open spec fn spec_decode_delta_add(s: Seq<u8>) -> Result<(DeltaAddV, Seq<u8>), CodecError> {
    match spec_read_u32(s) {
        Err(e) => Err(e),
        Ok((record_version, r1)) => match spec_decode_manifest_entry(r1) {
            Err(e) => Err(e),
            Ok((entry, r2)) => Ok((DeltaAddV { record_version, entry }, r2)),
        },
    }
}

pub open spec fn spec_decode_delta_remove(s: Seq<u8>) -> Result<(DeltaRemoveV, Seq<u8>), CodecError> {
    match spec_read_bytes(s, 8) {
        Err(e) => Err(e),
        Ok((user_id, r1)) => match spec_read_u32(r1) {
            Err(e) => Err(e),
            Ok((record_version, r2)) => Ok((DeltaRemoveV { user_id, record_version }, r2)),
        },
    }
}

pub open spec fn delta_add_enc() -> spec_fn(DeltaAddV, Seq<DeltaAddV>) -> Seq<u8> {
    |a: DeltaAddV, before: Seq<DeltaAddV>| delta_add_bytes(a)
}

pub open spec fn delta_add_dec() -> spec_fn(Seq<u8>, Seq<DeltaAddV>) -> Result<
    (DeltaAddV, Seq<u8>),
    CodecError,
> {
    |s: Seq<u8>, before: Seq<DeltaAddV>| spec_decode_delta_add(s)
}

pub open spec fn delta_remove_enc() -> spec_fn(DeltaRemoveV, Seq<DeltaRemoveV>) -> Seq<u8> {
    |r: DeltaRemoveV, before: Seq<DeltaRemoveV>| delta_remove_bytes(r)
}

pub open spec fn delta_remove_dec() -> spec_fn(Seq<u8>, Seq<DeltaRemoveV>) -> Result<
    (DeltaRemoveV, Seq<u8>),
    CodecError,
> {
    |s: Seq<u8>, before: Seq<DeltaRemoveV>| spec_decode_delta_remove(s)
}

pub proof fn lemma_delta_adds_round_trip(adds: Seq<DeltaAddV>, rest: Seq<u8>)
    requires
        forall|i: int| 0 <= i < adds.len() ==> manifest_entry_wf(#[trigger] adds[i].entry),
    ensures
        spec_decode_section(section_bytes(adds, delta_add_enc()) + rest, adds.len(), delta_add_dec())
            == Ok::<(Seq<DeltaAddV>, Seq<u8>), CodecError>((adds, rest)),
{
    let wf = |a: DeltaAddV| manifest_entry_wf(a.entry);
    assert forall|x: DeltaAddV, before: Seq<DeltaAddV>, r: Seq<u8>| wf(x) implies #[trigger] delta_add_dec()(
        delta_add_enc()(x, before) + r,
        before,
    ) == Ok::<(DeltaAddV, Seq<u8>), CodecError>((x, r)) by {
        let r1 = manifest_entry_bytes(x.entry) + r;
        assert(delta_add_bytes(x) + r =~= be32(x.record_version) + r1);
        lemma_be32_round_trip(x.record_version);
        assert((be32(x.record_version) + r1).skip(4) =~= r1);
        lemma_manifest_entry_round_trip(x.entry, r);
    }
    assert forall|i: int| 0 <= i < adds.len() implies wf(#[trigger] adds[i]) by {}
    lemma_section_round_trip(adds, rest, delta_add_enc(), delta_add_dec(), wf);
}

pub proof fn lemma_delta_removes_round_trip(removes: Seq<DeltaRemoveV>, rest: Seq<u8>)
    requires
        forall|i: int| 0 <= i < removes.len() ==> (#[trigger] removes[i]).user_id.len() == 8,
    ensures
        spec_decode_section(
            section_bytes(removes, delta_remove_enc()) + rest,
            removes.len(),
            delta_remove_dec(),
        ) == Ok::<(Seq<DeltaRemoveV>, Seq<u8>), CodecError>((removes, rest)),
{
    let wf = |r: DeltaRemoveV| r.user_id.len() == 8;
    assert forall|x: DeltaRemoveV, before: Seq<DeltaRemoveV>, r: Seq<u8>| wf(x) implies #[trigger] delta_remove_dec()(
        delta_remove_enc()(x, before) + r,
        before,
    ) == Ok::<(DeltaRemoveV, Seq<u8>), CodecError>((x, r)) by {
        let r1 = be32(x.record_version) + r;
        let s = x.user_id + r1;
        assert(delta_remove_bytes(x) + r =~= s);
        assert(s.take(8) =~= x.user_id);
        assert(s.skip(8) =~= r1);
        lemma_be32_round_trip(x.record_version);
        assert(r1.skip(4) =~= r);
    }
    assert forall|i: int| 0 <= i < removes.len() implies wf(#[trigger] removes[i]) by {}
    lemma_section_round_trip(removes, rest, delta_remove_enc(), delta_remove_dec(), wf);
}

/// An incremental update to a manifest: entries to add and users to
/// remove, taking the receiver from `from_version` to `to_version`.
#[derive(Debug)]
pub struct ManifestDelta {
    /// the 8-byte id of the node the manifest belongs to
    pub origin_node_id: [u8; 8],
    /// the `manifest_version` the delta builds upon
    pub from_version: u32,
    /// the resulting `manifest_version` after applying the delta
    pub to_version: u32,
    /// the manifest flags: the `is_gateway` bit and reserved bits
    pub flags: u8,
    /// the host's signature over the resulting full entry set
    pub manifest_signature: [u8; 64],
    pub adds: Vec<DeltaAdd>,
    pub removes: Vec<DeltaRemove>,
}

pub struct ManifestDeltaV {
    pub origin_node_id: Seq<u8>,
    pub from_version: u32,
    pub to_version: u32,
    pub flags: u8,
    pub manifest_signature: Seq<u8>,
    pub adds: Seq<DeltaAddV>,
    pub removes: Seq<DeltaRemoveV>,
}

impl View for ManifestDelta {
    type V = ManifestDeltaV;

    open spec fn view(&self) -> ManifestDeltaV {
        ManifestDeltaV {
            origin_node_id: self.origin_node_id@,
            from_version: self.from_version,
            to_version: self.to_version,
            flags: self.flags,
            manifest_signature: self.manifest_signature@,
            adds: delta_adds_view(self.adds@),
            removes: delta_removes_view(self.removes@),
        }
    }
}

impl ManifestDeltaV {
    /// The bytes of a MANIFEST_DELTA body.
    pub open spec fn spec_bytes(self) -> Seq<u8> {
        self.origin_node_id + be32(self.from_version) + be32(self.to_version) + seq![self.flags]
            + self.manifest_signature + be16(self.adds.len() as u16) + section_bytes(
            self.adds,
            delta_add_enc(),
        ) + be16(self.removes.len() as u16) + section_bytes(self.removes, delta_remove_enc())
    }

    pub open spec fn well_formed(self) -> bool {
        &&& self.origin_node_id.len() == 8
        &&& self.manifest_signature.len() == 64
        &&& self.adds.len() <= 0xffff
        &&& self.removes.len() <= 0xffff
        &&& forall|i: int| 0 <= i < self.adds.len() ==> manifest_entry_wf(#[trigger] self.adds[i].entry)
        &&& forall|i: int| 0 <= i < self.removes.len() ==> (#[trigger] self.removes[i]).user_id.len() == 8
    }

    /// What decoding a MANIFEST_DELTA body gives; trailing bytes are an error.
    pub open spec fn spec_decode(s: Seq<u8>) -> Result<ManifestDeltaV, CodecError> {
        match spec_read_bytes(s, 8) {
            Err(e) => Err(e),
            Ok((origin_node_id, r1)) => match spec_read_u32(r1) {
                Err(e) => Err(e),
                Ok((from_version, r2)) => match spec_read_u32(r2) {
                    Err(e) => Err(e),
                    Ok((to_version, r3)) => match spec_read_u8(r3) {
                        Err(e) => Err(e),
                        Ok((flags, r4)) => match spec_read_bytes(r4, 64) {
                            Err(e) => Err(e),
                            Ok((manifest_signature, r5)) => match spec_read_u16(r5) {
                                Err(e) => Err(e),
                                Ok((na, r6)) => match spec_decode_section(r6, na as nat, delta_add_dec()) {
                                    Err(e) => Err(e),
                                    Ok((adds, r7)) => match spec_read_u16(r7) {
                                        Err(e) => Err(e),
                                        Ok((nr, r8)) => match spec_decode_section(
                                            r8,
                                            nr as nat,
                                            delta_remove_dec(),
                                        ) {
                                            Err(e) => Err(e),
                                            Ok((removes, r9)) => if r9.len() != 0 {
                                                Err(CodecError::Malformed)
                                            } else {
                                                Ok(
                                                    ManifestDeltaV {
                                                        origin_node_id,
                                                        from_version,
                                                        to_version,
                                                        flags,
                                                        manifest_signature,
                                                        adds,
                                                        removes,
                                                    },
                                                )
                                            },
                                        },
                                    },
                                },
                            },
                        },
                    },
                },
            },
        }
    }
}

/// Reads a section of `n` adds from the front of `buf`.
fn decode_delta_add_section(buf: &mut &[u8], n: usize) -> (r: Result<Vec<DeltaAdd>, CodecError>)
    ensures
        match (r, spec_decode_section(old(buf)@, n as nat, delta_add_dec())) {
            (Ok(v), Ok((items, rest))) => delta_adds_view(v@) == items && final(buf)@ == rest,
            (Err(e), Err(se)) => e == se,
            _ => false,
        },
{
    let ghost start = buf@;
    let mut out: Vec<DeltaAdd> = Vec::with_capacity(n);
    assert(delta_adds_view(out@) =~= seq![]);
    for i in 0..n
        invariant
            start == old(buf)@,
            spec_decode_section(start, i as nat, delta_add_dec()) == Ok::<
                (Seq<DeltaAddV>, Seq<u8>),
                CodecError,
            >((delta_adds_view(out@), buf@)),
    {
        proof {
            lemma_section_step(start, i as nat, delta_add_dec());
        }
        let ghost before = delta_adds_view(out@);
        let ghost b0 = buf@;
        let record_version = match read_u32_be(buf) {
            Ok(v) => v,
            Err(e) => {
                proof {
                    lemma_section_err_persists(start, (i + 1) as nat, n as nat, delta_add_dec());
                }
                return Err(e);
            },
        };
        let entry = match decode_manifest_entry(buf) {
            Ok(v) => v,
            Err(e) => {
                assert(spec_decode_delta_add(b0) == Err::<(DeltaAddV, Seq<u8>), CodecError>(e));
                proof {
                    lemma_section_err_persists(start, (i + 1) as nat, n as nat, delta_add_dec());
                }
                return Err(e);
            },
        };
        let a = DeltaAdd { record_version, entry };
        out.push(a);
        assert(delta_adds_view(out@) =~= before.push(a@));
    }
    Ok(out)
}

/// Reads a section of `n` removes from the front of `buf`.
fn decode_delta_remove_section(buf: &mut &[u8], n: usize) -> (r: Result<
    Vec<DeltaRemove>,
    CodecError,
>)
    ensures
        match (r, spec_decode_section(old(buf)@, n as nat, delta_remove_dec())) {
            (Ok(v), Ok((items, rest))) => delta_removes_view(v@) == items && final(buf)@ == rest,
            (Err(e), Err(se)) => e == se,
            _ => false,
        },
{
    let ghost start = buf@;
    let mut out: Vec<DeltaRemove> = Vec::with_capacity(n);
    assert(delta_removes_view(out@) =~= seq![]);
    for i in 0..n
        invariant
            start == old(buf)@,
            spec_decode_section(start, i as nat, delta_remove_dec()) == Ok::<
                (Seq<DeltaRemoveV>, Seq<u8>),
                CodecError,
            >((delta_removes_view(out@), buf@)),
    {
        proof {
            lemma_section_step(start, i as nat, delta_remove_dec());
        }
        let ghost before = delta_removes_view(out@);
        let ghost b0 = buf@;
        let user_id = match read_array::<8>(buf) {
            Ok(v) => v,
            Err(e) => {
                proof {
                    lemma_section_err_persists(start, (i + 1) as nat, n as nat, delta_remove_dec());
                }
                return Err(e);
            },
        };
        let record_version = match read_u32_be(buf) {
            Ok(v) => v,
            Err(e) => {
                assert(spec_decode_delta_remove(b0) == Err::<(DeltaRemoveV, Seq<u8>), CodecError>(e));
                proof {
                    lemma_section_err_persists(start, (i + 1) as nat, n as nat, delta_remove_dec());
                }
                return Err(e);
            },
        };
        let r = DeltaRemove { user_id, record_version };
        out.push(r);
        assert(delta_removes_view(out@) =~= before.push(r@));
    }
    Ok(out)
}

impl ManifestDelta {
    /// Appends the body of this MANIFEST_DELTA to `data`.
    pub fn encode(&self, data: &mut Vec<u8>) -> (r: Result<(), CodecError>)
        ensures
            r is Ok,
            final(data)@ == old(data)@ + self@.spec_bytes(),
    {
        let ghost v = self@;
        push_bytes(data, &self.origin_node_id);
        push_u32_be(data, self.from_version);
        push_u32_be(data, self.to_version);
        data.push(self.flags);
        push_bytes(data, &self.manifest_signature);
        push_u16_be(data, self.adds.len() as u16);
        let ghost mid = data@;
        let n = self.adds.len();
        for k in 0..n
            invariant
                n == self.adds@.len(),
                data@ == mid + section_bytes(delta_adds_view(self.adds@.take(k as int)), delta_add_enc()),
        {
            let a = self.adds[k];
            let ghost before = delta_adds_view(self.adds@.take(k as int));
            push_u32_be(data, a.record_version);
            a.entry.encode(data);
            let ghost now = delta_adds_view(self.adds@.take(k + 1));
            assert(now.drop_last() =~= before);
            assert(now.last() == a@);
            assert(data@ =~= mid + section_bytes(now, delta_add_enc()));
        }
        assert(self.adds@.take(n as int) =~= self.adds@);
        push_u16_be(data, self.removes.len() as u16);
        let ghost mid2 = data@;
        let m = self.removes.len();
        for k in 0..m
            invariant
                m == self.removes@.len(),
                data@ == mid2 + section_bytes(
                    delta_removes_view(self.removes@.take(k as int)),
                    delta_remove_enc(),
                ),
        {
            let r = self.removes[k];
            let ghost before = delta_removes_view(self.removes@.take(k as int));
            push_bytes(data, &r.user_id);
            push_u32_be(data, r.record_version);
            let ghost now = delta_removes_view(self.removes@.take(k + 1));
            assert(now.drop_last() =~= before);
            assert(now.last() == r@);
            assert(data@ =~= mid2 + section_bytes(now, delta_remove_enc()));
        }
        assert(self.removes@.take(m as int) =~= self.removes@);
        assert(final(data)@ =~= old(data)@ + v.spec_bytes());
        Ok(())
    }

    /// Decodes a MANIFEST_DELTA body; the whole input must be consumed.
    pub fn decode(msg: &[u8]) -> (r: Result<ManifestDelta, CodecError>)
        ensures
            match (r, ManifestDeltaV::spec_decode(msg@)) {
                (Ok(m), Ok(sm)) => m@ == sm,
                (Err(e), Err(se)) => e == se,
                _ => false,
            },
    {
        let mut buf = msg;
        let origin_node_id = read_array::<8>(&mut buf)?;
        let from_version = read_u32_be(&mut buf)?;
        let to_version = read_u32_be(&mut buf)?;
        let flags = read_u8(&mut buf)?;
        let manifest_signature = read_array::<64>(&mut buf)?;
        let n_adds = read_u16_be(&mut buf)?;
        let adds = decode_delta_add_section(&mut buf, n_adds as usize)?;
        let n_removes = read_u16_be(&mut buf)?;
        let removes = decode_delta_remove_section(&mut buf, n_removes as usize)?;
        if buf.len() != 0 {
            return Err(CodecError::Malformed);
        }
        Ok(
            ManifestDelta {
                origin_node_id,
                from_version,
                to_version,
                flags,
                manifest_signature,
                adds,
                removes,
            },
        )
    }
}

/// A well-formed MANIFEST_DELTA decodes from its own bytes to itself.
#[verifier::rlimit(40)]
pub proof fn lemma_manifest_delta_round_trip(v: ManifestDeltaV)
    requires
        v.well_formed(),
    ensures
        ManifestDeltaV::spec_decode(v.spec_bytes()) == Ok::<ManifestDeltaV, CodecError>(v),
{
    let b9 = Seq::<u8>::empty();
    let b8 = section_bytes(v.removes, delta_remove_enc()) + b9;
    let b7 = be16(v.removes.len() as u16) + b8;
    let b6 = section_bytes(v.adds, delta_add_enc()) + b7;
    let b5 = be16(v.adds.len() as u16) + b6;
    let b4 = v.manifest_signature + b5;
    let b3 = seq![v.flags] + b4;
    let b2 = be32(v.to_version) + b3;
    let b1 = be32(v.from_version) + b2;
    let b0 = v.origin_node_id + b1;
    assert(v.spec_bytes() =~= b0);
    assert(b0.take(8) =~= v.origin_node_id);
    assert(b0.skip(8) =~= b1);
    lemma_be32_round_trip(v.from_version);
    assert(b1.skip(4) =~= b2);
    assert(spec_read_u32(b1) == Ok::<(u32, Seq<u8>), CodecError>((v.from_version, b2)));
    lemma_be32_round_trip(v.to_version);
    assert(b2.skip(4) =~= b3);
    assert(spec_read_u32(b2) == Ok::<(u32, Seq<u8>), CodecError>((v.to_version, b3)));
    assert(b3.skip(1) =~= b4);
    assert(b4.take(64) =~= v.manifest_signature);
    assert(b4.skip(64) =~= b5);
    lemma_be16_round_trip(v.adds.len() as u16);
    assert(b5.skip(2) =~= b6);
    assert(spec_read_u16(b5) == Ok::<(u16, Seq<u8>), CodecError>((v.adds.len() as u16, b6)));
    lemma_delta_adds_round_trip(v.adds, b7);
    lemma_be16_round_trip(v.removes.len() as u16);
    assert(b7.skip(2) =~= b8);
    assert(spec_read_u16(b7) == Ok::<(u16, Seq<u8>), CodecError>((v.removes.len() as u16, b8)));
    lemma_delta_removes_round_trip(v.removes, b9);
}


/// Reading a delta add from the first `k` bytes: the same add, or an
/// error.
proof fn lemma_decode_delta_add_prefix(s: Seq<u8>, k: nat)
    requires
        k <= s.len(),
    ensures
        prefix_result(spec_decode_delta_add(s), s.len(), k, spec_decode_delta_add(s.take(k as int))),
{
    lemma_read_u32_prefix(s, k);
    lemma_read_u32_prefix(s, 0);
    match spec_read_u32(s) {
        Err(_) => {},
        Ok((_, r1)) => {
            let c1 = (s.len() - r1.len()) as nat;
            let k1: nat = if k >= c1 { (k - c1) as nat } else { 0 };
            lemma_decode_manifest_entry_prefix(r1, k1);
            match spec_decode_manifest_entry(r1) {
                Err(_) => {},
                Ok((_, r2)) => {
                    if k >= c1 && k1 >= (r1.len() - r2.len()) {
                        assert(k1 - (r1.len() - r2.len()) == k - (s.len() - r2.len()));
                    }
                },
            }
        },
    }
}

/// Reading a delta remove from the first `k` bytes: the same remove, or
/// an error.
proof fn lemma_decode_delta_remove_prefix(s: Seq<u8>, k: nat)
    requires
        k <= s.len(),
    ensures
        prefix_result(spec_decode_delta_remove(s), s.len(), k, spec_decode_delta_remove(s.take(k as int))),
{
    lemma_read_bytes_prefix(s, 8, k);
    lemma_read_bytes_prefix(s, 8, 0);
    match spec_read_bytes(s, 8) {
        Err(_) => {},
        Ok((_, r1)) => {
            let c1 = (s.len() - r1.len()) as nat;
            let k1: nat = if k >= c1 { (k - c1) as nat } else { 0 };
            lemma_read_u32_prefix(r1, k1);
            match spec_read_u32(r1) {
                Err(_) => {},
                Ok((_, r2)) => {
                    if k >= c1 && k1 >= (r1.len() - r2.len()) {
                        assert(k1 - (r1.len() - r2.len()) == k - (s.len() - r2.len()));
                    }
                },
            }
        },
    }
}

/// Bytes after a well-formed MANIFEST_DELTA body make it `Malformed`.
#[verifier::rlimit(30)]
pub proof fn lemma_manifest_delta_trailing_bytes(v: ManifestDeltaV, junk: Seq<u8>)
    requires
        v.well_formed(),
        junk.len() > 0,
    ensures
        ManifestDeltaV::spec_decode(v.spec_bytes() + junk) == Err::<ManifestDeltaV, CodecError>(
            CodecError::Malformed,
        ),
{
    let b9 = junk;
    let b8 = section_bytes(v.removes, delta_remove_enc()) + b9;
    let b7 = be16(v.removes.len() as u16) + b8;
    let b6 = section_bytes(v.adds, delta_add_enc()) + b7;
    let b5 = be16(v.adds.len() as u16) + b6;
    let b4 = v.manifest_signature + b5;
    let b3 = seq![v.flags] + b4;
    let b2 = be32(v.to_version) + b3;
    let b1 = be32(v.from_version) + b2;
    let b0 = v.origin_node_id + b1;
    assert(v.spec_bytes() + junk =~= b0);
    assert(b0.take(8) =~= v.origin_node_id);
    assert(b0.skip(8) =~= b1);
    lemma_be32_round_trip(v.from_version);
    assert(b1.skip(4) =~= b2);
    assert(spec_read_u32(b1) == Ok::<(u32, Seq<u8>), CodecError>((v.from_version, b2)));
    lemma_be32_round_trip(v.to_version);
    assert(b2.skip(4) =~= b3);
    assert(spec_read_u32(b2) == Ok::<(u32, Seq<u8>), CodecError>((v.to_version, b3)));
    assert(b3.skip(1) =~= b4);
    assert(b4.take(64) =~= v.manifest_signature);
    assert(b4.skip(64) =~= b5);
    lemma_be16_round_trip(v.adds.len() as u16);
    assert(b5.skip(2) =~= b6);
    assert(spec_read_u16(b5) == Ok::<(u16, Seq<u8>), CodecError>((v.adds.len() as u16, b6)));
    lemma_delta_adds_round_trip(v.adds, b7);
    lemma_be16_round_trip(v.removes.len() as u16);
    assert(b7.skip(2) =~= b8);
    assert(spec_read_u16(b7) == Ok::<(u16, Seq<u8>), CodecError>((v.removes.len() as u16, b8)));
    lemma_delta_removes_round_trip(v.removes, b9);
}

/// Every strict prefix of a well-formed MANIFEST_DELTA body fails to
/// decode.
#[verifier::spinoff_prover]
#[verifier::rlimit(40)]
pub proof fn lemma_manifest_delta_prefix_rejected(v: ManifestDeltaV, k: nat)
    requires
        v.well_formed(),
        k < v.spec_bytes().len(),
    ensures
        ManifestDeltaV::spec_decode(v.spec_bytes().take(k as int)) is Err,
{
    let s = v.spec_bytes();
    lemma_manifest_delta_round_trip(v);
    assert forall|s2: Seq<u8>, before: Seq<DeltaAddV>, k2: nat| k2 <= s2.len() implies prefix_result(
        #[trigger] delta_add_dec()(s2, before),
        s2.len(),
        k2,
        #[trigger] delta_add_dec()(s2.take(k2 as int), before),
    ) by {
        lemma_decode_delta_add_prefix(s2, k2);
    }
    assert forall|s2: Seq<u8>, before: Seq<DeltaRemoveV>, k2: nat| k2 <= s2.len() implies prefix_result(
        #[trigger] delta_remove_dec()(s2, before),
        s2.len(),
        k2,
        #[trigger] delta_remove_dec()(s2.take(k2 as int), before),
    ) by {
        lemma_decode_delta_remove_prefix(s2, k2);
    }
    lemma_read_bytes_prefix(s, 8, k);
    let (_, r1) = spec_read_bytes(s, 8)->Ok_0;
    let k1: nat = if k >= s.len() - r1.len() { (k - (s.len() - r1.len())) as nat } else { 0 };
    lemma_read_u32_prefix(r1, k1);
    let (_, r2) = spec_read_u32(r1)->Ok_0;
    let k2: nat = if k1 >= r1.len() - r2.len() { (k1 - (r1.len() - r2.len())) as nat } else { 0 };
    lemma_read_u32_prefix(r2, k2);
    let (_, r3) = spec_read_u32(r2)->Ok_0;
    let k3: nat = if k2 >= r2.len() - r3.len() { (k2 - (r2.len() - r3.len())) as nat } else { 0 };
    lemma_read_u8_prefix(r3, k3);
    let (_, r4) = spec_read_u8(r3)->Ok_0;
    let k4: nat = if k3 >= r3.len() - r4.len() { (k3 - (r3.len() - r4.len())) as nat } else { 0 };
    lemma_read_bytes_prefix(r4, 64, k4);
    let (_, r5) = spec_read_bytes(r4, 64)->Ok_0;
    let k5: nat = if k4 >= r4.len() - r5.len() { (k4 - (r4.len() - r5.len())) as nat } else { 0 };
    lemma_read_u16_prefix(r5, k5);
    let (na, r6) = spec_read_u16(r5)->Ok_0;
    let k6: nat = if k5 >= r5.len() - r6.len() { (k5 - (r5.len() - r6.len())) as nat } else { 0 };
    lemma_section_prefix(r6, na as nat, k6, delta_add_dec());
    let (_, r7) = spec_decode_section(r6, na as nat, delta_add_dec())->Ok_0;
    let k7: nat = if k6 >= r6.len() - r7.len() { (k6 - (r6.len() - r7.len())) as nat } else { 0 };
    lemma_read_u16_prefix(r7, k7);
    let (nr, r8) = spec_read_u16(r7)->Ok_0;
    let k8: nat = if k7 >= r7.len() - r8.len() { (k7 - (r7.len() - r8.len())) as nat } else { 0 };
    lemma_section_prefix(r8, nr as nat, k8, delta_remove_dec());
}

// ---------- MANIFEST_REQUEST ----------

/// One origin a MANIFEST_REQUEST asks about, with the version the
/// requester already holds.
#[derive(Debug, Clone, Copy)]
pub struct ManifestRequestItem {
    pub origin_node_id: [u8; 8],
    pub have_version: u32,
    /// bit 0 is `have_none`: the requester holds nothing for this origin
    pub item_flags: u8,
}

impl ManifestRequestItem {
    pub open spec fn spec_have_none(self) -> bool {
        self.item_flags & 0x01u8 != 0
    }

    /// Whether the requester holds no manifest for this origin at all.
    pub fn have_none(&self) -> (r: bool)
        ensures
            r == self.spec_have_none(),
    {
        self.item_flags & 0x01u8 != 0
    }
}

/// A batched MANIFEST_REQUEST to one neighbour.
#[derive(Debug)]
pub struct ManifestRequest {
    pub items: Vec<ManifestRequestItem>,
}

pub struct ManifestRequestItemV {
    pub origin_node_id: Seq<u8>,
    pub have_version: u32,
    pub item_flags: u8,
}

impl View for ManifestRequestItem {
    type V = ManifestRequestItemV;

    open spec fn view(&self) -> ManifestRequestItemV {
        ManifestRequestItemV {
            origin_node_id: self.origin_node_id@,
            have_version: self.have_version,
            item_flags: self.item_flags,
        }
    }
}

pub open spec fn request_items_view(v: Seq<ManifestRequestItem>) -> Seq<ManifestRequestItemV> {
    v.map_values(|i: ManifestRequestItem| i@)
}

/// The 13 bytes of a request item.
pub open spec fn request_item_bytes(i: ManifestRequestItemV) -> Seq<u8> {
    i.origin_node_id + be32(i.have_version) + seq![i.item_flags]
}

pub open spec fn spec_decode_request_item(s: Seq<u8>) -> Result<(ManifestRequestItemV, Seq<u8>), CodecError> {
    match spec_read_bytes(s, 8) {
        Err(e) => Err(e),
        Ok((origin_node_id, r1)) => match spec_read_u32(r1) {
            Err(e) => Err(e),
            Ok((have_version, r2)) => match spec_read_u8(r2) {
                Err(e) => Err(e),
                Ok((item_flags, r3)) => Ok(
                    (ManifestRequestItemV { origin_node_id, have_version, item_flags }, r3),
                ),
            },
        },
    }
}

pub open spec fn request_item_enc() -> spec_fn(ManifestRequestItemV, Seq<ManifestRequestItemV>) -> Seq<u8> {
    |i: ManifestRequestItemV, before: Seq<ManifestRequestItemV>| request_item_bytes(i)
}

pub open spec fn request_item_dec() -> spec_fn(Seq<u8>, Seq<ManifestRequestItemV>) -> Result<
    (ManifestRequestItemV, Seq<u8>),
    CodecError,
> {
    |s: Seq<u8>, before: Seq<ManifestRequestItemV>| spec_decode_request_item(s)
}

impl ManifestRequest {
    /// The bytes of a MANIFEST_REQUEST body: a one-byte item count, then
    /// the items.
    pub open spec fn spec_bytes(items: Seq<ManifestRequestItemV>) -> Seq<u8> {
        seq![items.len() as u8] + section_bytes(items, request_item_enc())
    }

    /// What decoding a MANIFEST_REQUEST body gives; trailing bytes are an
    /// error.
    pub open spec fn spec_decode(s: Seq<u8>) -> Result<Seq<ManifestRequestItemV>, CodecError> {
        match spec_read_u8(s) {
            Err(e) => Err(e),
            Ok((n, r1)) => match spec_decode_section(r1, n as nat, request_item_dec()) {
                Err(e) => Err(e),
                Ok((items, r2)) => if r2.len() != 0 {
                    Err(CodecError::Malformed)
                } else {
                    Ok(items)
                },
            },
        }
    }

    /// Appends the body of this MANIFEST_REQUEST to `res`.
    pub fn encode(&self, res: &mut Vec<u8>) -> (r: Result<(), CodecError>)
        ensures
            r is Ok,
            final(res)@ == old(res)@ + ManifestRequest::spec_bytes(request_items_view(self.items@)),
    {
        res.push(self.items.len() as u8);
        let ghost mid = res@;
        let n = self.items.len();
        for k in 0..n
            invariant
                n == self.items@.len(),
                res@ == mid + section_bytes(request_items_view(self.items@.take(k as int)), request_item_enc()),
        {
            let it = self.items[k];
            let ghost before = request_items_view(self.items@.take(k as int));
            push_bytes(res, &it.origin_node_id);
            push_u32_be(res, it.have_version);
            res.push(it.item_flags);
            let ghost now = request_items_view(self.items@.take(k + 1));
            assert(now.drop_last() =~= before);
            assert(now.last() == it@);
            assert(res@ =~= mid + section_bytes(now, request_item_enc()));
        }
        assert(self.items@.take(n as int) =~= self.items@);
        assert(final(res)@ =~= old(res)@ + ManifestRequest::spec_bytes(request_items_view(self.items@)));
        Ok(())
    }

    /// Decodes a MANIFEST_REQUEST body; the whole input must be consumed.
    pub fn decode(msg: &[u8]) -> (r: Result<ManifestRequest, CodecError>)
        ensures
            match (r, ManifestRequest::spec_decode(msg@)) {
                (Ok(m), Ok(items)) => request_items_view(m.items@) == items,
                (Err(e), Err(se)) => e == se,
                _ => false,
            },
    {
        let mut buf = msg;
        let n = read_u8(&mut buf)?;
        let ghost start = buf@;
        let mut items: Vec<ManifestRequestItem> = Vec::with_capacity(n as usize);
        assert(request_items_view(items@) =~= seq![]);
        for i in 0..n as usize
            invariant
                spec_read_u8(msg@) == Ok::<(u8, Seq<u8>), CodecError>((n, start)),
                spec_decode_section(start, i as nat, request_item_dec()) == Ok::<
                    (Seq<ManifestRequestItemV>, Seq<u8>),
                    CodecError,
                >((request_items_view(items@), buf@)),
        {
            proof {
                lemma_section_step(start, i as nat, request_item_dec());
            }
            let ghost before = request_items_view(items@);
            let ghost b0 = buf@;
            let origin_node_id = match read_array::<8>(&mut buf) {
                Ok(v) => v,
                Err(e) => {
                    proof {
                        lemma_section_err_persists(start, (i + 1) as nat, n as nat, request_item_dec());
                    }
                    return Err(e);
                },
            };
            let have_version = match read_u32_be(&mut buf) {
                Ok(v) => v,
                Err(e) => {
                    assert(spec_decode_request_item(b0) == Err::<(ManifestRequestItemV, Seq<u8>), CodecError>(e));
                    proof {
                        lemma_section_err_persists(start, (i + 1) as nat, n as nat, request_item_dec());
                    }
                    return Err(e);
                },
            };
            let item_flags = match read_u8(&mut buf) {
                Ok(v) => v,
                Err(e) => {
                    assert(spec_decode_request_item(b0) == Err::<(ManifestRequestItemV, Seq<u8>), CodecError>(e));
                    proof {
                        lemma_section_err_persists(start, (i + 1) as nat, n as nat, request_item_dec());
                    }
                    return Err(e);
                },
            };
            let it = ManifestRequestItem { origin_node_id, have_version, item_flags };
            items.push(it);
            assert(request_items_view(items@) =~= before.push(it@));
        }
        if buf.len() != 0 {
            return Err(CodecError::Malformed);
        }
        Ok(ManifestRequest { items })
    }
}

/// At most 255 well-formed request items decode from their own bytes to
/// themselves.
pub proof fn lemma_manifest_request_round_trip(items: Seq<ManifestRequestItemV>)
    requires
        items.len() <= 0xff,
        forall|i: int| 0 <= i < items.len() ==> (#[trigger] items[i]).origin_node_id.len() == 8,
    ensures
        ManifestRequest::spec_decode(ManifestRequest::spec_bytes(items)) == Ok::<
            Seq<ManifestRequestItemV>,
            CodecError,
        >(items),
{
    let wf = |i: ManifestRequestItemV| i.origin_node_id.len() == 8;
    assert forall|x: ManifestRequestItemV, before: Seq<ManifestRequestItemV>, r: Seq<u8>| wf(x) implies #[trigger] request_item_dec()(
        request_item_enc()(x, before) + r,
        before,
    ) == Ok::<(ManifestRequestItemV, Seq<u8>), CodecError>((x, r)) by {
        let r2 = seq![x.item_flags] + r;
        let r1 = be32(x.have_version) + r2;
        let s = x.origin_node_id + r1;
        assert(request_item_bytes(x) + r =~= s);
        assert(s.take(8) =~= x.origin_node_id);
        assert(s.skip(8) =~= r1);
        lemma_be32_round_trip(x.have_version);
        assert(r1.skip(4) =~= r2);
        assert(spec_read_u32(r1) == Ok::<(u32, Seq<u8>), CodecError>((x.have_version, r2)));
        assert(r2.skip(1) =~= r);
    }
    assert forall|i: int| 0 <= i < items.len() implies wf(#[trigger] items[i]) by {}
    let body = section_bytes(items, request_item_enc());
    lemma_section_round_trip(items, Seq::<u8>::empty(), request_item_enc(), request_item_dec(), wf);
    assert(body + Seq::<u8>::empty() =~= body);
    let s = ManifestRequest::spec_bytes(items);
    assert(s.skip(1) =~= body);
}


/// Reading a request item from the first `k` bytes: the same item, or an
/// error.
proof fn lemma_decode_request_item_prefix(s: Seq<u8>, k: nat)
    requires
        k <= s.len(),
    ensures
        prefix_result(spec_decode_request_item(s), s.len(), k, spec_decode_request_item(s.take(k as int))),
{
    lemma_read_bytes_prefix(s, 8, k);
    lemma_read_bytes_prefix(s, 8, 0);
    match spec_read_bytes(s, 8) {
        Err(_) => {},
        Ok((_, r1)) => {
            let c1 = (s.len() - r1.len()) as nat;
            let k1: nat = if k >= c1 { (k - c1) as nat } else { 0 };
            lemma_read_u32_prefix(r1, k1);
            match spec_read_u32(r1) {
                Err(_) => {},
                Ok((_, r2)) => {
                    let c2 = (r1.len() - r2.len()) as nat;
                    let k2: nat = if k1 >= c2 { (k1 - c2) as nat } else { 0 };
                    lemma_read_u8_prefix(r2, k2);
                    match spec_read_u8(r2) {
                        Err(_) => {},
                        Ok((_, r3)) => {
                            if k >= c1 && k1 >= c2 && k2 >= (r2.len() - r3.len()) {
                                assert(k2 - (r2.len() - r3.len()) == k - (s.len() - r3.len()));
                            }
                        },
                    }
                },
            }
        },
    }
}

/// Every strict prefix of a well-formed MANIFEST_REQUEST body fails to
/// decode, and bytes after one make it `Malformed`.
pub proof fn lemma_manifest_request_prefix_and_trailing(items: Seq<ManifestRequestItemV>, k: nat, junk: Seq<u8>)
    requires
        items.len() <= 0xff,
        forall|i: int| 0 <= i < items.len() ==> (#[trigger] items[i]).origin_node_id.len() == 8,
    ensures
        k < ManifestRequest::spec_bytes(items).len() ==> ManifestRequest::spec_decode(
            ManifestRequest::spec_bytes(items).take(k as int),
        ) is Err,
        junk.len() > 0 ==> ManifestRequest::spec_decode(ManifestRequest::spec_bytes(items) + junk) == Err::<
            Seq<ManifestRequestItemV>,
            CodecError,
        >(CodecError::Malformed),
{
    let s = ManifestRequest::spec_bytes(items);
    lemma_manifest_request_round_trip(items);
    if k < s.len() {
        assert forall|s2: Seq<u8>, before: Seq<ManifestRequestItemV>, k2: nat| k2 <= s2.len() implies prefix_result(
            #[trigger] request_item_dec()(s2, before),
            s2.len(),
            k2,
            #[trigger] request_item_dec()(s2.take(k2 as int), before),
        ) by {
            lemma_decode_request_item_prefix(s2, k2);
        }
        lemma_read_u8_prefix(s, k);
        let (n, r1) = spec_read_u8(s)->Ok_0;
        let k1: nat = if k >= s.len() - r1.len() { (k - (s.len() - r1.len())) as nat } else { 0 };
        lemma_section_prefix(r1, n as nat, k1, request_item_dec());
    }
    if junk.len() > 0 {
        let wf = |i: ManifestRequestItemV| i.origin_node_id.len() == 8;
        assert forall|x: ManifestRequestItemV, before: Seq<ManifestRequestItemV>, r: Seq<u8>| wf(x) implies #[trigger] request_item_dec()(
            request_item_enc()(x, before) + r,
            before,
        ) == Ok::<(ManifestRequestItemV, Seq<u8>), CodecError>((x, r)) by {
            let r2 = seq![x.item_flags] + r;
            let r1 = be32(x.have_version) + r2;
            let s1 = x.origin_node_id + r1;
            assert(request_item_bytes(x) + r =~= s1);
            assert(s1.take(8) =~= x.origin_node_id);
            assert(s1.skip(8) =~= r1);
            lemma_be32_round_trip(x.have_version);
            assert(r1.skip(4) =~= r2);
            assert(spec_read_u32(r1) == Ok::<(u32, Seq<u8>), CodecError>((x.have_version, r2)));
            assert(r2.skip(1) =~= r);
        }
        assert forall|i: int| 0 <= i < items.len() implies wf(#[trigger] items[i]) by {}
        let body = section_bytes(items, request_item_enc());
        lemma_section_round_trip(items, junk, request_item_enc(), request_item_dec(), wf);
        let full = s + junk;
        assert(full =~= seq![items.len() as u8] + (body + junk));
        assert(full.skip(1) =~= body + junk);
    }
}

} // verus!
