//! The binary interchange format for whole replicas.
//!
//! A replica is encoded as a payload of varints and boolean bytes — run
//! tree, Lamport clock, version map, deletion map, backlog, in that order —
//! wrapped in an envelope carrying the protocol version and a SHA-256
//! checksum of the payload. Decoding validates everything it reads, so an
//! `Ok` result is always a well-formed replica.

use sha2::Digest;
use sha2::Sha256;
use vstd::prelude::*;

use crate::codec::{read_bool, read_u64, varint_spec, write_bool, write_u64};
use crate::run_tree::{run_chars, total_chars, EditRun};
use crate::{
    Backlog, BaseMap, Deletion, IdEntry, InnerAnchor, Insertion, ProtocolVersion, Replica,
    ReplicaId, RunClock, RunTree, Text,
};

verus! {

/// The version of the interchange format this crate writes and reads.
pub const PROTOCOL_VERSION: ProtocolVersion = 1;

/// The bytes of an encoded inner anchor.
pub open spec fn enc_anchor(a: InnerAnchor) -> Seq<u8> {
    varint_spec(a.replica_id) + varint_spec(a.contained_in) + varint_spec(a.offset)
}

/// The bytes of an encoded run fragment.
pub open spec fn enc_run(r: EditRun) -> Seq<u8> {
    varint_spec(r.inserter) + varint_spec(r.lo) + varint_spec(r.hi) + varint_spec(r.run_ts)
        + varint_spec(r.lamport_ts) + enc_anchor(r.parent) + seq![
        if r.visible {
            1u8
        } else {
            0u8
        },
    ]
}

/// The bytes of a sequence of encoded run fragments.
pub open spec fn enc_runs(s: Seq<EditRun>) -> Seq<u8>
    decreases s.len(),
{
    if s.len() == 0 {
        Seq::empty()
    } else {
        enc_runs(s.drop_last()) + enc_run(s.last())
    }
}

/// The bytes of an encoded run tree: the fragment count, then the
/// fragments in document order.
pub open spec fn enc_tree(t: RunTree) -> Seq<u8> {
    varint_spec(t.runs@.len() as u64) + enc_runs(t.runs@)
}

/// The bytes of a sequence of encoded map entries.
pub open spec fn enc_entries(s: Seq<IdEntry>) -> Seq<u8>
    decreases s.len(),
{
    if s.len() == 0 {
        Seq::empty()
    } else {
        enc_entries(s.drop_last()) + varint_spec(s.last().id) + varint_spec(s.last().value)
    }
}

/// The bytes of an encoded id map: the entry count, then the entries.
pub open spec fn enc_map(m: BaseMap) -> Seq<u8> {
    varint_spec(m.entries@.len() as u64) + enc_entries(m.entries@)
}

/// The bytes of an encoded insertion.
pub open spec fn enc_insertion(i: Insertion) -> Seq<u8> {
    enc_anchor(i.anchor) + varint_spec(i.text.inserter) + varint_spec(i.text.start) + varint_spec(
        i.text.end,
    ) + varint_spec(i.lamport_ts) + varint_spec(i.run_ts)
}

pub open spec fn enc_insertions(s: Seq<Insertion>) -> Seq<u8>
    decreases s.len(),
{
    if s.len() == 0 {
        Seq::empty()
    } else {
        enc_insertions(s.drop_last()) + enc_insertion(s.last())
    }
}

/// The bytes of an encoded deletion.
pub open spec fn enc_deletion(d: Deletion) -> Seq<u8> {
    enc_anchor(d.start) + enc_anchor(d.end) + enc_map(d.version_map) + varint_spec(d.deleted_by)
        + varint_spec(d.deletion_ts)
}

pub open spec fn enc_deletions(s: Seq<Deletion>) -> Seq<u8>
    decreases s.len(),
{
    if s.len() == 0 {
        Seq::empty()
    } else {
        enc_deletions(s.drop_last()) + enc_deletion(s.last())
    }
}

/// The bytes of an encoded backlog.
pub open spec fn enc_backlog(b: Backlog) -> Seq<u8> {
    varint_spec(b.insertions@.len() as u64) + enc_insertions(b.insertions@) + varint_spec(
        b.deletions@.len() as u64,
    ) + enc_deletions(b.deletions@)
}

/// The payload bytes of an encoded replica: run tree, Lamport clock,
/// version map, deletion map, backlog, in that order.
pub open spec fn enc_payload(r: Replica) -> Seq<u8> {
    enc_tree(r.run_tree) + varint_spec(r.lamport_clock.0) + enc_map(r.version_map) + enc_map(
        r.deletion_map,
    ) + enc_backlog(r.backlog)
}

/// Whether `content` stands in `buf` at position `pos`.
pub open spec fn holds_at(buf: Seq<u8>, pos: int, content: Seq<u8>) -> bool {
    &&& 0 <= pos
    &&& pos + content.len() <= buf.len()
    &&& buf.subrange(pos, pos + content.len() as int) == content
}

/// A prefix of what stands in a buffer stands there too, and the rest
/// stands right after it.
proof fn lemma_holds_split(s: Seq<u8>, pos: int, c1: Seq<u8>, c2: Seq<u8>)
    requires
        holds_at(s, pos, c1 + c2),
    ensures
        holds_at(s, pos, c1),
        holds_at(s, pos + c1.len() as int, c2),
{
    let whole = c1 + c2;
    assert forall|i: int| 0 <= i < c1.len() implies s.subrange(pos, pos + c1.len() as int)[i]
        == c1[i] by {
        assert(s[pos + i] == whole[i]);
    }
    assert(s.subrange(pos, pos + c1.len() as int) =~= c1);
    assert forall|i: int| 0 <= i < c2.len() implies s.subrange(
        pos + c1.len() as int,
        pos + c1.len() + c2.len() as int,
    )[i] == c2[i] by {
        assert(s[pos + c1.len() + i] == whole[c1.len() + i]);
    }
    assert(s.subrange(pos + c1.len() as int, pos + c1.len() + c2.len() as int) =~= c2);
}

/// Where a buffer holds the encoding of `x`, the varint parser returns
/// exactly `x`.
proof fn lemma_varint_at(s: Seq<u8>, pos: int, x: u64)
    requires
        holds_at(s, pos, crate::codec::varint_spec(x)),
    ensures
        crate::codec::parse_varint(s, pos) == Some(
            (x, pos + crate::codec::varint_spec(x).len() as int),
        ),
{
    crate::codec::lemma_varint_len10(x);
    crate::codec::lemma_varint_parse_at(s, pos, x, 10);
}

/// Parses a boolean byte.
pub open spec fn sp_bool(s: Seq<u8>, pos: int) -> Option<(bool, int)> {
    if 0 <= pos < s.len() {
        if s[pos] == 0 {
            Some((false, pos + 1))
        } else if s[pos] == 1 {
            Some((true, pos + 1))
        } else {
            None
        }
    } else {
        None
    }
}

/// Parses an inner anchor: three varints, validated.
pub open spec fn sp_anchor(s: Seq<u8>, pos: int) -> Option<(InnerAnchor, int)> {
    match crate::codec::parse_varint(s, pos) {
        None => None,
        Some((replica_id, p1)) => match crate::codec::parse_varint(s, p1) {
            None => None,
            Some((run_ts, p2)) => match crate::codec::parse_varint(s, p2) {
                None => None,
                Some((offset, p3)) => {
                    let a = InnerAnchor { replica_id, contained_in: run_ts, offset };
                    if a.wf() {
                        Some((a, p3))
                    } else {
                        None
                    }
                },
            },
        },
    }
}

/// Parses one run fragment, validated.
pub open spec fn sp_run(s: Seq<u8>, pos: int) -> Option<(EditRun, int)> {
    match crate::codec::parse_varint(s, pos) {
        None => None,
        Some((inserter, p1)) => match crate::codec::parse_varint(s, p1) {
            None => None,
            Some((lo, p2)) => match crate::codec::parse_varint(s, p2) {
                None => None,
                Some((hi, p3)) => match crate::codec::parse_varint(s, p3) {
                    None => None,
                    Some((run_ts, p4)) => match crate::codec::parse_varint(s, p4) {
                        None => None,
                        Some((lamport_ts, p5)) => match sp_anchor(s, p5) {
                            None => None,
                            Some((parent, p6)) => match sp_bool(s, p6) {
                                None => None,
                                Some((visible, p7)) => {
                                    if inserter == 0 || lo > hi {
                                        None
                                    } else {
                                        Some(
                                            (
                                                EditRun {
                                                    inserter,
                                                    lo,
                                                    hi,
                                                    run_ts,
                                                    lamport_ts,
                                                    parent,
                                                    visible,
                                                },
                                                p7,
                                            ),
                                        )
                                    }
                                },
                            },
                        },
                    },
                },
            },
        },
    }
}

/// Parses `count` run fragments onto `acc`, keeping the running character
/// total within `u64`.
pub open spec fn sp_tree_items(s: Seq<u8>, pos: int, count: u64, acc: Seq<EditRun>, total: u64) -> Option<
    (Seq<EditRun>, int),
>
    decreases count,
{
    if count == 0 {
        Some((acc, pos))
    } else {
        match sp_run(s, pos) {
            None => None,
            Some((run, p)) => {
                if run.hi - run.lo > u64::MAX - total {
                    None
                } else {
                    sp_tree_items(
                        s,
                        p,
                        (count - 1) as u64,
                        acc.push(run),
                        (total + (run.hi - run.lo)) as u64,
                    )
                }
            },
        }
    }
}

/// Parses a whole run tree.
pub open spec fn sp_tree(s: Seq<u8>, pos: int) -> Option<(Seq<EditRun>, int)> {
    match crate::codec::parse_varint(s, pos) {
        None => None,
        Some((count, p)) => sp_tree_items(s, p, count, Seq::empty(), 0),
    }
}

/// Parses `count` map entries onto `acc`, rejecting duplicate ids.
pub open spec fn sp_map_items(s: Seq<u8>, pos: int, count: u64, acc: Seq<IdEntry>) -> Option<
    (Seq<IdEntry>, int),
>
    decreases count,
{
    if count == 0 {
        Some((acc, pos))
    } else {
        match crate::codec::parse_varint(s, pos) {
            None => None,
            Some((id, p1)) => match crate::codec::parse_varint(s, p1) {
                None => None,
                Some((value, p2)) => {
                    if crate::idmap::entries_has_id(acc, id) {
                        None
                    } else {
                        sp_map_items(s, p2, (count - 1) as u64, acc.push(IdEntry { id, value }))
                    }
                },
            },
        }
    }
}

/// Parses a whole id map.
pub open spec fn sp_map(s: Seq<u8>, pos: int) -> Option<(Seq<IdEntry>, int)> {
    match crate::codec::parse_varint(s, pos) {
        None => None,
        Some((count, p)) => sp_map_items(s, p, count, Seq::empty()),
    }
}

/// Parses one insertion, validated.
pub open spec fn sp_insertion(s: Seq<u8>, pos: int) -> Option<(Insertion, int)> {
    match sp_anchor(s, pos) {
        None => None,
        Some((anchor, p1)) => match crate::codec::parse_varint(s, p1) {
            None => None,
            Some((inserter, p2)) => match crate::codec::parse_varint(s, p2) {
                None => None,
                Some((start, p3)) => match crate::codec::parse_varint(s, p3) {
                    None => None,
                    Some((end, p4)) => match crate::codec::parse_varint(s, p4) {
                        None => None,
                        Some((lamport_ts, p5)) => match crate::codec::parse_varint(s, p5) {
                            None => None,
                            Some((run_ts, p6)) => {
                                if inserter == 0 || start > end {
                                    None
                                } else {
                                    Some(
                                        (
                                            Insertion {
                                                anchor,
                                                text: Text { inserter, start, end },
                                                lamport_ts,
                                                run_ts,
                                            },
                                            p6,
                                        ),
                                    )
                                }
                            },
                        },
                    },
                },
            },
        },
    }
}

/// The data a deletion carries, with the map as a plain entry sequence.
pub ghost struct DeletionView {
    pub start: InnerAnchor,
    pub end: InnerAnchor,
    pub version_map: Seq<IdEntry>,
    pub deleted_by: ReplicaId,
    pub deletion_ts: u64,
}

/// The view of a deletion value.
pub open spec fn deletion_view(d: Deletion) -> DeletionView {
    DeletionView {
        start: d.start,
        end: d.end,
        version_map: d.version_map.entries@,
        deleted_by: d.deleted_by,
        deletion_ts: d.deletion_ts,
    }
}

/// Parses one deletion, validated.
pub open spec fn sp_deletion(s: Seq<u8>, pos: int) -> Option<(DeletionView, int)> {
    match sp_anchor(s, pos) {
        None => None,
        Some((start, p1)) => match sp_anchor(s, p1) {
            None => None,
            Some((end, p2)) => match sp_map(s, p2) {
                None => None,
                Some((entries, p3)) => match crate::codec::parse_varint(s, p3) {
                    None => None,
                    Some((deleted_by, p4)) => match crate::codec::parse_varint(s, p4) {
                        None => None,
                        Some((deletion_ts, p5)) => {
                            if deleted_by == 0 && !(deletion_ts == 0 && start.replica_id == 0
                                && end.replica_id == 0) {
                                None
                            } else {
                                Some(
                                    (
                                        DeletionView {
                                            start,
                                            end,
                                            version_map: entries,
                                            deleted_by,
                                            deletion_ts,
                                        },
                                        p5,
                                    ),
                                )
                            }
                        },
                    },
                },
            },
        },
    }
}

/// Parses `count` insertions onto `acc`.
pub open spec fn sp_backlog_insertions(
    s: Seq<u8>,
    pos: int,
    count: u64,
    acc: Seq<Insertion>,
) -> Option<(Seq<Insertion>, int)>
    decreases count,
{
    if count == 0 {
        Some((acc, pos))
    } else {
        match sp_insertion(s, pos) {
            None => None,
            Some((ins, p)) => sp_backlog_insertions(s, p, (count - 1) as u64, acc.push(ins)),
        }
    }
}

/// Parses `count` deletions onto `acc`.
pub open spec fn sp_backlog_deletions(
    s: Seq<u8>,
    pos: int,
    count: u64,
    acc: Seq<DeletionView>,
) -> Option<(Seq<DeletionView>, int)>
    decreases count,
{
    if count == 0 {
        Some((acc, pos))
    } else {
        match sp_deletion(s, pos) {
            None => None,
            Some((del, p)) => sp_backlog_deletions(s, p, (count - 1) as u64, acc.push(del)),
        }
    }
}

/// Parses a whole backlog.
pub open spec fn sp_backlog(s: Seq<u8>, pos: int) -> Option<((Seq<Insertion>, Seq<DeletionView>), int)> {
    match crate::codec::parse_varint(s, pos) {
        None => None,
        Some((n_ins, p1)) => match sp_backlog_insertions(s, p1, n_ins, Seq::empty()) {
            None => None,
            Some((insertions, p2)) => match crate::codec::parse_varint(s, p2) {
                None => None,
                Some((n_del, p3)) => match sp_backlog_deletions(s, p3, n_del, Seq::empty()) {
                    None => None,
                    Some((deletions, p4)) => Some(((insertions, deletions), p4)),
                },
            },
        },
    }
}

/// The data a whole payload carries.
pub ghost struct PayloadView {
    pub runs: Seq<EditRun>,
    pub lamport: u64,
    pub version_map: Seq<IdEntry>,
    pub deletion_map: Seq<IdEntry>,
    pub backlog_insertions: Seq<Insertion>,
    pub backlog_deletions: Seq<DeletionView>,
}

/// Parses a whole payload, which must end exactly at the end of the buffer.
pub open spec fn sp_payload(s: Seq<u8>) -> Option<PayloadView> {
    match sp_tree(s, 0) {
        None => None,
        Some((runs, p1)) => match crate::codec::parse_varint(s, p1) {
            None => None,
            Some((lamport, p2)) => match sp_map(s, p2) {
                None => None,
                Some((version_map, p3)) => match sp_map(s, p3) {
                    None => None,
                    Some((deletion_map, p4)) => match sp_backlog(s, p4) {
                        None => None,
                        Some(((backlog_insertions, backlog_deletions), p5)) => {
                            if p5 == s.len() {
                                Some(
                                    PayloadView {
                                        runs,
                                        lamport,
                                        version_map,
                                        deletion_map,
                                        backlog_insertions,
                                        backlog_deletions,
                                    },
                                )
                            } else {
                                None
                            }
                        },
                    },
                },
            },
        },
    }
}

/// The 32-byte SHA-256 digest of a byte sequence, a function of the bytes
/// alone.
pub uninterp spec fn sha256_of(bytes: Seq<u8>) -> Seq<u8>;

/// Relies on sha2::Sha256::digest: the 32-byte SHA-256 digest of the input,
/// which depends on the input bytes alone.
#[verifier::external_body]
fn sha256(bytes: &Vec<u8>) -> (r: Vec<u8>)
    ensures
        r@ == sha256_of(bytes@),
        r@.len() == 32,
{
    Sha256::digest(bytes.as_slice()).to_vec()
}

/// A replica encoded into a compact binary format suitable for transmission
/// over the network, created by [`Replica::encode`] and decoded by
/// [`Replica::decode`].
#[derive(Debug, Clone, PartialEq, Eq)]
pub struct EncodedReplica {
    pub protocol_version: ProtocolVersion,
    pub checksum: Vec<u8>,
    pub bytes: Vec<u8>,
}

impl EncodedReplica {
    /// The checksum is always the 32 bytes of a SHA-256 digest.
    pub open spec fn wf(&self) -> bool {
        self.checksum@.len() == 32
    }

    pub fn new(protocol_version: ProtocolVersion, checksum: Vec<u8>, bytes: Vec<u8>) -> (r: Self)
        requires
            checksum@.len() == 32,
        ensures
            r.wf(),
            r.protocol_version == protocol_version,
            r.checksum == checksum,
            r.bytes == bytes,
    {
        EncodedReplica { protocol_version, checksum, bytes }
    }

    pub fn protocol_version(&self) -> (r: ProtocolVersion)
        ensures
            r == self.protocol_version,
    {
        self.protocol_version
    }

    pub fn checksum(&self) -> (r: &Vec<u8>)
        ensures
            r == &self.checksum,
    {
        &self.checksum
    }

    pub fn bytes(&self) -> (r: &Vec<u8>)
        ensures
            r == &self.bytes,
    {
        &self.bytes
    }

    /// Serialises the envelope as one byte stream: protocol version, the 32
    /// checksum bytes, the payload length, then the payload.
    pub fn to_bytes(&self) -> (r: Vec<u8>)
        requires
            self.wf(),
        ensures
            r@ == enc_envelope(*self),
    {
        let mut out: Vec<u8> = Vec::new();
        write_u64(&mut out, self.protocol_version as u64);
        let ghost mid1 = out@;
        let n = self.checksum.len();
        let mut t: usize = 0;
        while t < n
            invariant
                n == self.checksum@.len(),
                0 <= t <= n,
                out@ == mid1 + self.checksum@.take(t as int),
            decreases n - t,
        {
            out.push(self.checksum[t]);
            proof {
                assert(out@ =~= mid1 + self.checksum@.take(t + 1));
            }
            t = t + 1;
        }
        proof {
            assert(self.checksum@.take(n as int) =~= self.checksum@);
        }
        write_u64(&mut out, self.bytes.len() as u64);
        let ghost mid2 = out@;
        let m = self.bytes.len();
        let mut t2: usize = 0;
        while t2 < m
            invariant
                m == self.bytes@.len(),
                0 <= t2 <= m,
                out@ == mid2 + self.bytes@.take(t2 as int),
            decreases m - t2,
        {
            out.push(self.bytes[t2]);
            proof {
                assert(out@ =~= mid2 + self.bytes@.take(t2 + 1));
            }
            t2 = t2 + 1;
        }
        proof {
            assert(self.bytes@.take(m as int) =~= self.bytes@);
            assert(out@ =~= enc_envelope(*self));
        }
        out
    }

    /// Parses an envelope from one byte stream, left to right, rejecting
    /// trailing garbage: a `Some` result re-encodes to exactly the input,
    /// and every well-formed envelope's encoding is accepted.
    pub fn from_bytes(buf: &Vec<u8>) -> (r: Option<EncodedReplica>)
        ensures
            match r {
                Some(e) => e.wf() && buf@ == enc_envelope(e),
                None => forall|e: EncodedReplica|
                    e.wf() ==> buf@ != #[trigger] enc_envelope(e),
            },
    {
        let pv = match read_u64(buf, 0) {
            Some(p) => p,
            None => {
                proof {
                    assert forall|e: EncodedReplica| e.wf() implies buf@ != #[trigger] enc_envelope(
                        e,
                    ) by {
                        if buf@ == enc_envelope(e) {
                            lemma_envelope_parses(buf@, e);
                        }
                    }
                }
                return None;
            },
        };
        if pv.0 > 0xffff {
            proof {
                assert forall|e: EncodedReplica| e.wf() implies buf@ != #[trigger] enc_envelope(
                    e,
                ) by {
                    if buf@ == enc_envelope(e) {
                        lemma_envelope_parses(buf@, e);
                    }
                }
            }
            return None;
        }
        let p1 = pv.1;
        let n = buf.len();
        if n - p1 < 32 {
            proof {
                assert forall|e: EncodedReplica| e.wf() implies buf@ != #[trigger] enc_envelope(
                    e,
                ) by {
                    if buf@ == enc_envelope(e) {
                        lemma_envelope_parses(buf@, e);
                    }
                }
            }
            return None;
        }
        let mut checksum: Vec<u8> = Vec::new();
        let mut t: usize = 0;
        while t < 32
            invariant
                n == buf@.len(),
                p1 + 32 <= n,
                0 <= t <= 32,
                checksum@ == buf@.subrange(p1 as int, p1 + t),
            decreases 32 - t,
        {
            checksum.push(buf[p1 + t]);
            proof {
                assert(checksum@ =~= buf@.subrange(p1 as int, p1 + t + 1));
            }
            t = t + 1;
        }
        let p2 = p1 + 32;
        let ln = match read_u64(buf, p2) {
            Some(p) => p,
            None => {
                proof {
                    assert forall|e: EncodedReplica| e.wf() implies buf@ != #[trigger] enc_envelope(
                        e,
                    ) by {
                        if buf@ == enc_envelope(e) {
                            lemma_envelope_parses(buf@, e);
                        }
                    }
                }
                return None;
            },
        };
        let p3 = ln.1;
        if ln.0 != (n - p3) as u64 {
            proof {
                assert forall|e: EncodedReplica| e.wf() implies buf@ != #[trigger] enc_envelope(
                    e,
                ) by {
                    if buf@ == enc_envelope(e) {
                        lemma_envelope_parses(buf@, e);
                    }
                }
            }
            return None;
        }
        let mut bytes: Vec<u8> = Vec::new();
        let mut t2: usize = p3;
        while t2 < n
            invariant
                p3 <= t2 <= n,
                n == buf@.len(),
                bytes@ == buf@.subrange(p3 as int, t2 as int),
            decreases n - t2,
        {
            bytes.push(buf[t2]);
            proof {
                assert(bytes@ =~= buf@.subrange(p3 as int, t2 + 1));
            }
            t2 = t2 + 1;
        }
        let e = EncodedReplica { protocol_version: pv.0 as u16, checksum, bytes };
        proof {
            crate::codec::lemma_parse_varint_sound(buf@, 0, 10, pv.0, p1 as int);
            crate::codec::lemma_parse_varint_sound(buf@, p2 as int, 10, ln.0, p3 as int);
            assert(e.protocol_version as u64 == pv.0);
            assert(e.bytes@.len() as u64 == ln.0);
            assert(buf@ =~= buf@.subrange(0, p1 as int) + buf@.subrange(p1 as int, p2 as int)
                + buf@.subrange(p2 as int, p3 as int) + buf@.subrange(p3 as int, n as int));
            assert(buf@ =~= enc_envelope(e));
        }
        Some(e)
    }
}

/// The on-wire bytes of an envelope: the protocol version, the 32 checksum
/// bytes, the payload length, then the payload.
pub open spec fn enc_envelope(e: EncodedReplica) -> Seq<u8> {
    varint_spec(e.protocol_version as u64) + e.checksum@ + varint_spec(e.bytes@.len() as u64)
        + e.bytes@
}

/// Where a buffer is exactly the encoding of a well-formed envelope, the
/// parse steps of `from_bytes` all succeed with the envelope's fields.
proof fn lemma_envelope_parses(s: Seq<u8>, e: EncodedReplica)
    requires
        e.wf(),
        s == enc_envelope(e),
    ensures
        ({
            let v1 = varint_spec(e.protocol_version as u64);
            let v2 = varint_spec(e.bytes@.len() as u64);
            &&& crate::codec::parse_varint(s, 0) == Some(
                (e.protocol_version as u64, v1.len() as int),
            )
            &&& e.protocol_version as u64 <= 0xffff
            &&& v1.len() + 32 <= s.len()
            &&& crate::codec::parse_varint(s, v1.len() + 32 as int) == Some(
                (e.bytes@.len() as u64, v1.len() + 32 + v2.len() as int),
            )
            &&& s.len() - (v1.len() + 32 + v2.len()) == e.bytes@.len()
        }),
{
    let v1 = varint_spec(e.protocol_version as u64);
    let v2 = varint_spec(e.bytes@.len() as u64);
    assert(s.subrange(0, s.len() as int) =~= s);
    assert(holds_at(s, 0, v1 + e.checksum@ + v2 + e.bytes@));
    lemma_holds_split(s, 0, v1 + e.checksum@ + v2, e.bytes@);
    lemma_holds_split(s, 0, v1 + e.checksum@, v2);
    lemma_holds_split(s, 0, v1, e.checksum@);
    lemma_varint_at(s, 0, e.protocol_version as u64);
    lemma_varint_at(s, (v1 + e.checksum@).len() as int, e.bytes@.len() as u64);
}

/// The envelope encoding is injective: equal byte streams mean equal
/// envelopes.
pub proof fn lemma_envelope_injective(a: EncodedReplica, b: EncodedReplica)
    requires
        a.wf(),
        b.wf(),
        enc_envelope(a) == enc_envelope(b),
    ensures
        a.protocol_version == b.protocol_version,
        a.checksum@ == b.checksum@,
        a.bytes@ == b.bytes@,
{
    let s = enc_envelope(a);
    lemma_envelope_parses(s, a);
    lemma_envelope_parses(s, b);
    let va = varint_spec(a.protocol_version as u64);
    let vb = varint_spec(b.protocol_version as u64);
    assert(va.len() == vb.len());
    assert(a.checksum@ =~= s.subrange(va.len() as int, va.len() + 32 as int));
    assert(b.checksum@ =~= s.subrange(vb.len() as int, vb.len() + 32 as int));
    assert(a.bytes@ =~= s.subrange(
        va.len() + 32 + varint_spec(a.bytes@.len() as u64).len() as int,
        s.len() as int,
    ));
    assert(b.bytes@ =~= s.subrange(
        vb.len() + 32 + varint_spec(b.bytes@.len() as u64).len() as int,
        s.len() as int,
    ));
}

/// The error returned when an [`EncodedReplica`] cannot be decoded.
#[derive(Debug, Copy, Clone, PartialEq, Eq, Structural)]
pub enum DecodeError {
    /// The checksum over the payload does not match: the data was corrupted
    /// in transit.
    ChecksumFailed,

    /// The encoding and the decoding side speak different versions of the
    /// interchange format.
    DifferentProtocol {
        /// The version the data was encoded with.
        encoded_on: ProtocolVersion,
        /// The version this crate decodes.
        decoding_on: ProtocolVersion,
    },

    /// The checksum and version match and yet the payload is not a valid
    /// replica encoding.
    InvalidData,
}

/// Whether two byte vectors hold the same bytes.
fn bytes_equal(a: &Vec<u8>, b: &Vec<u8>) -> (r: bool)
    ensures
        r == (a@ == b@),
{
    let n = a.len();
    if n != b.len() {
        return false;
    }
    let mut i: usize = 0;
    while i < n
        invariant
            n == a@.len(),
            n == b@.len(),
            0 <= i <= n,
            forall|k: int| 0 <= k < i ==> a@[k] == b@[k],
        decreases n - i,
    {
        if a[i] != b[i] {
            return false;
        }
        i = i + 1;
    }
    proof {
        assert(a@ =~= b@);
    }
    true
}

fn write_inner_anchor(buf: &mut Vec<u8>, a: InnerAnchor)
    ensures
        final(buf)@ == old(buf)@ + enc_anchor(a),
{
    write_u64(buf, a.replica_id);
    write_u64(buf, a.contained_in);
    write_u64(buf, a.offset);
    proof {
        assert(buf@ =~= old(buf)@ + enc_anchor(a));
    }
}

fn read_inner_anchor(buf: &Vec<u8>, pos: usize) -> (r: Option<(InnerAnchor, usize)>)
    ensures
        match r {
            Some(p) => sp_anchor(buf@, pos as int) == Some((p.0, p.1 as int)) && p.0.wf() && p.1
                <= buf@.len(),
            None => sp_anchor(buf@, pos as int) is None,
        },
{
    let (replica_id, pos) = match read_u64(buf, pos) {
        Some(p) => p,
        None => {
            return None;
        },
    };
    let (run_ts, pos) = match read_u64(buf, pos) {
        Some(p) => p,
        None => {
            return None;
        },
    };
    let (offset, pos) = match read_u64(buf, pos) {
        Some(p) => p,
        None => {
            return None;
        },
    };
    let a = InnerAnchor { replica_id, contained_in: run_ts, offset };
    if replica_id == 0 {
        if offset == 0 && run_ts == 0 {
            Some((a, pos))
        } else {
            None
        }
    } else {
        if offset >= 1 {
            Some((a, pos))
        } else {
            None
        }
    }
}

fn write_tree(buf: &mut Vec<u8>, tree: &RunTree)
    ensures
        final(buf)@ == old(buf)@ + enc_tree(*tree),
{
    write_u64(buf, tree.runs.len() as u64);
    let n = tree.runs.len();
    let mut i: usize = 0;
    while i < n
        invariant
            n == tree.runs@.len(),
            0 <= i <= n,
            buf@ == old(buf)@ + varint_spec(n as u64) + enc_runs(tree.runs@.take(i as int)),
        decreases n - i,
    {
        let run = tree.runs[i];
        let ghost pre = buf@;
        write_u64(buf, run.inserter);
        write_u64(buf, run.lo);
        write_u64(buf, run.hi);
        write_u64(buf, run.run_ts);
        write_u64(buf, run.lamport_ts);
        write_inner_anchor(buf, run.parent);
        write_bool(buf, run.visible);
        proof {
            assert(buf@ =~= pre + enc_run(run));
            assert(tree.runs@.take(i + 1).drop_last() =~= tree.runs@.take(i as int));
            assert(tree.runs@.take(i + 1).last() == run);
            assert(buf@ =~= old(buf)@ + varint_spec(n as u64) + enc_runs(
                tree.runs@.take(i + 1),
            ));
        }
        i = i + 1;
    }
    proof {
        assert(tree.runs@.take(n as int) =~= tree.runs@);
        assert(buf@ =~= old(buf)@ + enc_tree(*tree));
    }
}

fn read_run(buf: &Vec<u8>, pos: usize) -> (r: Option<(EditRun, usize)>)
    ensures
        match r {
            Some(p) => sp_run(buf@, pos as int) == Some((p.0, p.1 as int)) && p.0.wf() && p.1
                <= buf@.len(),
            None => sp_run(buf@, pos as int) is None,
        },
{
    let (inserter, p1) = match read_u64(buf, pos) {
        Some(p) => p,
        None => {
            return None;
        },
    };
    let (lo, p2) = match read_u64(buf, p1) {
        Some(p) => p,
        None => {
            return None;
        },
    };
    let (hi, p3) = match read_u64(buf, p2) {
        Some(p) => p,
        None => {
            return None;
        },
    };
    let (run_ts, p4) = match read_u64(buf, p3) {
        Some(p) => p,
        None => {
            return None;
        },
    };
    let (lamport_ts, p5) = match read_u64(buf, p4) {
        Some(p) => p,
        None => {
            return None;
        },
    };
    let (parent, p6) = match read_inner_anchor(buf, p5) {
        Some(p) => p,
        None => {
            return None;
        },
    };
    let (visible, p7) = match read_bool(buf, p6) {
        Some(p) => p,
        None => {
            return None;
        },
    };
    if inserter == 0 || lo > hi {
        return None;
    }
    Some((EditRun { inserter, lo, hi, run_ts, lamport_ts, parent, visible }, p7))
}

fn read_tree(buf: &Vec<u8>, pos: usize) -> (r: Option<(RunTree, usize)>)
    ensures
        match r {
            Some(p) => sp_tree(buf@, pos as int) == Some((p.0.runs@, p.1 as int)) && p.0.wf()
                && p.1 <= buf@.len(),
            None => sp_tree(buf@, pos as int) is None,
        },
{
    let (count, pos0) = match read_u64(buf, pos) {
        Some(p) => p,
        None => {
            return None;
        },
    };
    let mut runs: Vec<EditRun> = Vec::new();
    let mut total: u64 = 0;
    let mut cur: usize = pos0;
    let mut i: u64 = 0;
    while i < count
        invariant
            cur <= buf@.len(),
            0 <= i <= count,
            forall|k: int| 0 <= k < runs@.len() ==> (#[trigger] runs@[k]).wf(),
            total == total_chars(runs@),
            crate::codec::parse_varint(buf@, pos as int) == Some((count, pos0 as int)),
            sp_tree_items(buf@, pos0 as int, count, Seq::empty(), 0) == sp_tree_items(
                buf@,
                cur as int,
                (count - i) as u64,
                runs@,
                total,
            ),
        decreases count - i,
    {
        proof {
            assert(sp_tree_items(buf@, cur as int, (count - i) as u64, runs@, total) == (
            match sp_run(buf@, cur as int) {
                None => None,
                Some((run, p)) => {
                    if run.hi - run.lo > u64::MAX - total {
                        None
                    } else {
                        sp_tree_items(
                            buf@,
                            p,
                            (count - i - 1) as u64,
                            runs@.push(run),
                            (total + (run.hi - run.lo)) as u64,
                        )
                    }
                },
            }));
        }
        let (run, p) = match read_run(buf, cur) {
            Some(p) => p,
            None => {
                return None;
            },
        };
        let len = run.hi - run.lo;
        if len > u64::MAX - total {
            return None;
        }
        let ghost pre = runs@;
        runs.push(run);
        proof {
            assert(runs@.drop_last() =~= pre);
            assert forall|k: int| 0 <= k < runs@.len() implies (#[trigger] runs@[k]).wf() by {
                if k < runs@.len() - 1 {
                    assert(runs@[k] == pre[k]);
                }
            }
        }
        total = total + len;
        cur = p;
        i = i + 1;
    }
    proof {
        assert(sp_tree_items(buf@, cur as int, 0, runs@, total) == Some((runs@, cur as int)));
    }
    Some((RunTree { runs }, cur))
}

fn write_map(buf: &mut Vec<u8>, map: &BaseMap)
    ensures
        final(buf)@ == old(buf)@ + enc_map(*map),
{
    write_u64(buf, map.entries.len() as u64);
    let n = map.entries.len();
    let mut i: usize = 0;
    while i < n
        invariant
            n == map.entries@.len(),
            0 <= i <= n,
            buf@ == old(buf)@ + varint_spec(n as u64) + enc_entries(map.entries@.take(i as int)),
        decreases n - i,
    {
        let e = map.entries[i];
        let ghost pre = buf@;
        write_u64(buf, e.id);
        write_u64(buf, e.value);
        proof {
            assert(map.entries@.take(i + 1).drop_last() =~= map.entries@.take(i as int));
            assert(map.entries@.take(i + 1).last() == e);
            assert(buf@ =~= old(buf)@ + varint_spec(n as u64) + enc_entries(
                map.entries@.take(i + 1),
            ));
        }
        i = i + 1;
    }
    proof {
        assert(map.entries@.take(n as int) =~= map.entries@);
        assert(buf@ =~= old(buf)@ + enc_map(*map));
    }
}

/// Whether some entry already holds `id`.
fn entries_contains(v: &Vec<IdEntry>, id: ReplicaId) -> (r: bool)
    ensures
        r == crate::idmap::entries_has_id(v@, id),
{
    let n = v.len();
    let mut i: usize = 0;
    while i < n
        invariant
            n == v@.len(),
            0 <= i <= n,
            forall|k: int| 0 <= k < i ==> v@[k].id != id,
        decreases n - i,
    {
        if v[i].id == id {
            return true;
        }
        i = i + 1;
    }
    false
}

fn read_map(buf: &Vec<u8>, pos: usize) -> (r: Option<(BaseMap, usize)>)
    ensures
        match r {
            Some(p) => sp_map(buf@, pos as int) == Some((p.0.entries@, p.1 as int)) && p.0.wf()
                && p.1 <= buf@.len(),
            None => sp_map(buf@, pos as int) is None,
        },
{
    let (count, pos0) = match read_u64(buf, pos) {
        Some(p) => p,
        None => {
            return None;
        },
    };
    let mut entries: Vec<IdEntry> = Vec::new();
    let mut cur: usize = pos0;
    let mut i: u64 = 0;
    while i < count
        invariant
            cur <= buf@.len(),
            0 <= i <= count,
            crate::idmap::entries_unique(entries@),
            crate::codec::parse_varint(buf@, pos as int) == Some((count, pos0 as int)),
            sp_map_items(buf@, pos0 as int, count, Seq::empty()) == sp_map_items(
                buf@,
                cur as int,
                (count - i) as u64,
                entries@,
            ),
        decreases count - i,
    {
        proof {
            assert(sp_map_items(buf@, cur as int, (count - i) as u64, entries@) == (
            match crate::codec::parse_varint(buf@, cur as int) {
                None => None,
                Some((id, p1)) => match crate::codec::parse_varint(buf@, p1) {
                    None => None,
                    Some((value, p2)) => {
                        if crate::idmap::entries_has_id(entries@, id) {
                            None
                        } else {
                            sp_map_items(
                                buf@,
                                p2,
                                (count - i - 1) as u64,
                                entries@.push(IdEntry { id, value }),
                            )
                        }
                    },
                },
            }));
        }
        let (id, p1) = match read_u64(buf, cur) {
            Some(p) => p,
            None => {
                return None;
            },
        };
        let (value, p2) = match read_u64(buf, p1) {
            Some(p) => p,
            None => {
                return None;
            },
        };
        if entries_contains(&entries, id) {
            return None;
        }
        let ghost pre = entries@;
        entries.push(IdEntry { id, value });
        proof {
            assert forall|a: int, b: int| 0 <= a < b < entries@.len() implies entries@[a].id
                != entries@[b].id by {
                if b < entries@.len() - 1 {
                    assert(entries@[a] == pre[a] && entries@[b] == pre[b]);
                } else {
                    assert(entries@[a] == pre[a]);
                    assert(pre[a].id != id);
                }
            }
        }
        cur = p2;
        i = i + 1;
    }
    proof {
        assert(sp_map_items(buf@, cur as int, 0, entries@) == Some((entries@, cur as int)));
    }
    Some((BaseMap { entries }, cur))
}

fn write_insertion(buf: &mut Vec<u8>, ins: &Insertion)
    ensures
        final(buf)@ == old(buf)@ + enc_insertion(*ins),
{
    write_inner_anchor(buf, ins.anchor);
    write_u64(buf, ins.text.inserter);
    write_u64(buf, ins.text.start);
    write_u64(buf, ins.text.end);
    write_u64(buf, ins.lamport_ts);
    write_u64(buf, ins.run_ts);
    proof {
        assert(buf@ =~= old(buf)@ + enc_insertion(*ins));
    }
}

fn read_insertion(buf: &Vec<u8>, pos: usize) -> (r: Option<(Insertion, usize)>)
    ensures
        match r {
            Some(p) => sp_insertion(buf@, pos as int) == Some((p.0, p.1 as int)) && p.0.wf()
                && p.1 <= buf@.len(),
            None => sp_insertion(buf@, pos as int) is None,
        },
{
    let (anchor, p1) = match read_inner_anchor(buf, pos) {
        Some(p) => p,
        None => {
            return None;
        },
    };
    let (inserter, p2) = match read_u64(buf, p1) {
        Some(p) => p,
        None => {
            return None;
        },
    };
    let (start, p3) = match read_u64(buf, p2) {
        Some(p) => p,
        None => {
            return None;
        },
    };
    let (end, p4) = match read_u64(buf, p3) {
        Some(p) => p,
        None => {
            return None;
        },
    };
    let (lamport_ts, p5) = match read_u64(buf, p4) {
        Some(p) => p,
        None => {
            return None;
        },
    };
    let (run_ts, p6) = match read_u64(buf, p5) {
        Some(p) => p,
        None => {
            return None;
        },
    };
    if inserter == 0 || start > end {
        return None;
    }
    let ins = Insertion {
        anchor,
        text: Text { inserter, start, end },
        lamport_ts,
        run_ts,
    };
    Some((ins, p6))
}

fn write_deletion(buf: &mut Vec<u8>, del: &Deletion)
    ensures
        final(buf)@ == old(buf)@ + enc_deletion(*del),
{
    write_inner_anchor(buf, del.start);
    write_inner_anchor(buf, del.end);
    write_map(buf, &del.version_map);
    write_u64(buf, del.deleted_by);
    write_u64(buf, del.deletion_ts);
    proof {
        assert(buf@ =~= old(buf)@ + enc_deletion(*del));
    }
}

fn read_deletion(buf: &Vec<u8>, pos: usize) -> (r: Option<(Deletion, usize)>)
    ensures
        match r {
            Some(p) => sp_deletion(buf@, pos as int) == Some((deletion_view(p.0), p.1 as int))
                && p.0.wf() && p.1 <= buf@.len(),
            None => sp_deletion(buf@, pos as int) is None,
        },
{
    let (start, p1) = match read_inner_anchor(buf, pos) {
        Some(p) => p,
        None => {
            return None;
        },
    };
    let (end, p2) = match read_inner_anchor(buf, p1) {
        Some(p) => p,
        None => {
            return None;
        },
    };
    let (version_map, p3) = match read_map(buf, p2) {
        Some(p) => p,
        None => {
            return None;
        },
    };
    let (deleted_by, p4) = match read_u64(buf, p3) {
        Some(p) => p,
        None => {
            return None;
        },
    };
    let (deletion_ts, p5) = match read_u64(buf, p4) {
        Some(p) => p,
        None => {
            return None;
        },
    };
    if deleted_by == 0 && !(deletion_ts == 0 && start.replica_id == 0 && end.replica_id == 0) {
        return None;
    }
    let del = Deletion { start, end, version_map, deleted_by, deletion_ts };
    Some((del, p5))
}

fn write_backlog(buf: &mut Vec<u8>, backlog: &Backlog)
    ensures
        final(buf)@ == old(buf)@ + enc_backlog(*backlog),
{
    write_u64(buf, backlog.insertions.len() as u64);
    let n = backlog.insertions.len();
    let mut i: usize = 0;
    while i < n
        invariant
            n == backlog.insertions@.len(),
            0 <= i <= n,
            buf@ == old(buf)@ + varint_spec(n as u64) + enc_insertions(
                backlog.insertions@.take(i as int),
            ),
        decreases n - i,
    {
        let ins = backlog.insertions[i];
        write_insertion(buf, &ins);
        proof {
            assert(backlog.insertions@.take(i + 1).drop_last() =~= backlog.insertions@.take(
                i as int,
            ));
            assert(backlog.insertions@.take(i + 1).last() == ins);
            assert(buf@ =~= old(buf)@ + varint_spec(n as u64) + enc_insertions(
                backlog.insertions@.take(i + 1),
            ));
        }
        i = i + 1;
    }
    let ghost mid = buf@;
    write_u64(buf, backlog.deletions.len() as u64);
    let m = backlog.deletions.len();
    let mut j: usize = 0;
    while j < m
        invariant
            m == backlog.deletions@.len(),
            0 <= j <= m,
            buf@ == mid + varint_spec(m as u64) + enc_deletions(backlog.deletions@.take(j as int)),
        decreases m - j,
    {
        write_deletion(buf, &backlog.deletions[j]);
        proof {
            assert(backlog.deletions@.take(j + 1).drop_last() =~= backlog.deletions@.take(
                j as int,
            ));
            assert(buf@ =~= mid + varint_spec(m as u64) + enc_deletions(
                backlog.deletions@.take(j + 1),
            ));
        }
        j = j + 1;
    }
    proof {
        assert(backlog.insertions@.take(n as int) =~= backlog.insertions@);
        assert(backlog.deletions@.take(m as int) =~= backlog.deletions@);
        assert(buf@ =~= old(buf)@ + enc_backlog(*backlog));
    }
}

fn read_backlog(buf: &Vec<u8>, pos: usize) -> (r: Option<(Backlog, usize)>)
    ensures
        match r {
            Some(p) => sp_backlog(buf@, pos as int) == Some(
                (
                    (
                        p.0.insertions@,
                        p.0.deletions@.map_values(|d: Deletion| deletion_view(d)),
                    ),
                    p.1 as int,
                ),
            ) && p.0.wf() && p.1 <= buf@.len(),
            None => sp_backlog(buf@, pos as int) is None,
        },
{
    let (n_ins, pos0) = match read_u64(buf, pos) {
        Some(p) => p,
        None => {
            return None;
        },
    };
    let mut backlog = Backlog::new();
    let mut cur: usize = pos0;
    let mut i: u64 = 0;
    while i < n_ins
        invariant
            cur <= buf@.len(),
            0 <= i <= n_ins,
            backlog.wf(),
            backlog.deletions@.len() == 0,
            crate::codec::parse_varint(buf@, pos as int) == Some((n_ins, pos0 as int)),
            sp_backlog_insertions(buf@, pos0 as int, n_ins, Seq::empty())
                == sp_backlog_insertions(
                buf@,
                cur as int,
                (n_ins - i) as u64,
                backlog.insertions@,
            ),
        decreases n_ins - i,
    {
        proof {
            assert(sp_backlog_insertions(
                buf@,
                cur as int,
                (n_ins - i) as u64,
                backlog.insertions@,
            ) == (match sp_insertion(buf@, cur as int) {
                None => None,
                Some((ins, p)) => sp_backlog_insertions(
                    buf@,
                    p,
                    (n_ins - i - 1) as u64,
                    backlog.insertions@.push(ins),
                ),
            }));
        }
        let (ins, p1) = match read_insertion(buf, cur) {
            Some(p) => p,
            None => {
                return None;
            },
        };
        backlog.insert_insertion(ins);
        cur = p1;
        i = i + 1;
    }
    proof {
        assert(sp_backlog_insertions(buf@, cur as int, 0, backlog.insertions@) == Some(
            (backlog.insertions@, cur as int),
        ));
    }
    let ghost ins_done = backlog.insertions@;
    let (n_del, p2) = match read_u64(buf, cur) {
        Some(p) => p,
        None => {
            return None;
        },
    };
    let mut cur2: usize = p2;
    let mut j: u64 = 0;
    proof {
        assert(backlog.deletions@.map_values(|d: Deletion| deletion_view(d)) =~= Seq::<
            DeletionView,
        >::empty());
    }
    while j < n_del
        invariant
            cur2 <= buf@.len(),
            0 <= j <= n_del,
            backlog.wf(),
            backlog.insertions@ == ins_done,
            crate::codec::parse_varint(buf@, pos as int) == Some((n_ins, pos0 as int)),
            sp_backlog_insertions(buf@, pos0 as int, n_ins, Seq::empty()) == Some(
                (ins_done, cur as int),
            ),
            crate::codec::parse_varint(buf@, cur as int) == Some((n_del, p2 as int)),
            sp_backlog_deletions(buf@, p2 as int, n_del, Seq::empty()) == sp_backlog_deletions(
                buf@,
                cur2 as int,
                (n_del - j) as u64,
                backlog.deletions@.map_values(|d: Deletion| deletion_view(d)),
            ),
        decreases n_del - j,
    {
        proof {
            assert(sp_backlog_deletions(
                buf@,
                cur2 as int,
                (n_del - j) as u64,
                backlog.deletions@.map_values(|d: Deletion| deletion_view(d)),
            ) == (match sp_deletion(buf@, cur2 as int) {
                None => None,
                Some((del, p)) => sp_backlog_deletions(
                    buf@,
                    p,
                    (n_del - j - 1) as u64,
                    backlog.deletions@.map_values(|d: Deletion| deletion_view(d)).push(del),
                ),
            }));
        }
        let (del, p3) = match read_deletion(buf, cur2) {
            Some(p) => p,
            None => {
                return None;
            },
        };
        let ghost pre = backlog.deletions@;
        backlog.insert_deletion(del);
        proof {
            assert(backlog.deletions@.map_values(|d: Deletion| deletion_view(d)) =~= pre.map_values(
                |d: Deletion| deletion_view(d),
            ).push(deletion_view(del)));
        }
        cur2 = p3;
        j = j + 1;
    }
    proof {
        assert(sp_backlog_deletions(
            buf@,
            cur2 as int,
            0,
            backlog.deletions@.map_values(|d: Deletion| deletion_view(d)),
        ) == Some((backlog.deletions@.map_values(|d: Deletion| deletion_view(d)), cur2 as int)));
    }
    Some((backlog, cur2))
}

/// Where a buffer holds an encoded boolean, the parser returns it.
proof fn lemma_sp_bool_at(s: Seq<u8>, pos: int, b: bool)
    requires
        holds_at(
            s,
            pos,
            seq![
                if b {
                    1u8
                } else {
                    0u8
                },
            ],
        ),
    ensures
        sp_bool(s, pos) == Some((b, pos + 1)),
{
    assert(s[pos] == s.subrange(pos, pos + 1)[0]);
}

/// Where a buffer holds an encoded well-formed anchor, the parser returns
/// it.
proof fn lemma_sp_anchor_at(s: Seq<u8>, pos: int, a: InnerAnchor)
    requires
        a.wf(),
        holds_at(s, pos, enc_anchor(a)),
    ensures
        sp_anchor(s, pos) == Some((a, pos + enc_anchor(a).len() as int)),
{
    let v1 = varint_spec(a.replica_id);
    let v2 = varint_spec(a.contained_in);
    let v3 = varint_spec(a.offset);
    lemma_holds_split(s, pos, v1 + v2, v3);
    lemma_holds_split(s, pos, v1, v2);
    lemma_varint_at(s, pos, a.replica_id);
    lemma_varint_at(s, pos + v1.len() as int, a.contained_in);
    lemma_varint_at(s, pos + (v1 + v2).len() as int, a.offset);
}

/// Where a buffer holds an encoded well-formed run, the parser returns it.
proof fn lemma_sp_run_at(s: Seq<u8>, pos: int, r: EditRun)
    requires
        r.wf(),
        holds_at(s, pos, enc_run(r)),
    ensures
        sp_run(s, pos) == Some((r, pos + enc_run(r).len() as int)),
{
    let v1 = varint_spec(r.inserter);
    let v2 = varint_spec(r.lo);
    let v3 = varint_spec(r.hi);
    let v4 = varint_spec(r.run_ts);
    let v5 = varint_spec(r.lamport_ts);
    let anc = enc_anchor(r.parent);
    let bv = seq![
        if r.visible {
            1u8
        } else {
            0u8
        },
    ];
    lemma_holds_split(s, pos, v1 + v2 + v3 + v4 + v5 + anc, bv);
    lemma_holds_split(s, pos, v1 + v2 + v3 + v4 + v5, anc);
    lemma_holds_split(s, pos, v1 + v2 + v3 + v4, v5);
    lemma_holds_split(s, pos, v1 + v2 + v3, v4);
    lemma_holds_split(s, pos, v1 + v2, v3);
    lemma_holds_split(s, pos, v1, v2);
    lemma_varint_at(s, pos, r.inserter);
    lemma_varint_at(s, pos + v1.len() as int, r.lo);
    lemma_varint_at(s, pos + (v1 + v2).len() as int, r.hi);
    lemma_varint_at(s, pos + (v1 + v2 + v3).len() as int, r.run_ts);
    lemma_varint_at(s, pos + (v1 + v2 + v3 + v4).len() as int, r.lamport_ts);
    lemma_sp_anchor_at(s, pos + (v1 + v2 + v3 + v4 + v5).len() as int, r.parent);
    lemma_sp_bool_at(s, pos + (v1 + v2 + v3 + v4 + v5 + anc).len() as int, r.visible);
}

/// The run list encoding peels from the front.
proof fn lemma_enc_runs_first(s: Seq<EditRun>)
    requires
        s.len() > 0,
    ensures
        enc_runs(s) == enc_run(s[0]) + enc_runs(s.drop_first()),
    decreases s.len(),
{
    if s.len() == 1 {
        assert(s.drop_last() =~= Seq::<EditRun>::empty());
        assert(s.drop_first() =~= Seq::<EditRun>::empty());
        assert(enc_runs(s) =~= enc_run(s[0]) + enc_runs(s.drop_first()));
    } else {
        lemma_enc_runs_first(s.drop_last());
        assert(s.drop_last()[0] == s[0]);
        assert(s.drop_first().drop_last() =~= s.drop_last().drop_first());
        assert(s.drop_first().last() == s.last());
        assert(enc_runs(s) =~= enc_run(s[0]) + enc_runs(s.drop_first()));
    }
}

/// The character total peels from the front.
proof fn lemma_total_chars_first(s: Seq<EditRun>)
    requires
        s.len() > 0,
    ensures
        total_chars(s) == run_chars(s[0]) + total_chars(s.drop_first()),
    decreases s.len(),
{
    if s.len() > 1 {
        lemma_total_chars_first(s.drop_last());
        assert(s.drop_last()[0] == s[0]);
        assert(s.drop_first().drop_last() =~= s.drop_last().drop_first());
        assert(s.drop_first().last() == s.last());
    } else {
        assert(s.drop_first() =~= Seq::<EditRun>::empty());
        assert(s.drop_last() =~= Seq::<EditRun>::empty());
    }
}

/// Characters are never negative, run by run.
proof fn lemma_total_chars_nonneg(s: Seq<EditRun>)
    requires
        forall|i: int| 0 <= i < s.len() ==> (#[trigger] s[i]).wf(),
    ensures
        0 <= total_chars(s),
    decreases s.len(),
{
    if s.len() > 0 {
        lemma_total_chars_nonneg(s.drop_last());
    }
}

/// Where a buffer holds the encodings of `rem`, parsing that many items
/// appends exactly `rem` to the accumulator.
proof fn lemma_sp_tree_items_at(
    s: Seq<u8>,
    pos: int,
    rem: Seq<EditRun>,
    acc: Seq<EditRun>,
    total: u64,
)
    requires
        holds_at(s, pos, enc_runs(rem)),
        forall|i: int| 0 <= i < rem.len() ==> (#[trigger] rem[i]).wf(),
        total + total_chars(rem) <= u64::MAX,
        rem.len() <= u64::MAX,
    ensures
        sp_tree_items(s, pos, rem.len() as u64, acc, total) == Some(
            (acc + rem, pos + enc_runs(rem).len() as int),
        ),
    decreases rem.len(),
{
    if rem.len() == 0 {
        assert(acc + rem =~= acc);
        assert(enc_runs(rem).len() == 0);
    } else {
        let head = rem[0];
        let tail = rem.drop_first();
        lemma_enc_runs_first(rem);
        lemma_holds_split(s, pos, enc_run(head), enc_runs(tail));
        lemma_sp_run_at(s, pos, head);
        lemma_total_chars_first(rem);
        lemma_total_chars_nonneg(tail);
        lemma_sp_tree_items_at(
            s,
            pos + enc_run(head).len() as int,
            tail,
            acc.push(head),
            (total + (head.hi - head.lo)) as u64,
        );
        assert(acc.push(head) + tail =~= acc + rem);
    }
}

/// Where a buffer holds an encoded well-formed tree, the parser returns its
/// fragments.
proof fn lemma_sp_tree_at(s: Seq<u8>, pos: int, t: RunTree)
    requires
        t.wf(),
        t.runs@.len() <= u64::MAX,
        holds_at(s, pos, enc_tree(t)),
    ensures
        sp_tree(s, pos) == Some((t.runs@, pos + enc_tree(t).len() as int)),
{
    let cv = varint_spec(t.runs@.len() as u64);
    lemma_holds_split(s, pos, cv, enc_runs(t.runs@));
    lemma_varint_at(s, pos, t.runs@.len() as u64);
    lemma_total_chars_nonneg(t.runs@);
    lemma_sp_tree_items_at(s, pos + cv.len() as int, t.runs@, Seq::empty(), 0);
    assert(Seq::empty() + t.runs@ =~= t.runs@);
}

/// The entry list encoding peels from the front.
proof fn lemma_enc_entries_first(s: Seq<IdEntry>)
    requires
        s.len() > 0,
    ensures
        enc_entries(s) == varint_spec(s[0].id) + varint_spec(s[0].value) + enc_entries(
            s.drop_first(),
        ),
    decreases s.len(),
{
    if s.len() == 1 {
        assert(s.drop_last() =~= Seq::<IdEntry>::empty());
        assert(s.drop_first() =~= Seq::<IdEntry>::empty());
        assert(enc_entries(s) =~= varint_spec(s[0].id) + varint_spec(s[0].value) + enc_entries(
            s.drop_first(),
        ));
    } else {
        lemma_enc_entries_first(s.drop_last());
        assert(s.drop_last()[0] == s[0]);
        assert(s.drop_first().drop_last() =~= s.drop_last().drop_first());
        assert(s.drop_first().last() == s.last());
        assert(enc_entries(s) =~= varint_spec(s[0].id) + varint_spec(s[0].value) + enc_entries(
            s.drop_first(),
        ));
    }
}

/// Where a buffer holds the encodings of `rem` and `acc + rem` has no
/// duplicate id, parsing that many entries appends exactly `rem`.
proof fn lemma_sp_map_items_at(s: Seq<u8>, pos: int, rem: Seq<IdEntry>, acc: Seq<IdEntry>)
    requires
        holds_at(s, pos, enc_entries(rem)),
        crate::idmap::entries_unique(acc + rem),
        rem.len() <= u64::MAX,
    ensures
        sp_map_items(s, pos, rem.len() as u64, acc) == Some(
            (acc + rem, pos + enc_entries(rem).len() as int),
        ),
    decreases rem.len(),
{
    if rem.len() == 0 {
        assert(acc + rem =~= acc);
        assert(enc_entries(rem).len() == 0);
    } else {
        let head = rem[0];
        let tail = rem.drop_first();
        lemma_enc_entries_first(rem);
        lemma_holds_split(s, pos, varint_spec(head.id) + varint_spec(head.value), enc_entries(tail));
        lemma_holds_split(s, pos, varint_spec(head.id), varint_spec(head.value));
        lemma_varint_at(s, pos, head.id);
        lemma_varint_at(s, pos + varint_spec(head.id).len() as int, head.value);
        let whole = acc + rem;
        assert(!crate::idmap::entries_has_id(acc, head.id)) by {
            if crate::idmap::entries_has_id(acc, head.id) {
                let i = choose|i: int| 0 <= i < acc.len() && acc[i].id == head.id;
                assert(whole[i] == acc[i]);
                assert(whole[acc.len() as int] == head);
            }
        }
        assert(acc.push(head) + tail =~= whole);
        lemma_sp_map_items_at(
            s,
            pos + (varint_spec(head.id) + varint_spec(head.value)).len() as int,
            tail,
            acc.push(head),
        );
    }
}

/// Where a buffer holds an encoded well-formed map, the parser returns its
/// entries.
proof fn lemma_sp_map_at(s: Seq<u8>, pos: int, m: BaseMap)
    requires
        m.wf(),
        m.entries@.len() <= u64::MAX,
        holds_at(s, pos, enc_map(m)),
    ensures
        sp_map(s, pos) == Some((m.entries@, pos + enc_map(m).len() as int)),
{
    let cv = varint_spec(m.entries@.len() as u64);
    lemma_holds_split(s, pos, cv, enc_entries(m.entries@));
    lemma_varint_at(s, pos, m.entries@.len() as u64);
    assert(Seq::empty() + m.entries@ =~= m.entries@);
    lemma_sp_map_items_at(s, pos + cv.len() as int, m.entries@, Seq::empty());
}

/// Where a buffer holds an encoded well-formed insertion, the parser
/// returns it.
proof fn lemma_sp_insertion_at(s: Seq<u8>, pos: int, i: Insertion)
    requires
        i.wf(),
        holds_at(s, pos, enc_insertion(i)),
    ensures
        sp_insertion(s, pos) == Some((i, pos + enc_insertion(i).len() as int)),
{
    let anc = enc_anchor(i.anchor);
    let v1 = varint_spec(i.text.inserter);
    let v2 = varint_spec(i.text.start);
    let v3 = varint_spec(i.text.end);
    let v4 = varint_spec(i.lamport_ts);
    let v5 = varint_spec(i.run_ts);
    lemma_holds_split(s, pos, anc + v1 + v2 + v3 + v4, v5);
    lemma_holds_split(s, pos, anc + v1 + v2 + v3, v4);
    lemma_holds_split(s, pos, anc + v1 + v2, v3);
    lemma_holds_split(s, pos, anc + v1, v2);
    lemma_holds_split(s, pos, anc, v1);
    lemma_sp_anchor_at(s, pos, i.anchor);
    lemma_varint_at(s, pos + anc.len() as int, i.text.inserter);
    lemma_varint_at(s, pos + (anc + v1).len() as int, i.text.start);
    lemma_varint_at(s, pos + (anc + v1 + v2).len() as int, i.text.end);
    lemma_varint_at(s, pos + (anc + v1 + v2 + v3).len() as int, i.lamport_ts);
    lemma_varint_at(s, pos + (anc + v1 + v2 + v3 + v4).len() as int, i.run_ts);
}

/// Where a buffer holds an encoded well-formed deletion, the parser returns
/// its view.
proof fn lemma_sp_deletion_at(s: Seq<u8>, pos: int, d: Deletion)
    requires
        d.wf(),
        d.version_map.entries@.len() <= u64::MAX,
        holds_at(s, pos, enc_deletion(d)),
    ensures
        sp_deletion(s, pos) == Some((deletion_view(d), pos + enc_deletion(d).len() as int)),
{
    let a1 = enc_anchor(d.start);
    let a2 = enc_anchor(d.end);
    let mv = enc_map(d.version_map);
    let v1 = varint_spec(d.deleted_by);
    let v2 = varint_spec(d.deletion_ts);
    lemma_holds_split(s, pos, a1 + a2 + mv + v1, v2);
    lemma_holds_split(s, pos, a1 + a2 + mv, v1);
    lemma_holds_split(s, pos, a1 + a2, mv);
    lemma_holds_split(s, pos, a1, a2);
    lemma_sp_anchor_at(s, pos, d.start);
    lemma_sp_anchor_at(s, pos + a1.len() as int, d.end);
    lemma_sp_map_at(s, pos + (a1 + a2).len() as int, d.version_map);
    lemma_varint_at(s, pos + (a1 + a2 + mv).len() as int, d.deleted_by);
    lemma_varint_at(s, pos + (a1 + a2 + mv + v1).len() as int, d.deletion_ts);
}

/// The insertion list encoding peels from the front.
proof fn lemma_enc_insertions_first(s: Seq<Insertion>)
    requires
        s.len() > 0,
    ensures
        enc_insertions(s) == enc_insertion(s[0]) + enc_insertions(s.drop_first()),
    decreases s.len(),
{
    if s.len() == 1 {
        assert(s.drop_last() =~= Seq::<Insertion>::empty());
        assert(s.drop_first() =~= Seq::<Insertion>::empty());
        assert(enc_insertions(s) =~= enc_insertion(s[0]) + enc_insertions(s.drop_first()));
    } else {
        lemma_enc_insertions_first(s.drop_last());
        assert(s.drop_last()[0] == s[0]);
        assert(s.drop_first().drop_last() =~= s.drop_last().drop_first());
        assert(s.drop_first().last() == s.last());
        assert(enc_insertions(s) =~= enc_insertion(s[0]) + enc_insertions(s.drop_first()));
    }
}

/// The deletion list encoding peels from the front.
proof fn lemma_enc_deletions_first(s: Seq<Deletion>)
    requires
        s.len() > 0,
    ensures
        enc_deletions(s) == enc_deletion(s[0]) + enc_deletions(s.drop_first()),
    decreases s.len(),
{
    if s.len() == 1 {
        assert(s.drop_last() =~= Seq::<Deletion>::empty());
        assert(s.drop_first() =~= Seq::<Deletion>::empty());
        assert(enc_deletions(s) =~= enc_deletion(s[0]) + enc_deletions(s.drop_first()));
    } else {
        lemma_enc_deletions_first(s.drop_last());
        assert(s.drop_last()[0] == s[0]);
        assert(s.drop_first().drop_last() =~= s.drop_last().drop_first());
        assert(s.drop_first().last() == s.last());
        assert(enc_deletions(s) =~= enc_deletion(s[0]) + enc_deletions(s.drop_first()));
    }
}

/// Where a buffer holds the encodings of `rem`, parsing that many
/// insertions appends exactly `rem`.
proof fn lemma_sp_backlog_insertions_at(s: Seq<u8>, pos: int, rem: Seq<Insertion>, acc: Seq<Insertion>)
    requires
        holds_at(s, pos, enc_insertions(rem)),
        forall|i: int| 0 <= i < rem.len() ==> (#[trigger] rem[i]).wf(),
        rem.len() <= u64::MAX,
    ensures
        sp_backlog_insertions(s, pos, rem.len() as u64, acc) == Some(
            (acc + rem, pos + enc_insertions(rem).len() as int),
        ),
    decreases rem.len(),
{
    if rem.len() == 0 {
        assert(acc + rem =~= acc);
        assert(enc_insertions(rem).len() == 0);
    } else {
        let head = rem[0];
        let tail = rem.drop_first();
        lemma_enc_insertions_first(rem);
        lemma_holds_split(s, pos, enc_insertion(head), enc_insertions(tail));
        lemma_sp_insertion_at(s, pos, head);
        lemma_sp_backlog_insertions_at(s, pos + enc_insertion(head).len() as int, tail, acc.push(head));
        assert(acc.push(head) + tail =~= acc + rem);
    }
}

/// Where a buffer holds the encodings of `rem`, parsing that many deletions
/// appends exactly the views of `rem`.
proof fn lemma_sp_backlog_deletions_at(s: Seq<u8>, pos: int, rem: Seq<Deletion>, acc: Seq<DeletionView>)
    requires
        holds_at(s, pos, enc_deletions(rem)),
        forall|i: int| 0 <= i < rem.len() ==> (#[trigger] rem[i]).wf(),
        forall|i: int|
            0 <= i < rem.len() ==> (#[trigger] rem[i]).version_map.entries@.len() <= u64::MAX,
        rem.len() <= u64::MAX,
    ensures
        sp_backlog_deletions(s, pos, rem.len() as u64, acc) == Some(
            (
                acc + rem.map_values(|d: Deletion| deletion_view(d)),
                pos + enc_deletions(rem).len() as int,
            ),
        ),
    decreases rem.len(),
{
    if rem.len() == 0 {
        assert(acc + rem.map_values(|d: Deletion| deletion_view(d)) =~= acc);
        assert(enc_deletions(rem).len() == 0);
    } else {
        let head = rem[0];
        let tail = rem.drop_first();
        lemma_enc_deletions_first(rem);
        lemma_holds_split(s, pos, enc_deletion(head), enc_deletions(tail));
        lemma_sp_deletion_at(s, pos, head);
        lemma_sp_backlog_deletions_at(
            s,
            pos + enc_deletion(head).len() as int,
            tail,
            acc.push(deletion_view(head)),
        );
        assert(acc.push(deletion_view(head)) + tail.map_values(|d: Deletion| deletion_view(d))
            =~= acc + rem.map_values(|d: Deletion| deletion_view(d)));
    }
}

/// Where a buffer holds an encoded well-formed backlog, the parser returns
/// its contents.
proof fn lemma_sp_backlog_at(s: Seq<u8>, pos: int, b: Backlog)
    requires
        b.wf(),
        b.insertions@.len() <= u64::MAX,
        b.deletions@.len() <= u64::MAX,
        forall|i: int|
            0 <= i < b.deletions@.len() ==> (#[trigger] b.deletions@[i]).version_map.entries@.len()
                <= u64::MAX,
        holds_at(s, pos, enc_backlog(b)),
    ensures
        sp_backlog(s, pos) == Some(
            (
                (b.insertions@, b.deletions@.map_values(|d: Deletion| deletion_view(d))),
                pos + enc_backlog(b).len() as int,
            ),
        ),
{
    let c1 = varint_spec(b.insertions@.len() as u64);
    let e1 = enc_insertions(b.insertions@);
    let c2 = varint_spec(b.deletions@.len() as u64);
    let e2 = enc_deletions(b.deletions@);
    lemma_holds_split(s, pos, c1 + e1 + c2, e2);
    lemma_holds_split(s, pos, c1 + e1, c2);
    lemma_holds_split(s, pos, c1, e1);
    lemma_varint_at(s, pos, b.insertions@.len() as u64);
    lemma_sp_backlog_insertions_at(s, pos + c1.len() as int, b.insertions@, Seq::empty());
    assert(Seq::empty() + b.insertions@ =~= b.insertions@);
    lemma_varint_at(s, pos + (c1 + e1).len() as int, b.deletions@.len() as u64);
    lemma_sp_backlog_deletions_at(s, pos + (c1 + e1 + c2).len() as int, b.deletions@, Seq::empty());
    assert(Seq::empty() + b.deletions@.map_values(|d: Deletion| deletion_view(d))
        =~= b.deletions@.map_values(|d: Deletion| deletion_view(d)));
}

/// The part of the payload after the run tree: clock, maps, backlog.
proof fn lemma_payload_tail_at(s: Seq<u8>, pos: int, rep: Replica)
    requires
        rep.wf(),
        rep.version_map.entries@.len() <= u64::MAX,
        rep.deletion_map.entries@.len() <= u64::MAX,
        rep.backlog.insertions@.len() <= u64::MAX,
        rep.backlog.deletions@.len() <= u64::MAX,
        forall|i: int|
            0 <= i < rep.backlog.deletions@.len()
                ==> (#[trigger] rep.backlog.deletions@[i]).version_map.entries@.len() <= u64::MAX,
        holds_at(
            s,
            pos,
            varint_spec(rep.lamport_clock.0) + enc_map(rep.version_map) + enc_map(rep.deletion_map)
                + enc_backlog(rep.backlog),
        ),
    ensures
        ({
            let lv = varint_spec(rep.lamport_clock.0);
            let m1 = enc_map(rep.version_map);
            let m2 = enc_map(rep.deletion_map);
            let bk = enc_backlog(rep.backlog);
            &&& crate::codec::parse_varint(s, pos) == Some(
                (rep.lamport_clock.0, pos + lv.len() as int),
            )
            &&& sp_map(s, pos + lv.len() as int) == Some(
                (rep.version_map.entries@, pos + (lv + m1).len() as int),
            )
            &&& sp_map(s, pos + (lv + m1).len() as int) == Some(
                (rep.deletion_map.entries@, pos + (lv + m1 + m2).len() as int),
            )
            &&& sp_backlog(s, pos + (lv + m1 + m2).len() as int) == Some(
                (
                    (
                        rep.backlog.insertions@,
                        rep.backlog.deletions@.map_values(|d: Deletion| deletion_view(d)),
                    ),
                    pos + (lv + m1 + m2 + bk).len() as int,
                ),
            )
        }),
{
    let lv = varint_spec(rep.lamport_clock.0);
    let m1 = enc_map(rep.version_map);
    let m2 = enc_map(rep.deletion_map);
    let bk = enc_backlog(rep.backlog);
    lemma_holds_split(s, pos, lv + m1 + m2, bk);
    lemma_holds_split(s, pos, lv + m1, m2);
    lemma_holds_split(s, pos, lv, m1);
    lemma_varint_at(s, pos, rep.lamport_clock.0);
    lemma_sp_map_at(s, pos + lv.len() as int, rep.version_map);
    lemma_sp_map_at(s, pos + (lv + m1).len() as int, rep.deletion_map);
    lemma_sp_backlog_at(s, pos + (lv + m1 + m2).len() as int, rep.backlog);
}

/// **Round trip.** The payload a replica encodes parses back to exactly the
/// replica's document state: the same run fragments, Lamport clock, version
/// and deletion maps, and backlog.
///
/// Together with the contracts of [`Replica::encode`] (the payload is
/// `enc_payload`, the checksum its digest, the version current) and
/// [`Replica::decode`] (whose result is exactly what `sp_payload` parses),
/// this shows that decoding an encoded replica under a fresh id succeeds
/// and reproduces the sender's document state.
#[verifier::spinoff_prover]
#[verifier::rlimit(100)]
pub proof fn lemma_encode_decode_inverse(rep: Replica)
    requires
        rep.wf(),
        rep.run_tree.runs@.len() <= u64::MAX,
        rep.version_map.entries@.len() <= u64::MAX,
        rep.deletion_map.entries@.len() <= u64::MAX,
        rep.backlog.insertions@.len() <= u64::MAX,
        rep.backlog.deletions@.len() <= u64::MAX,
        forall|i: int|
            0 <= i < rep.backlog.deletions@.len()
                ==> (#[trigger] rep.backlog.deletions@[i]).version_map.entries@.len() <= u64::MAX,
    ensures
        sp_payload(enc_payload(rep)) == Some(
            PayloadView {
                runs: rep.run_tree.runs@,
                lamport: rep.lamport_clock.0,
                version_map: rep.version_map.entries@,
                deletion_map: rep.deletion_map.entries@,
                backlog_insertions: rep.backlog.insertions@,
                backlog_deletions: rep.backlog.deletions@.map_values(
                    |d: Deletion| deletion_view(d),
                ),
            },
        ),
{
    let s = enc_payload(rep);
    let t = enc_tree(rep.run_tree);
    let rest = varint_spec(rep.lamport_clock.0) + enc_map(rep.version_map) + enc_map(
        rep.deletion_map,
    ) + enc_backlog(rep.backlog);
    assert(s.subrange(0, s.len() as int) =~= s);
    assert(s =~= t + rest);
    assert(holds_at(s, 0, t + rest));
    lemma_holds_split(s, 0, t, rest);
    lemma_sp_tree_at(s, 0, rep.run_tree);
    lemma_payload_tail_at(s, t.len() as int, rep);
    lemma_payload_assemble(s, rep);
}

/// Folds the four component parse results into the whole-payload parse.
proof fn lemma_payload_assemble(s: Seq<u8>, rep: Replica)
    requires
        ({
            let t = enc_tree(rep.run_tree);
            let lv = varint_spec(rep.lamport_clock.0);
            let m1 = enc_map(rep.version_map);
            let m2 = enc_map(rep.deletion_map);
            let bk = enc_backlog(rep.backlog);
            &&& s.len() == (t + lv + m1 + m2 + bk).len()
            &&& sp_tree(s, 0) == Some((rep.run_tree.runs@, t.len() as int))
            &&& crate::codec::parse_varint(s, t.len() as int) == Some(
                (rep.lamport_clock.0, (t + lv).len() as int),
            )
            &&& sp_map(s, (t + lv).len() as int) == Some(
                (rep.version_map.entries@, (t + lv + m1).len() as int),
            )
            &&& sp_map(s, (t + lv + m1).len() as int) == Some(
                (rep.deletion_map.entries@, (t + lv + m1 + m2).len() as int),
            )
            &&& sp_backlog(s, (t + lv + m1 + m2).len() as int) == Some(
                (
                    (
                        rep.backlog.insertions@,
                        rep.backlog.deletions@.map_values(|d: Deletion| deletion_view(d)),
                    ),
                    (t + lv + m1 + m2 + bk).len() as int,
                ),
            )
        }),
    ensures
        sp_payload(s) == Some(
            PayloadView {
                runs: rep.run_tree.runs@,
                lamport: rep.lamport_clock.0,
                version_map: rep.version_map.entries@,
                deletion_map: rep.deletion_map.entries@,
                backlog_insertions: rep.backlog.insertions@,
                backlog_deletions: rep.backlog.deletions@.map_values(
                    |d: Deletion| deletion_view(d),
                ),
            },
        ),
{
}

impl Replica {
    /// Encodes the replica so it can be sent to another peer over the
    /// network. The envelope carries the protocol version and the SHA-256
    /// checksum of the payload.
    pub fn encode(&self) -> (r: EncodedReplica)
        requires
            self.wf(),
        ensures
            r.wf(),
            r.protocol_version == PROTOCOL_VERSION,
            r.checksum@ == sha256_of(r.bytes@),
            r.bytes@ == enc_payload(*self),
    {
        let mut payload: Vec<u8> = Vec::new();
        write_tree(&mut payload, &self.run_tree);
        write_u64(&mut payload, self.lamport_clock.peek());
        write_map(&mut payload, &self.version_map);
        write_map(&mut payload, &self.deletion_map);
        write_backlog(&mut payload, &self.backlog);
        proof {
            assert(payload@ =~= enc_payload(*self));
        }
        let checksum = sha256(&payload);
        EncodedReplica::new(PROTOCOL_VERSION, checksum, payload)
    }

    /// Creates a replica with the given fresh id from an encoded one.
    ///
    /// Exactly one error is possible for each failure: a version mismatch
    /// yields `DifferentProtocol`, a corrupted payload `ChecksumFailed`, and
    /// a payload that passes both checks but is not a replica encoding
    /// `InvalidData`. An `Ok` replica is well-formed and carries `id`.
    pub fn decode(id: ReplicaId, encoded: &EncodedReplica) -> (r: Result<Replica, DecodeError>)
        requires
            id != 0,
            encoded.wf(),
        ensures
            (encoded.protocol_version != PROTOCOL_VERSION) <==> r == Err::<
                Replica,
                DecodeError,
            >(
                DecodeError::DifferentProtocol {
                    encoded_on: encoded.protocol_version,
                    decoding_on: PROTOCOL_VERSION,
                },
            ),
            (encoded.protocol_version == PROTOCOL_VERSION && encoded.checksum@ != sha256_of(
                encoded.bytes@,
            )) <==> r == Err::<Replica, DecodeError>(DecodeError::ChecksumFailed),
            r is Ok ==> (r.unwrap().wf() && r.unwrap().id == id),
            (encoded.protocol_version == PROTOCOL_VERSION && encoded.checksum@ == sha256_of(
                encoded.bytes@,
            )) ==> match r {
                Ok(rep) => {
                    &&& rep.run_clock.0 == 0
                    &&& sp_payload(encoded.bytes@) == Some(
                        PayloadView {
                            runs: rep.run_tree.runs@,
                            lamport: rep.lamport_clock.0,
                            version_map: rep.version_map.entries@,
                            deletion_map: rep.deletion_map.entries@,
                            backlog_insertions: rep.backlog.insertions@,
                            backlog_deletions: rep.backlog.deletions@.map_values(
                                |d: Deletion| deletion_view(d),
                            ),
                        },
                    )
                },
                Err(e) => e == DecodeError::InvalidData && sp_payload(encoded.bytes@) is None,
            },
    {
        if encoded.protocol_version != PROTOCOL_VERSION {
            return Err(
                DecodeError::DifferentProtocol {
                    encoded_on: encoded.protocol_version,
                    decoding_on: PROTOCOL_VERSION,
                },
            );
        }
        let digest = sha256(&encoded.bytes);
        if !bytes_equal(&digest, &encoded.checksum) {
            return Err(DecodeError::ChecksumFailed);
        }
        let buf = &encoded.bytes;
        let (run_tree, p1) = match read_tree(buf, 0) {
            Some(p) => p,
            None => {
                return Err(DecodeError::InvalidData);
            },
        };
        let (lamport, p2) = match read_u64(buf, p1) {
            Some(p) => p,
            None => {
                return Err(DecodeError::InvalidData);
            },
        };
        let (version_map, p3) = match read_map(buf, p2) {
            Some(p) => p,
            None => {
                return Err(DecodeError::InvalidData);
            },
        };
        let (deletion_map, p4) = match read_map(buf, p3) {
            Some(p) => p,
            None => {
                return Err(DecodeError::InvalidData);
            },
        };
        let (backlog, p5) = match read_backlog(buf, p4) {
            Some(p) => p,
            None => {
                return Err(DecodeError::InvalidData);
            },
        };
        if p5 != buf.len() {
            return Err(DecodeError::InvalidData);
        }
        Ok(
            Replica {
                id,
                run_tree,
                run_clock: RunClock::new(),
                lamport_clock: crate::LamportClock(lamport),
                version_map,
                deletion_map,
                backlog,
            },
        )
    }
}

} // verus!
