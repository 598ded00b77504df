//! Partitions: one append-only file per MIME type, holding a 16-byte
//! header of two timestamps followed by length-prefixed record slots.
//!
//! The in-memory value indexes every slot and carries the file's bytes as
//! a ghost sequence, so that every operation's effect on the disk image is
//! part of its contract.

use vstd::prelude::*;
use vstd::bytes::{spec_u64_to_le_bytes, spec_u64_from_le_bytes, lemma_auto_spec_u64_to_from_le_bytes, u64_to_le_bytes, u64_from_le_bytes};
use vstd::slice::{slice_subrange, slice_to_vec, slice_index_get};
use crate::binio::{spec_i64_to_le_bytes, spec_i64_from_le_bytes, i64_to_le_bytes, i64_from_le_bytes, lemma_i64_le_bytes_round_trip, lemma_i64_bits_round_trip_rev};
use crate::mime::VennTimestamp;
use crate::ids::{fresh_record_id, id_eq};
use crate::VennError;

verus! {

/// The flag byte of an active record: bit 7 set, reserved bits clear.
pub const RECORD_ACTIVE_FLAG: u8 = 0x80;

/// One indexed record slot: whether it is live, the absolute file offset
/// of its first data byte, and its data length.
#[derive(Clone, Copy, PartialEq, Eq, Structural, Debug)]
pub struct RecordInformation {
    pub is_active: bool,
    pub start: u64,
    pub size: u64,
}

/// The flag byte written for a record.
pub open spec fn spec_flag_byte(active: bool) -> u8 {
    if active {
        0x80u8
    } else {
        0x00u8
    }
}

/// The 25 header bytes that precede a record's data.
pub open spec fn spec_record_header(id: Seq<u8>, active: bool, size: u64) -> Seq<u8> {
    seq![spec_flag_byte(active)] + id + spec_u64_to_le_bytes(size)
}

/// The full slot: header then data.
pub open spec fn spec_record_slot(id: Seq<u8>, active: bool, data: Seq<u8>) -> Seq<u8> {
    spec_record_header(id, active, data.len() as u64) + data
}

/// The 16 header bytes at the start of a partition file.
pub open spec fn spec_partition_header(created_at: i64, last_compaction: i64) -> Seq<u8> {
    spec_i64_to_le_bytes(created_at) + spec_i64_to_le_bytes(last_compaction)
}

/// Whether one indexed slot correctly describes the file's bytes.
pub open spec fn spec_slot_ok(file: Seq<u8>, id: Seq<u8>, info: RecordInformation) -> bool {
    &&& id.len() == 16
    &&& info.start >= 41
    &&& info.start + info.size <= file.len()
    &&& file.subrange(info.start - 25, info.start as int) == spec_record_header(
        id,
        info.is_active,
        info.size,
    )
}

/// Where slot `i` of an indexed sequence must begin: right after the
/// partition header for the first, and right after its predecessor's data
/// for the rest.
pub open spec fn spec_slot_start(recs: Seq<(Seq<u8>, RecordInformation)>, i: int) -> int {
    if i == 0 {
        41
    } else {
        recs[i - 1].1.start + recs[i - 1].1.size + 25
    }
}

/// Whether no two indexed slots share a record id.
pub open spec fn spec_unique_ids(recs: Seq<(Seq<u8>, RecordInformation)>) -> bool {
    forall|i: int, j: int| 0 <= i < j < recs.len() ==> recs[i].0 != recs[j].0
}

/// The bytes that the indexed slots occupy, header widths included.
pub open spec fn spec_slots_size(recs: Seq<(Seq<u8>, RecordInformation)>) -> int
    decreases recs.len(),
{
    if recs.len() == 0 {
        0
    } else {
        spec_slots_size(recs.drop_last()) + 25 + recs.last().1.size
    }
}

/// A partition: the record index, the two header timestamps, the offset at
/// which the next record's data will start, and the file image.
pub struct Partition {
    records: Vec<(Vec<u8>, RecordInformation)>,
    created_at: VennTimestamp,
    last_compaction: VennTimestamp,
    next_start: u64,
    file: Ghost<Seq<u8>>,
}

impl Partition {
    /// The bytes of the partition file this value describes.
    pub closed spec fn spec_file(&self) -> Seq<u8> {
        self.file@
    }

    /// The indexed record slots, in file order.
    pub closed spec fn spec_records(&self) -> Seq<(Seq<u8>, RecordInformation)> {
        Seq::new(self.records@.len(), |i: int| (self.records@[i].0@, self.records@[i].1))
    }

    pub closed spec fn spec_created_at(&self) -> i64 {
        self.created_at.0
    }

    pub closed spec fn spec_last_compaction(&self) -> i64 {
        self.last_compaction.0
    }

    /// The file offset at which the next record's data bytes will begin.
    pub closed spec fn spec_next_start(&self) -> u64 {
        self.next_start
    }

    /// Well-formedness: the header holds the two timestamps, every indexed
    /// slot matches the file, slots sit back to back covering the whole
    /// file, ids are unique, and `next_start` points one record header past
    /// the end of the file.
    pub open spec fn wf(&self) -> bool {
        &&& self.spec_file().len() >= 16
        &&& self.spec_file().subrange(0, 16) == spec_partition_header(
            self.spec_created_at(),
            self.spec_last_compaction(),
        )
        &&& forall|i: int|
            0 <= i < self.spec_records().len() ==> spec_slot_ok(
                self.spec_file(),
                self.spec_records()[i].0,
                (#[trigger] self.spec_records()[i]).1,
            )
        &&& forall|i: int|
            0 <= i < self.spec_records().len() ==> (#[trigger] self.spec_records()[i]).1.start
                == spec_slot_start(self.spec_records(), i)
        &&& self.spec_next_start() == if self.spec_records().len() == 0 {
            41int
        } else {
            spec_slot_start(self.spec_records(), self.spec_records().len() as int)
        }
        &&& self.spec_next_start() == self.spec_file().len() + 25
        &&& spec_unique_ids(self.spec_records())
    }

    /// A partition that was just created on disk: a bare 16-byte header
    /// and no records.
    pub fn new(created_at: VennTimestamp, last_compaction: VennTimestamp) -> (r: Partition)
        ensures
            r.wf(),
            r.spec_records().len() == 0,
            r.spec_created_at() == created_at.0,
            r.spec_last_compaction() == last_compaction.0,
            r.spec_file() == spec_partition_header(created_at.0, last_compaction.0),
    {
        proof {
            lemma_i64_le_bytes_round_trip(created_at.0);
            lemma_i64_le_bytes_round_trip(last_compaction.0);
        }
        let r = Partition {
            records: Vec::new(),
            created_at,
            last_compaction,
            next_start: 41,
            file: Ghost(spec_partition_header(created_at.0, last_compaction.0)),
        };
        proof {
            assert(r.spec_file().subrange(0, 16) =~= r.spec_file());
            assert(r.spec_records() =~= Seq::<(Seq<u8>, RecordInformation)>::empty());
        }
        r
    }

    /// The 16 bytes that `new` assumes were written at the file's start.
    pub fn header_bytes(created_at: VennTimestamp, last_compaction: VennTimestamp) -> (r: Vec<u8>)
        ensures
            r@ == spec_partition_header(created_at.0, last_compaction.0),
    {
        let mut h = i64_to_le_bytes(created_at.0);
        let rest = i64_to_le_bytes(last_compaction.0);
        h.extend_from_slice(rest.as_slice());
        h
    }

    /// How many records the partition indexes, active and inactive alike.
    pub fn records_len(&self) -> (r: usize)
        ensures
            r == self.spec_records().len(),
    {
        self.records.len()
    }

    /// The creation timestamp from the partition header.
    pub fn created_at(&self) -> (r: VennTimestamp)
        ensures
            r.0 == self.spec_created_at(),
    {
        self.created_at
    }

    /// The last-compaction timestamp from the partition header.
    pub fn last_compaction(&self) -> (r: VennTimestamp)
        ensures
            r.0 == self.spec_last_compaction(),
    {
        self.last_compaction
    }

    /// Whether some indexed slot carries this id.
    pub open spec fn spec_contains_id(&self, id: Seq<u8>) -> bool {
        exists|i: int| 0 <= i < self.spec_records().len() && (#[trigger] self.spec_records()[i]).0 == id
    }

    /// Looks a record up by id.
    ///
    /// Returns the slot's index entry exactly when the id is indexed.
    pub fn get_record_information(&self, record_id: &[u8]) -> (r: Option<&RecordInformation>)
        ensures
            r matches Some(info) ==> exists|i: int|
                0 <= i < self.spec_records().len() && #[trigger] self.spec_records()[i] == (
                record_id@,
                *info,
                ),
            r is None <==> !self.spec_contains_id(record_id@),
    {
        let n = self.records.len();
        let mut i: usize = 0;
        while i < n
            invariant
                0 <= i <= n,
                n == self.spec_records().len(),
                forall|j: int| 0 <= j < i ==> (#[trigger] self.spec_records()[j]).0 != record_id@,
            decreases n - i,
        {
            if id_eq(self.records[i].0.as_slice(), record_id) {
                proof {
                    assert(self.spec_records()[i as int] == (record_id@, self.records@[i as int].1));
                }
                return Some(&self.records[i].1);
            }
            i = i + 1;
        }
        None
    }

    /// The active slots, in file order, paired with their ids.
    pub fn iter_active_records(&self) -> (r: Vec<(Vec<u8>, RecordInformation)>)
        ensures
            spec_active_view(r@) == spec_active_slots(self.spec_records()),
            forall|i: int| 0 <= i < r@.len() ==> (#[trigger] r@[i]).1.is_active,
    {
        let n = self.records.len();
        let mut out: Vec<(Vec<u8>, RecordInformation)> = Vec::new();
        let mut i: usize = 0;
        while i < n
            invariant
                0 <= i <= n,
                n == self.spec_records().len(),
                spec_active_view(out@) == spec_active_slots(self.spec_records().subrange(0, i as int)),
                forall|j: int| 0 <= j < out@.len() ==> (#[trigger] out@[j]).1.is_active,
            decreases n - i,
        {
            let ghost prefix = self.spec_records().subrange(0, i as int);
            if self.records[i].1.is_active {
                let id_copy = slice_to_vec(self.records[i].0.as_slice());
                let info = self.records[i].1;
                out.push((id_copy, info));
            }
            proof {
                let prefix2 = self.spec_records().subrange(0, i + 1);
                assert(prefix2.drop_last() =~= prefix);
                assert(prefix2.last() == self.spec_records()[i as int]);
                assert(spec_active_view(out@) =~= spec_active_slots(prefix2));
            }
            i = i + 1;
        }
        proof {
            assert(self.spec_records().subrange(0, n as int) =~= self.spec_records());
        }
        out
    }

    /// Appends one record: picks a fresh id, extends the file image by one
    /// slot, and indexes it at `next_start`.
    ///
    /// Returns the id together with the slot bytes that must be appended to
    /// the partition file. Fails, leaving the partition untouched, only if
    /// the file would outgrow a 64-bit offset or no fresh id was drawn.
    pub fn push_record(&mut self, data: &[u8]) -> (r: Result<(Vec<u8>, Vec<u8>), VennError>)
        requires
            old(self).wf(),
        ensures
            final(self).wf(),
            r matches Ok((id, slot)) ==> {
                &&& id@.len() == 16
                &&& !old(self).spec_contains_id(id@)
                &&& slot@ == spec_record_slot(id@, true, data@)
                &&& final(self).spec_records() == old(self).spec_records().push(
                    (
                        id@,
                        RecordInformation {
                            is_active: true,
                            start: old(self).spec_next_start(),
                            size: data@.len() as u64,
                        },
                    ),
                )
                &&& final(self).spec_file() == old(self).spec_file() + slot@
                &&& final(self).spec_file().subrange(
                    old(self).spec_next_start() as int,
                    old(self).spec_next_start() + data@.len(),
                ) == data@
                &&& final(self).spec_next_start() == old(self).spec_next_start() + 25 + data@.len()
                &&& final(self).spec_created_at() == old(self).spec_created_at()
                &&& final(self).spec_last_compaction() == old(self).spec_last_compaction()
            },
            r is Err ==> *final(self) == *old(self),
            old(self).spec_next_start() + 25 + data@.len() > u64::MAX ==> r is Err,
    {
        if data.len() as u64 > u64::MAX - 25 || self.next_start > u64::MAX - 25 - (data.len()
            as u64) {
            return Err(VennError::Io);
        }
        let mut attempts: usize = 0;
        let mut id: Vec<u8> = fresh_record_id();
        let mut dup = self.contains_id_exec(id.as_slice());
        while dup && attempts < 64
            invariant
                old(self).wf(),
                *self == *old(self),
                id@.len() == 16,
                dup == self.spec_contains_id(id@),
                attempts <= 64,
            decreases 64 - attempts,
        {
            id = fresh_record_id();
            dup = self.contains_id_exec(id.as_slice());
            attempts = attempts + 1;
        }
        if dup {
            return Err(VennError::Io);
        }
        let id_copy = slice_to_vec(id.as_slice());
        match self.push_with_id(id, data) {
            Ok(slot) => Ok((id_copy, slot)),
            Err(e) => Err(e),
        }
    }

    /// Appends one record under a given fresh id; the deterministic core
    /// of `push_record`.
    ///
    /// Returns the slot bytes that must be appended to the partition
    /// file. Fails, leaving the partition untouched, exactly when the
    /// file would outgrow a 64-bit offset.
    pub fn push_with_id(&mut self, id: Vec<u8>, data: &[u8]) -> (r: Result<Vec<u8>, VennError>)
        requires
            old(self).wf(),
            id@.len() == 16,
            !old(self).spec_contains_id(id@),
        ensures
            final(self).wf(),
            r matches Ok(slot) ==> {
                &&& slot@ == spec_record_slot(id@, true, data@)
                &&& final(self).spec_records() == old(self).spec_records().push(
                    (
                        id@,
                        RecordInformation {
                            is_active: true,
                            start: old(self).spec_next_start(),
                            size: data@.len() as u64,
                        },
                    ),
                )
                &&& final(self).spec_file() == old(self).spec_file() + slot@
                &&& final(self).spec_file().subrange(
                    old(self).spec_next_start() as int,
                    old(self).spec_next_start() + data@.len(),
                ) == data@
                &&& final(self).spec_next_start() == old(self).spec_next_start() + 25 + data@.len()
                &&& final(self).spec_created_at() == old(self).spec_created_at()
                &&& final(self).spec_last_compaction() == old(self).spec_last_compaction()
            },
            r is Err ==> *final(self) == *old(self) && r == Err::<Vec<u8>, VennError>(
                VennError::Io,
            ),
            r is Err <==> old(self).spec_next_start() + 25 + data@.len() > u64::MAX,
    {
        if data.len() as u64 > u64::MAX - 25 || self.next_start > u64::MAX - 25 - (data.len()
            as u64) {
            return Err(VennError::Io);
        }
        let size = data.len() as u64;
        let mut slot: Vec<u8> = Vec::new();
        slot.push(RECORD_ACTIVE_FLAG);
        slot.extend_from_slice(id.as_slice());
        let size_bytes = u64_to_le_bytes(size);
        slot.extend_from_slice(size_bytes.as_slice());
        slot.extend_from_slice(data);
        proof {
            lemma_auto_spec_u64_to_from_le_bytes();
            assert(slot@ =~= spec_record_slot(id@, true, data@));
        }
        let info = RecordInformation { is_active: true, start: self.next_start, size };
        let ghost id_view = id@;
        let ghost old_self = *self;
        self.records.push((id, info));
        self.next_start = self.next_start + 25 + size;
        self.file = Ghost(old_self.spec_file() + spec_record_slot(id_view, true, data@));
        proof {
            assert(self.spec_records() =~= old_self.spec_records().push((id_view, info)));
            lemma_push_preserves_wf(old_self, *self, id_view, data@);
            assert(self.spec_file().subrange(
                old_self.spec_next_start() as int,
                old_self.spec_next_start() + data@.len(),
            ) =~= data@);
        }
        Ok(slot)
    }

    /// Whether the partition indexes this id.
    pub fn contains_id_exec(&self, id: &[u8]) -> (r: bool)
        ensures
            r == self.spec_contains_id(id@),
    {
        match self.get_record_information(id) {
            Some(_) => true,
            None => false,
        }
    }
}

/// The slots read sequentially from `bytes` starting at `pos`: `None` if a
/// record header is cut short, carries impossible flag bits, or promises
/// more data than the file holds.
pub open spec fn spec_parse_slots(bytes: Seq<u8>, pos: int) -> Option<
    Seq<(Seq<u8>, RecordInformation)>,
>
    decreases bytes.len() - pos,
{
    if pos == bytes.len() {
        Some(Seq::empty())
    } else if pos + 25 > bytes.len() {
        None
    } else {
        let flags = bytes[pos];
        let id = bytes.subrange(pos + 1, pos + 17);
        let size = spec_u64_from_le_bytes(bytes.subrange(pos + 17, pos + 25));
        if flags != 0x80u8 && flags != 0x00u8 {
            None
        } else if pos + 25 + size > bytes.len() {
            None
        } else {
            match spec_parse_slots(bytes, pos + 25 + size) {
                None => None,
                Some(rest) => Some(
                    seq![
                        (
                            id,
                            RecordInformation {
                                is_active: flags == 0x80u8,
                                start: (pos + 25) as u64,
                                size,
                            },
                        ),
                    ] + rest,
                ),
            }
        }
    }
}

/// Whether `bytes` are a well-formed partition file: a full header and
/// complete, distinct-id record slots covering the rest, within 64-bit
/// offsets.
pub open spec fn spec_partition_bytes_ok(bytes: Seq<u8>) -> bool {
    &&& bytes.len() >= 16
    &&& bytes.len() + 25 <= u64::MAX
    &&& (spec_parse_slots(bytes, 16) matches Some(recs) && spec_unique_ids(recs))
}

impl Partition {
    /// Indexes a whole partition file.
    ///
    /// Succeeds exactly when the bytes begin with a 16-byte header followed
    /// by complete, distinct-id record slots that cover the rest of the
    /// file; the result then describes those bytes.
    #[verifier::rlimit(100)]
    #[verifier::spinoff_prover]
    pub fn from_bytes(bytes: &[u8]) -> (r: Result<Partition, VennError>)
        ensures
            r matches Ok(p) ==> {
                &&& p.wf()
                &&& p.spec_file() == bytes@
                &&& Some(p.spec_records()) == spec_parse_slots(bytes@, 16)
                &&& p.spec_created_at() == spec_i64_from_le_bytes(bytes@.subrange(0, 8))
                &&& p.spec_last_compaction() == spec_i64_from_le_bytes(bytes@.subrange(8, 16))
            },
            r is Ok <==> bytes@.len() >= 16 && bytes@.len() + 25 <= u64::MAX && (spec_parse_slots(
                bytes@,
                16,
            ) matches Some(recs) && spec_unique_ids(recs)),
            r == Err::<Partition, VennError>(VennError::ShortRead) <==> bytes@.len() < 16,
            r is Err ==> r == Err::<Partition, VennError>(VennError::ShortRead) || r == Err::<
                Partition,
                VennError,
            >(VennError::MalformedPartition),
    {
        let n = bytes.len();
        if n < 16 {
            return Err(VennError::ShortRead);
        }
        let created_at = VennTimestamp(i64_from_le_bytes(slice_subrange(bytes, 0, 8)));
        let last_compaction = VennTimestamp(i64_from_le_bytes(slice_subrange(bytes, 8, 16)));
        let mut recs: Vec<(Vec<u8>, RecordInformation)> = Vec::new();
        let mut pos: usize = 16;
        proof {
            lemma_auto_spec_u64_to_from_le_bytes();
        }
        while pos < n
            invariant
                16 <= pos <= n,
                n == bytes@.len(),
                spec_parse_slots(bytes@, pos as int) matches Some(rest) ==> spec_parse_slots(
                    bytes@,
                    16,
                ) == Some(spec_active_view(recs@) + rest),
                spec_parse_slots(bytes@, pos as int) is None ==> spec_parse_slots(bytes@, 16)
                    is None,
                forall|i: int|
                    0 <= i < recs@.len() ==> spec_slot_ok(
                        bytes@,
                        (#[trigger] spec_active_view(recs@)[i]).0,
                        spec_active_view(recs@)[i].1,
                    ),
                forall|i: int|
                    0 <= i < recs@.len() ==> (#[trigger] spec_active_view(recs@)[i]).1.start
                        == spec_slot_start(spec_active_view(recs@), i),
                pos == if recs@.len() == 0 {
                    16int
                } else {
                    spec_active_view(recs@).last().1.start + spec_active_view(recs@).last().1.size
                },
                spec_unique_ids(spec_active_view(recs@)),
            decreases n - pos,
        {
            let ghost old_view = spec_active_view(recs@);
            if n - pos < 25 {
                return Err(VennError::MalformedPartition);
            }
            let flags = *slice_index_get(bytes, pos);
            if flags != RECORD_ACTIVE_FLAG && flags != 0x00u8 {
                return Err(VennError::MalformedPartition);
            }
            let id: Vec<u8> = slice_to_vec(slice_subrange(bytes, pos + 1, pos + 17));
            let size = u64_from_le_bytes(slice_subrange(bytes, pos + 17, pos + 25));
            if size > (n - pos - 25) as u64 {
                return Err(VennError::MalformedPartition);
            }
            let data_len = size as usize;
            let info = RecordInformation {
                is_active: flags == RECORD_ACTIVE_FLAG,
                start: (pos as u64) + 25,
                size,
            };
            let ghost entry = (id@, info);
            proof {
                assert(spec_parse_slots(bytes@, pos as int) == match spec_parse_slots(
                    bytes@,
                    pos + 25 + size,
                ) {
                    None => None::<Seq<(Seq<u8>, RecordInformation)>>,
                    Some(rest) => Some(seq![entry] + rest),
                });
            }
            if self_contains(&recs, id.as_slice()) {
                proof {
                    if spec_parse_slots(bytes@, pos + 25 + size) is Some {
                        let rest = spec_parse_slots(bytes@, pos + 25 + size)->Some_0;
                        let full = spec_active_view(recs@) + (seq![entry] + rest);
                        assert(spec_parse_slots(bytes@, 16) == Some(full));
                        let k = choose|k: int|
                            0 <= k < recs@.len() && (#[trigger] spec_active_view(recs@)[k]).0
                                == id@;
                        assert(full[k] == spec_active_view(recs@)[k]);
                        assert(full[recs@.len() as int] == entry);
                        assert(!spec_unique_ids(full));
                    }
                }
                return Err(VennError::MalformedPartition);
            }
            recs.push((id, info));
            proof {
                lemma_auto_spec_u64_to_from_le_bytes();
                assert(spec_u64_to_le_bytes(size) =~= bytes@.subrange(pos + 17, pos + 25));
                let new_view = spec_active_view(recs@);
                assert(new_view =~= old_view.push(entry));
                if spec_parse_slots(bytes@, pos + 25 + size) is Some {
                    let rest = spec_parse_slots(bytes@, pos + 25 + size)->Some_0;
                    assert(old_view + (seq![entry] + rest) =~= new_view + rest);
                }
                assert forall|i: int| 0 <= i < recs@.len() implies spec_slot_ok(
                    bytes@,
                    (#[trigger] new_view[i]).0,
                    new_view[i].1,
                ) by {
                    if i < recs@.len() - 1 {
                        assert(new_view[i] == old_view[i]);
                        assert(spec_slot_ok(bytes@, old_view[i].0, old_view[i].1));
                    } else {
                        assert(new_view[i] == entry);
                        assert(bytes@.subrange(pos as int, pos + 25) =~= spec_record_header(
                            id@,
                            info.is_active,
                            size,
                        ));
                    }
                }
                assert forall|i: int| 0 <= i < recs@.len() implies (#[trigger] new_view[i]).1.start
                    == spec_slot_start(new_view, i) by {
                    if i < recs@.len() - 1 {
                        assert(new_view[i] == old_view[i]);
                        if i > 0 {
                            assert(new_view[i - 1] == old_view[i - 1]);
                        }
                        assert(old_view[i].1.start == spec_slot_start(old_view, i));
                    } else {
                        if i > 0 {
                            assert(new_view[i - 1] == old_view[i - 1]);
                        }
                    }
                }
                assert(spec_unique_ids(new_view)) by {
                    assert forall|a: int, b: int| 0 <= a < b < new_view.len() implies new_view[a].0
                        != new_view[b].0 by {
                        if b < new_view.len() - 1 {
                            assert(new_view[a] == old_view[a]);
                            assert(new_view[b] == old_view[b]);
                        } else {
                            assert(new_view[a] == old_view[a]);
                            assert(!(exists|k: int|
                                0 <= k < old_view.len() && (#[trigger] old_view[k]).0 == id@));
                        }
                    }
                }
            }
            pos = pos + 25 + data_len;
        }
        proof {
            assert(spec_parse_slots(bytes@, pos as int) == Some(
                Seq::<(Seq<u8>, RecordInformation)>::empty(),
            ));
            assert(spec_active_view(recs@) + Seq::<(Seq<u8>, RecordInformation)>::empty()
                =~= spec_active_view(recs@));
        }
        if (pos as u64) > u64::MAX - 25 {
            return Err(VennError::MalformedPartition);
        }
        let p = Partition {
            records: recs,
            created_at,
            last_compaction,
            next_start: (pos as u64) + 25,
            file: Ghost(bytes@),
        };
        proof {
            lemma_i64_bits_round_trip_rev(spec_u64_from_le_bytes(bytes@.subrange(0, 8)));
            lemma_i64_bits_round_trip_rev(spec_u64_from_le_bytes(bytes@.subrange(8, 16)));
            assert(p.spec_records() =~= spec_active_view(p.records@));
            assert(bytes@.subrange(0, 16) =~= spec_partition_header(
                p.spec_created_at(),
                p.spec_last_compaction(),
            ));
            assert(p.wf());
        }
        Ok(p)
    }
}

/// Whether any element of `recs` carries `id`.
fn self_contains(recs: &Vec<(Vec<u8>, RecordInformation)>, id: &[u8]) -> (r: bool)
    ensures
        r == exists|k: int|
            0 <= k < recs@.len() && (#[trigger] spec_active_view(recs@)[k]).0 == id@,
{
    let n = recs.len();
    let mut i: usize = 0;
    while i < n
        invariant
            0 <= i <= n,
            n == recs@.len(),
            forall|k: int| 0 <= k < i ==> (#[trigger] spec_active_view(recs@)[k]).0 != id@,
        decreases n - i,
    {
        if id_eq(recs[i].0.as_slice(), id) {
            proof {
                assert(spec_active_view(recs@)[i as int].0 == id@);
            }
            return true;
        }
        i = i + 1;
    }
    false
}

/// The active slots of an indexed sequence, in order.
pub open spec fn spec_active_slots(recs: Seq<(Seq<u8>, RecordInformation)>) -> Seq<
    (Seq<u8>, RecordInformation),
>
    decreases recs.len(),
{
    if recs.len() == 0 {
        Seq::empty()
    } else {
        spec_active_slots(recs.drop_last()) + if recs.last().1.is_active {
            seq![recs.last()]
        } else {
            Seq::empty()
        }
    }
}

/// The indexed view of an owned slot vector.
pub open spec fn spec_active_view(v: Seq<(Vec<u8>, RecordInformation)>) -> Seq<
    (Seq<u8>, RecordInformation),
> {
    Seq::new(v.len(), |i: int| (v[i].0@, v[i].1))
}

/// Copies one record's data out of a fully read partition file.
pub fn read_record_data(file_bytes: &[u8], info: &RecordInformation) -> (r: Vec<u8>)
    requires
        info.start + info.size <= file_bytes@.len(),
    ensures
        r@ == file_bytes@.subrange(info.start as int, info.start + info.size),
{
    let n: usize = file_bytes.len();
    proof {
        assert(info.start + info.size <= n);
    }
    let s: usize = info.start as usize;
    let e: usize = (info.start + info.size) as usize;
    slice_to_vec(slice_subrange(file_bytes, s, e))
}

/// Chained slots end where the sizes say: the start of the slot after the
/// last equals the header offset plus every slot's header and data.
proof fn lemma_slots_total(recs: Seq<(Seq<u8>, RecordInformation)>)
    requires
        forall|i: int|
            0 <= i < recs.len() ==> (#[trigger] recs[i]).1.start == spec_slot_start(recs, i),
    ensures
        (if recs.len() == 0 {
            41int
        } else {
            spec_slot_start(recs, recs.len() as int)
        }) == 41 + spec_slots_size(recs),
    decreases recs.len(),
{
    if recs.len() > 0 {
        let prefix = recs.drop_last();
        assert forall|i: int|
            0 <= i < prefix.len() implies (#[trigger] prefix[i]).1.start == spec_slot_start(
            prefix,
            i,
        ) by {
            assert(prefix[i] == recs[i]);
            if i > 0 {
                assert(prefix[i - 1] == recs[i - 1]);
            }
            assert(recs[i].1.start == spec_slot_start(recs, i));
        }
        lemma_slots_total(prefix);
        let n = recs.len() as int;
        assert(recs[n - 1].1.start == spec_slot_start(recs, n - 1));
        if n - 1 > 0 {
            assert(prefix[n - 2] == recs[n - 2]);
        }
    }
}

/// The partition file's length is the 16-byte header plus, for each
/// record, its 25-byte record header and its data.
pub proof fn lemma_partition_file_size(p: &Partition)
    requires
        p.wf(),
    ensures
        p.spec_file().len() == 16 + spec_slots_size(p.spec_records()),
{
    lemma_slots_total(p.spec_records());
}

/// Two record headers with the same bytes describe the same id, flag and
/// size.
proof fn lemma_record_header_injective(
    id1: Seq<u8>,
    a1: bool,
    s1: u64,
    id2: Seq<u8>,
    a2: bool,
    s2: u64,
)
    requires
        id1.len() == 16,
        id2.len() == 16,
        spec_record_header(id1, a1, s1) == spec_record_header(id2, a2, s2),
    ensures
        id1 == id2,
        a1 == a2,
        s1 == s2,
{
    lemma_auto_spec_u64_to_from_le_bytes();
    let h1 = spec_record_header(id1, a1, s1);
    let h2 = spec_record_header(id2, a2, s2);
    assert(h1[0] == spec_flag_byte(a1));
    assert(h2[0] == spec_flag_byte(a2));
    assert(id1 =~= h1.subrange(1, 17));
    assert(id2 =~= h2.subrange(1, 17));
    assert(spec_u64_to_le_bytes(s1) =~= h1.subrange(17, 25));
    assert(spec_u64_to_le_bytes(s2) =~= h2.subrange(17, 25));
    assert(spec_u64_from_le_bytes(spec_u64_to_le_bytes(s1)) == s1);
    assert(spec_u64_from_le_bytes(spec_u64_to_le_bytes(s2)) == s2);
}

/// Up to index `k`, two well-formed indexes of the same file agree.
#[verifier::rlimit(60)]
proof fn lemma_records_prefix_agree(p1: &Partition, p2: &Partition, k: int)
    requires
        p1.wf(),
        p2.wf(),
        p1.spec_file() == p2.spec_file(),
        0 <= k,
        k <= p1.spec_records().len(),
        k <= p2.spec_records().len(),
    ensures
        forall|j: int| 0 <= j < k ==> p1.spec_records()[j] == p2.spec_records()[j],
    decreases k,
{
    if k > 0 {
        lemma_records_prefix_agree(p1, p2, k - 1);
        let r1 = p1.spec_records()[k - 1];
        let r2 = p2.spec_records()[k - 1];
        assert(r1.1.start == spec_slot_start(p1.spec_records(), k - 1));
        assert(r2.1.start == spec_slot_start(p2.spec_records(), k - 1));
        assert(r1.1.start == r2.1.start);
        let f = p1.spec_file();
        assert(spec_slot_ok(f, r1.0, r1.1));
        assert(spec_slot_ok(f, r2.0, r2.1));
        assert(f.subrange(r1.1.start - 25, r1.1.start as int) == spec_record_header(
            r1.0,
            r1.1.is_active,
            r1.1.size,
        ));
        assert(f.subrange(r2.1.start - 25, r2.1.start as int) == spec_record_header(
            r2.0,
            r2.1.is_active,
            r2.1.size,
        ));
        lemma_record_header_injective(
            r1.0,
            r1.1.is_active,
            r1.1.size,
            r2.0,
            r2.1.is_active,
            r2.1.size,
        );
        assert(r1 == r2);
    }
}

/// A well-formed index never extends past the file it describes, so two
/// well-formed indexes of the same file have the same number of records.
proof fn lemma_records_same_len(p1: &Partition, p2: &Partition)
    requires
        p1.wf(),
        p2.wf(),
        p1.spec_file() == p2.spec_file(),
    ensures
        p1.spec_records().len() == p2.spec_records().len(),
{
    if p1.spec_records().len() < p2.spec_records().len() {
        let n = p1.spec_records().len() as int;
        lemma_records_prefix_agree(p1, p2, n);
        let extra = p2.spec_records()[n];
        assert(extra.1.start == spec_slot_start(p2.spec_records(), n));
        if n == 0 {
            assert(extra.1.start == 41);
            assert(p1.spec_next_start() == 41);
        } else {
            assert(p2.spec_records()[n - 1] == p1.spec_records()[n - 1]);
            assert(extra.1.start == spec_slot_start(p1.spec_records(), n));
        }
        assert(extra.1.start == p1.spec_next_start());
        assert(extra.1.start == p1.spec_file().len() + 25);
        assert(spec_slot_ok(p2.spec_file(), extra.0, extra.1));
        assert(extra.1.start + extra.1.size <= p2.spec_file().len());
        assert(false);
    }
    if p2.spec_records().len() < p1.spec_records().len() {
        let n = p2.spec_records().len() as int;
        lemma_records_prefix_agree(p2, p1, n);
        let extra = p1.spec_records()[n];
        assert(extra.1.start == spec_slot_start(p1.spec_records(), n));
        if n == 0 {
            assert(extra.1.start == 41);
            assert(p2.spec_next_start() == 41);
        } else {
            assert(p1.spec_records()[n - 1] == p2.spec_records()[n - 1]);
            assert(extra.1.start == spec_slot_start(p2.spec_records(), n));
        }
        assert(extra.1.start == p2.spec_next_start());
        assert(extra.1.start == p2.spec_file().len() + 25);
        assert(spec_slot_ok(p1.spec_file(), extra.0, extra.1));
        assert(extra.1.start + extra.1.size <= p1.spec_file().len());
        assert(false);
    }
}

/// Re-opening a partition file reconstructs the same index: two
/// well-formed partitions over the same bytes have the same records,
/// timestamps and append cursor.
pub proof fn lemma_same_file_same_partition(p1: &Partition, p2: &Partition)
    requires
        p1.wf(),
        p2.wf(),
        p1.spec_file() == p2.spec_file(),
    ensures
        p1.spec_records() == p2.spec_records(),
        p1.spec_created_at() == p2.spec_created_at(),
        p1.spec_last_compaction() == p2.spec_last_compaction(),
        p1.spec_next_start() == p2.spec_next_start(),
{
    lemma_records_same_len(p1, p2);
    lemma_records_prefix_agree(p1, p2, p1.spec_records().len() as int);
    assert(p1.spec_records() =~= p2.spec_records());
    let h1 = spec_partition_header(p1.spec_created_at(), p1.spec_last_compaction());
    let h2 = spec_partition_header(p2.spec_created_at(), p2.spec_last_compaction());
    assert(h1 == h2);
    lemma_auto_spec_u64_to_from_le_bytes();
    crate::binio::lemma_i64_le_bytes_round_trip(p1.spec_created_at());
    crate::binio::lemma_i64_le_bytes_round_trip(p2.spec_created_at());
    crate::binio::lemma_i64_le_bytes_round_trip(p1.spec_last_compaction());
    crate::binio::lemma_i64_le_bytes_round_trip(p2.spec_last_compaction());
    assert(spec_i64_to_le_bytes(p1.spec_created_at()) =~= h1.subrange(0, 8));
    assert(spec_i64_to_le_bytes(p2.spec_created_at()) =~= h2.subrange(0, 8));
    assert(spec_i64_to_le_bytes(p1.spec_last_compaction()) =~= h1.subrange(8, 16));
    assert(spec_i64_to_le_bytes(p2.spec_last_compaction()) =~= h2.subrange(8, 16));
    assert(spec_i64_from_le_bytes(spec_i64_to_le_bytes(p1.spec_created_at()))
        == p1.spec_created_at());
}

/// From slot `i`'s header position on, a well-formed partition's file
/// parses back to exactly the slots from `i` on.
#[verifier::rlimit(100)]
#[verifier::spinoff_prover]
proof fn lemma_parse_suffix(p: &Partition, i: int)
    requires
        p.wf(),
        0 <= i <= p.spec_records().len(),
    ensures
        spec_parse_slots(
            p.spec_file(),
            if i == p.spec_records().len() {
                p.spec_file().len() as int
            } else {
                p.spec_records()[i].1.start - 25
            },
        ) == Some(p.spec_records().skip(i)),
    decreases p.spec_records().len() - i,
{
    lemma_auto_spec_u64_to_from_le_bytes();
    let file = p.spec_file();
    let recs = p.spec_records();
    if i == recs.len() {
        assert(spec_parse_slots(file, file.len() as int) == Some(
            Seq::<(Seq<u8>, RecordInformation)>::empty(),
        ));
        assert(recs.skip(i) =~= Seq::<(Seq<u8>, RecordInformation)>::empty());
    } else {
        lemma_parse_suffix(p, i + 1);
        let id = recs[i].0;
        let info = recs[i].1;
        let pos = info.start - 25;
        assert(spec_slot_ok(file, id, info));
        assert(info.start == spec_slot_start(recs, i));
        let header = spec_record_header(id, info.is_active, info.size);
        assert(file.subrange(pos, info.start as int) == header);
        assert(file[pos] == file.subrange(pos, info.start as int)[0]);
        assert(file[pos] == spec_flag_byte(info.is_active));
        assert(file.subrange(pos + 1, pos + 17) =~= header.subrange(1, 17));
        assert(header.subrange(1, 17) =~= id);
        assert(file.subrange(pos + 17, pos + 25) =~= header.subrange(17, 25));
        assert(header.subrange(17, 25) =~= spec_u64_to_le_bytes(info.size));
        assert(spec_u64_from_le_bytes(file.subrange(pos + 17, pos + 25)) == info.size);
        let next = pos + 25 + info.size;
        if i + 1 == recs.len() {
            assert(spec_slot_start(recs, i + 1) == info.start + info.size + 25);
            assert(p.spec_next_start() == info.start + info.size + 25);
            assert(next == file.len());
        } else {
            assert(recs[i + 1].1.start == spec_slot_start(recs, i + 1));
            assert(next == recs[i + 1].1.start - 25);
        }
        assert(spec_parse_slots(file, next) == Some(recs.skip(i + 1)));
        let entry = (
            id,
            RecordInformation {
                is_active: file[pos] == 0x80u8,
                start: (pos + 25) as u64,
                size: info.size,
            },
        );
        assert(entry.1.is_active == info.is_active);
        assert(entry.1.start == info.start);
        assert(entry == recs[i]);
        assert(spec_parse_slots(file, pos) == Some(seq![entry] + recs.skip(i + 1)));
        assert(seq![recs[i]] + recs.skip(i + 1) =~= recs.skip(i));
    }
}

/// A well-formed partition's file bytes are a well-formed partition file,
/// and parsing them back yields exactly the partition's slots: the
/// serialize side of re-opening.
pub proof fn lemma_wf_file_reparses(p: &Partition)
    requires
        p.wf(),
    ensures
        spec_partition_bytes_ok(p.spec_file()),
        spec_parse_slots(p.spec_file(), 16) == Some(p.spec_records()),
{
    lemma_parse_suffix(p, 0);
    let recs = p.spec_records();
    if recs.len() == 0 {
        assert(p.spec_file().len() == 16);
    } else {
        assert(recs[0].1.start == spec_slot_start(recs, 0));
        assert(recs[0].1.start - 25 == 16);
    }
    assert(recs.skip(0) =~= recs);
    assert(p.spec_file().len() + 25 <= u64::MAX) by {
        assert(p.spec_next_start() == p.spec_file().len() + 25);
    }
}

/// Appending a fresh slot at `next_start` preserves well-formedness.
proof fn lemma_push_preserves_wf(p0: Partition, p1: Partition, id: Seq<u8>, data: Seq<u8>)
    requires
        p0.wf(),
        id.len() == 16,
        !p0.spec_contains_id(id),
        data.len() as u64 as int == data.len(),
        p0.spec_next_start() + 25 + data.len() <= u64::MAX,
        p1.spec_file() == p0.spec_file() + spec_record_slot(id, true, data),
        p1.spec_records() == p0.spec_records().push(
            (
                id,
                RecordInformation {
                    is_active: true,
                    start: p0.spec_next_start(),
                    size: data.len() as u64,
                },
            ),
        ),
        p1.spec_next_start() == p0.spec_next_start() + 25 + data.len(),
        p1.spec_created_at() == p0.spec_created_at(),
        p1.spec_last_compaction() == p0.spec_last_compaction(),
    ensures
        p1.wf(),
{
    lemma_auto_spec_u64_to_from_le_bytes();
    let f0 = p0.spec_file();
    let f1 = p1.spec_file();
    let slot = spec_record_slot(id, true, data);
    let n = p0.spec_records().len() as int;
    assert(f1.len() == f0.len() + 25 + data.len());
    assert(f1.subrange(0, 16) =~= f0.subrange(0, 16));
    assert forall|i: int| 0 <= i < n implies spec_slot_ok(
        f1,
        p1.spec_records()[i].0,
        (#[trigger] p1.spec_records()[i]).1,
    ) by {
        assert(p1.spec_records()[i] == p0.spec_records()[i]);
        assert(spec_slot_ok(f0, p0.spec_records()[i].0, p0.spec_records()[i].1));
        let info = p0.spec_records()[i].1;
        assert(f1.subrange(info.start - 25, info.start as int) =~= f0.subrange(
            info.start - 25,
            info.start as int,
        ));
    }
    let newinfo = p1.spec_records()[n].1;
    assert(newinfo.start == p0.spec_next_start());
    assert(newinfo.start - 25 == f0.len());
    assert(f1.subrange(newinfo.start - 25, newinfo.start as int) =~= spec_record_header(
        id,
        true,
        data.len() as u64,
    ));
    assert(spec_slot_ok(f1, id, newinfo));
    assert forall|i: int| 0 <= i < n + 1 implies (#[trigger] p1.spec_records()[i]).1.start
        == spec_slot_start(p1.spec_records(), i) by {
        if i < n {
            assert(p0.spec_records()[i].1.start == spec_slot_start(p0.spec_records(), i));
            if i > 0 {
                assert(p1.spec_records()[i - 1] == p0.spec_records()[i - 1]);
            }
        } else {
            if n > 0 {
                assert(p1.spec_records()[n - 1] == p0.spec_records()[n - 1]);
                assert(p0.spec_next_start() == spec_slot_start(p0.spec_records(), n));
            }
        }
    }
    assert(spec_unique_ids(p1.spec_records())) by {
        assert forall|i: int, j: int| 0 <= i < j < n + 1 implies p1.spec_records()[i].0
            != p1.spec_records()[j].0 by {
            if j < n {
                assert(p0.spec_records()[i].0 != p0.spec_records()[j].0);
            } else {
                assert(p1.spec_records()[i] == p0.spec_records()[i]);
                if p0.spec_records()[i].0 == id {
                    assert(p0.spec_contains_id(id));
                }
            }
        }
    }
}

} // verus!
