//! The database coordinator: the mapping from MIME type to partition, the
//! tag map, record insertion and retrieval, directory-format bootstrap,
//! and the query front door.
//!
//! File input and output stay with the caller: every operation says in
//! its contract which bytes belong on disk afterwards.

use vstd::prelude::*;
use vstd::utf8::encode_utf8;
use crate::binio::str_eq;
use crate::mime::{MimeType, VennTimestamp, base64_of};
use crate::partition::{Partition, RecordInformation, spec_partition_bytes_ok, spec_record_slot, spec_partition_header, spec_active_slots, spec_active_view};
use crate::tags::{InvertedIndexMap, spec_add_tags, spec_tags_for_id, spec_wf_entries};
use crate::mapjson::{spec_map_json, spec_parse_map};
use crate::query::{QueryNode, spec_eval, parse_query, ast_of};
use crate::ids::{fresh_record_id, uuid_to_string, spec_uuid_string};
use crate::resize::{Dimensions, is_resizeable_format};
use crate::VennError;

verus! {

/// An operation's failure, carrying its kind.
#[derive(Clone, Copy, PartialEq, Eq, Structural, Debug)]
pub struct VennbaseError(pub VennError);

/// One top-level entry of the database directory, as the caller read it.
pub struct DirEntry {
    pub filename: String,
    pub bytes: Vec<u8>,
}

/// The view of a directory listing.
pub open spec fn spec_dir_view(v: Seq<DirEntry>) -> Seq<(Seq<char>, Seq<u8>)> {
    Seq::new(v.len(), |i: int| (v[i].filename@, v[i].bytes@))
}

/// The entries that name partitions: everything but `.map`.
pub open spec fn spec_kept(entries: Seq<(Seq<char>, Seq<u8>)>) -> Seq<(Seq<char>, Seq<u8>)>
    decreases entries.len(),
{
    if entries.len() == 0 {
        Seq::empty()
    } else {
        spec_kept(entries.drop_last()) + if entries.last().0 == ".map"@ {
            Seq::empty()
        } else {
            seq![entries.last()]
        }
    }
}

/// Whether a file name is the base64 encoding of some string.
pub open spec fn spec_filename_ok(name: Seq<char>) -> bool {
    exists|t: Seq<char>| name == base64_of(encode_utf8(t))
}

/// Whether a directory listing and `.map` text form an openable database:
/// every partition file name decodes, every partition file parses, no two
/// names repeat, and the tag map parses well-formed.
pub open spec fn spec_from_dir_ok(
    kept: Seq<(Seq<char>, Seq<u8>)>,
    map_json: Seq<char>,
) -> bool {
    &&& forall|i: int| 0 <= i < kept.len() ==> spec_filename_ok((#[trigger] kept[i]).0)
    &&& forall|i: int| 0 <= i < kept.len() ==> spec_partition_bytes_ok((#[trigger] kept[i]).1)
    &&& forall|i: int, j: int| 0 <= i < j < kept.len() ==> kept[i].0 != kept[j].0
    &&& (spec_parse_map(map_json) matches Some(e) && spec_wf_entries(e))
}

/// What a record fetch hands the caller: where the record lives, and
/// whether the caller must transcode it before sending.
pub struct FetchOutcome {
    pub mime: MimeType,
    pub filename: String,
    pub info: RecordInformation,
    pub transcode: bool,
}

/// What a save hands the caller: the new record's id and the bytes that
/// now belong on disk.
pub struct SaveOutcome {
    pub id: Vec<u8>,
    pub partition_filename: String,
    pub new_partition_header: Option<Vec<u8>>,
    pub record_slot: Vec<u8>,
    pub map_json: String,
}

/// The database: one partition per MIME type, plus the tag map.
pub struct Vennbase {
    partitions: Vec<(MimeType, Partition)>,
    tags: InvertedIndexMap,
}

/// What a successful save promises: a globally fresh id, the exact slot
/// bytes, the tag map extended and re-serialized, and the named partition
/// extended (or freshly created) by exactly one record.
pub open spec fn spec_save_ok(
    pre: Vennbase,
    post: Vennbase,
    mime: Seq<char>,
    data: Seq<u8>,
    ts: Seq<Seq<char>>,
    o: SaveOutcome,
) -> bool {
    &&& o.id@.len() == 16
    &&& !(exists|j: int|
        0 <= j < pre.spec_partitions().len() && (
        #[trigger] pre.spec_partitions()[j]).1.spec_contains_id(o.id@))
    &&& o.record_slot@ == spec_record_slot(o.id@, true, data)
    &&& o.partition_filename@ == base64_of(encode_utf8(mime))
    &&& post.spec_tag_entries() == spec_add_tags(
        pre.spec_tag_entries(),
        ts,
        spec_uuid_string(o.id@),
    )
    &&& o.map_json@ == spec_map_json(post.spec_tag_entries())
    &&& (o.new_partition_header is None ==> spec_save_existing(pre, post, mime, data, o))
    &&& (o.new_partition_header matches Some(h) ==> spec_save_fresh(pre, post, mime, data, o, h@))
}

/// The record landed in the partition that already carried `mime`.
pub open spec fn spec_save_existing(
    pre: Vennbase,
    post: Vennbase,
    mime: Seq<char>,
    data: Seq<u8>,
    o: SaveOutcome,
) -> bool {
    exists|k: int|
        {
            &&& 0 <= k < pre.spec_partitions().len()
            &&& (#[trigger] pre.spec_partitions()[k]).0 == mime
            &&& post.spec_partitions().len() == pre.spec_partitions().len()
            &&& (forall|j: int|
                0 <= j < pre.spec_partitions().len() && j != k
                    ==> #[trigger] post.spec_partitions()[j] == pre.spec_partitions()[j])
            &&& post.spec_partitions()[k].0 == mime
            &&& post.spec_partitions()[k].1.spec_records() == pre.spec_partitions()[
                k
            ].1.spec_records().push(
                (
                    o.id@,
                    RecordInformation {
                        is_active: true,
                        start: pre.spec_partitions()[k].1.spec_next_start(),
                        size: data.len() as u64,
                    },
                ),
            )
            &&& post.spec_partitions()[k].1.spec_file() == pre.spec_partitions()[k].1.spec_file()
                + o.record_slot@
        }
}

/// The record landed in a freshly created partition for `mime`.
pub open spec fn spec_save_fresh(
    pre: Vennbase,
    post: Vennbase,
    mime: Seq<char>,
    data: Seq<u8>,
    o: SaveOutcome,
    header: Seq<u8>,
) -> bool {
    let k = pre.spec_partitions().len() as int;
    &&& (forall|j: int| 0 <= j < k ==> (#[trigger] pre.spec_partitions()[j]).0 != mime)
    &&& post.spec_partitions().len() == k + 1
    &&& (forall|j: int|
        0 <= j < k ==> #[trigger] post.spec_partitions()[j] == pre.spec_partitions()[j])
    &&& post.spec_partitions()[k].0 == mime
    &&& post.spec_partitions()[k].1.spec_records() == seq![
        (o.id@, RecordInformation { is_active: true, start: 41u64, size: data.len() as u64 }),
    ]
    &&& header.len() == 16
    &&& post.spec_partitions()[k].1.spec_file() == header + o.record_slot@
}

/// The first partition whose index holds `id`, or -1.
pub open spec fn spec_find_partition(parts: Seq<(Seq<char>, Partition)>, id: Seq<u8>) -> int
    decreases parts.len(),
{
    if parts.len() == 0 {
        -1
    } else if parts[0].1.spec_contains_id(id) {
        0
    } else {
        let r = spec_find_partition(parts.drop_first(), id);
        if r < 0 {
            -1
        } else {
            r + 1
        }
    }
}

/// A scan that finds `id` in partition `k` after none before finds the
/// first holder.
proof fn lemma_find_partition_found(parts: Seq<(Seq<char>, Partition)>, id: Seq<u8>, k: int)
    requires
        0 <= k < parts.len(),
        parts[k].1.spec_contains_id(id),
        forall|j: int| 0 <= j < k ==> !(#[trigger] parts[j]).1.spec_contains_id(id),
    ensures
        spec_find_partition(parts, id) == k,
    decreases k,
{
    if k > 0 {
        let tail = parts.drop_first();
        assert forall|j: int| 0 <= j < k - 1 implies !(#[trigger] tail[j]).1.spec_contains_id(
            id,
        ) by {
            assert(tail[j] == parts[j + 1]);
        }
        assert(tail[k - 1] == parts[k]);
        lemma_find_partition_found(tail, id, k - 1);
    }
}

/// A scan that finds `id` nowhere means no partition holds it.
proof fn lemma_find_partition_none(parts: Seq<(Seq<char>, Partition)>, id: Seq<u8>)
    requires
        forall|j: int| 0 <= j < parts.len() ==> !(#[trigger] parts[j]).1.spec_contains_id(id),
    ensures
        spec_find_partition(parts, id) == -1,
    decreases parts.len(),
{
    if parts.len() > 0 {
        let tail = parts.drop_first();
        assert forall|j: int| 0 <= j < tail.len() implies !(#[trigger] tail[j]).1.spec_contains_id(
            id,
        ) by {
            assert(tail[j] == parts[j + 1]);
        }
        lemma_find_partition_none(tail, id);
    }
}

impl Vennbase {
    /// The partitions, keyed by MIME string, in creation order.
    pub closed spec fn spec_partitions(&self) -> Seq<(Seq<char>, Partition)> {
        Seq::new(self.partitions@.len(), |i: int| (self.partitions@[i].0@, self.partitions@[i].1))
    }

    /// The tag map's entries.
    pub closed spec fn spec_tag_entries(&self) -> Seq<(Seq<char>, Seq<Seq<char>>)> {
        self.tags.spec_entries()
    }

    /// Well-formedness: MIME keys unique, every partition and the tag map
    /// well formed.
    pub open spec fn wf(&self) -> bool {
        &&& forall|i: int, j: int|
            0 <= i < j < self.spec_partitions().len() ==> self.spec_partitions()[i].0
                != self.spec_partitions()[j].0
        &&& forall|i: int|
            0 <= i < self.spec_partitions().len() ==> (#[trigger] self.spec_partitions()[i]).1.wf()
        &&& spec_wf_entries(self.spec_tag_entries())
    }

    /// An empty database, as created in a fresh directory.
    pub fn new() -> (r: Vennbase)
        ensures
            r.wf(),
            r.spec_partitions().len() == 0,
            r.spec_tag_entries().len() == 0,
    {
        let r = Vennbase { partitions: Vec::new(), tags: InvertedIndexMap::new() };
        proof {
            assert(r.spec_partitions() =~= Seq::<(Seq<char>, Partition)>::empty());
        }
        r
    }

    /// The text the `.map` file must hold for the current tag map.
    pub fn tags_json(&self) -> (r: String)
        ensures
            r@ == spec_map_json(self.spec_tag_entries()),
    {
        self.tags.to_map_json()
    }

    /// How many partitions the database holds.
    pub fn partition_count(&self) -> (r: usize)
        ensures
            r == self.spec_partitions().len(),
    {
        self.partitions.len()
    }

    /// Every tag attached to a record, in tag-map order.
    pub fn get_tags_for_record(&self, record_id: &[u8]) -> (r: Vec<String>)
        requires
            record_id@.len() == 16,
        ensures
            crate::tags::spec_strs_view(r@) == spec_tags_for_id(
                self.spec_tag_entries(),
                spec_uuid_string(record_id@),
            ),
    {
        let id_str = uuid_to_string(record_id);
        self.tags.get_tags_for_id(id_str.as_str())
    }

    /// Deletion is reserved: a defined no-op that records intent.
    pub fn delete_record(&mut self, id: &str)
        ensures
            *final(self) == *old(self),
    {
    }

    /// Replacement is reserved: a defined no-op that records intent.
    pub fn replace_record(&mut self, id: &str, data: &[u8])
        ensures
            *final(self) == *old(self),
    {
    }

    /// The position of `mime`'s partition, if any.
    fn find_partition_by_mime(&self, mime: &str) -> (r: Option<usize>)
        ensures
            r matches Some(k) ==> k < self.spec_partitions().len() && self.spec_partitions()[
                k as int
            ].0 == mime@,
            r is None ==> forall|j: int|
                0 <= j < self.spec_partitions().len() ==> (#[trigger] self.spec_partitions()[
                    j
                ]).0 != mime@,
    {
        let n = self.partitions.len();
        let mut i: usize = 0;
        while i < n
            invariant
                0 <= i <= n,
                n == self.spec_partitions().len(),
                forall|j: int| 0 <= j < i ==> (#[trigger] self.spec_partitions()[j]).0 != mime@,
            decreases n - i,
        {
            if str_eq(self.partitions[i].0.as_str(), mime) {
                proof {
                    assert(self.spec_partitions()[i as int].0 == mime@);
                }
                return Some(i);
            }
            i = i + 1;
        }
        None
    }

    /// Whether any partition's index holds `id`.
    fn contains_id_anywhere(&self, id: &[u8]) -> (r: bool)
        ensures
            r == exists|j: int|
                0 <= j < self.spec_partitions().len() && (#[trigger] self.spec_partitions()[
                    j
                ]).1.spec_contains_id(id@),
    {
        let n = self.partitions.len();
        let mut i: usize = 0;
        while i < n
            invariant
                0 <= i <= n,
                n == self.spec_partitions().len(),
                forall|j: int|
                    0 <= j < i ==> !(#[trigger] self.spec_partitions()[j]).1.spec_contains_id(id@),
            decreases n - i,
        {
            if self.partitions[i].1.contains_id_exec(id) {
                proof {
                    assert(self.spec_partitions()[i as int].1.spec_contains_id(id@));
                }
                return true;
            }
            i = i + 1;
        }
        false
    }

    /// Saves a new record and attaches its tags.
    ///
    /// The returned outcome carries what now belongs on disk: the
    /// partition's file name, its 16-byte header if the partition is new,
    /// the record slot to append, and the whole `.map` text. Fails,
    /// changing nothing, only if no globally fresh id was drawn or the
    /// partition file would outgrow a 64-bit offset.
    #[verifier::rlimit(100)]
    pub fn save_record(&mut self, mimetype: &MimeType, data: &[u8], tags: Vec<String>) -> (r:
        Result<SaveOutcome, VennbaseError>)
        requires
            old(self).wf(),
        ensures
            final(self).wf(),
            r is Err ==> {
                &&& final(self).spec_partitions() == old(self).spec_partitions()
                &&& final(self).spec_tag_entries() == old(self).spec_tag_entries()
                &&& r == Err::<SaveOutcome, VennbaseError>(VennbaseError(VennError::Io))
            },
            r matches Ok(o) ==> spec_save_ok(
                *old(self),
                *final(self),
                mimetype@,
                data@,
                crate::tags::spec_strs_view(tags@),
                o,
            ),
    {
        let ghost parts0 = self.spec_partitions();
        let ghost tags0 = self.spec_tag_entries();
        let mut id = fresh_record_id();
        let mut attempts: usize = 0;
        let mut dup = self.contains_id_anywhere(id.as_slice());
        while dup && attempts < 64
            invariant
                *self == *old(self),
                old(self).wf(),
                id@.len() == 16,
                dup == exists|j: int|
                    0 <= j < self.spec_partitions().len() && (#[trigger] self.spec_partitions()[
                        j
                    ]).1.spec_contains_id(id@),
            decreases 64 - attempts,
        {
            id = fresh_record_id();
            dup = self.contains_id_anywhere(id.as_slice());
            attempts = attempts + 1;
        }
        if dup {
            return Err(VennbaseError(VennError::Io));
        }
        let id_copy = vstd::slice::slice_to_vec(id.as_slice());
        let id_str = uuid_to_string(id.as_slice());
        let filename = mimetype.to_base64_pathname();
        match self.find_partition_by_mime(mimetype.as_str()) {
            Some(k) => {
                let (key, mut part) = self.partitions.remove(k);
                proof {
                    assert(parts0[k as int].1 == part);
                    assert(!part.spec_contains_id(id@)) by {
                        if part.spec_contains_id(id@) {
                            assert(parts0[k as int].1.spec_contains_id(id@));
                        }
                    }
                }
                let ghost part0 = part;
                match part.push_with_id(id, data) {
                    Ok(slot) => {
                        self.partitions.insert(k, (key, part));
                        proof {
                            assert(self.spec_partitions() =~= parts0.update(
                                k as int,
                                (mimetype@, part),
                            ));
                        }
                        add_all_tags(&mut self.tags, &tags, id_str.as_str());
                        let map_json = self.tags.to_map_json();
                        proof {
                            lemma_save_wf_existing(parts0, self.spec_partitions(), k as int);
                        }
                        Ok(
                            SaveOutcome {
                                id: id_copy,
                                partition_filename: filename,
                                new_partition_header: None,
                                record_slot: slot,
                                map_json,
                            },
                        )
                    },
                    Err(_) => {
                        self.partitions.insert(k, (key, part));
                        proof {
                            assert(self.spec_partitions() =~= parts0);
                        }
                        Err(VennbaseError(VennError::Io))
                    },
                }
            },
            None => {
                let created_at = VennTimestamp::now();
                let last_compaction = VennTimestamp::now();
                let mut part = Partition::new(created_at, last_compaction);
                let header = Partition::header_bytes(created_at, last_compaction);
                match part.push_with_id(id, data) {
                    Ok(slot) => {
                        self.partitions.push((mimetype.clone_mime(), part));
                        proof {
                            assert(self.spec_partitions() =~= parts0.push((mimetype@, part)));
                            assert(part.spec_records() =~= Seq::empty().push(
                                (
                                    id_copy@,
                                    RecordInformation {
                                        is_active: true,
                                        start: 41u64,
                                        size: data@.len() as u64,
                                    },
                                ),
                            ));
                        }
                        add_all_tags(&mut self.tags, &tags, id_str.as_str());
                        let map_json = self.tags.to_map_json();
                        proof {
                            lemma_save_wf_new(parts0, self.spec_partitions(), mimetype@);
                        }
                        Ok(
                            SaveOutcome {
                                id: id_copy,
                                partition_filename: filename,
                                new_partition_header: Some(header),
                                record_slot: slot,
                                map_json,
                            },
                        )
                    },
                    Err(_) => Err(VennbaseError(VennError::Io)),
                }
            },
        }
    }

    /// Looks a record up by id across all partitions, in partition order.
    ///
    /// Returns the first partition's hit: its MIME type, file name and
    /// slot entry, and whether the caller must transcode (the MIME type
    /// is a resizable image format and dimensions were requested).
    pub fn fetch_record_by_id(&self, record_id: &[u8], resize_dims: &Option<Dimensions>) -> (r:
        Option<FetchOutcome>)
        requires
            self.wf(),
        ensures
            r is Some <==> spec_find_partition(self.spec_partitions(), record_id@) >= 0,
            r matches Some(o) ==> {
                let k = spec_find_partition(self.spec_partitions(), record_id@);
                &&& 0 <= k < self.spec_partitions().len()
                &&& o.mime@ == self.spec_partitions()[k].0
                &&& o.filename@ == base64_of(encode_utf8(self.spec_partitions()[k].0))
                &&& exists|i: int|
                    0 <= i < self.spec_partitions()[k].1.spec_records().len()
                        && #[trigger] self.spec_partitions()[k].1.spec_records()[i] == (
                    record_id@,
                    o.info,
                    )
                &&& o.transcode == ((self.spec_partitions()[k].0 == "image/png"@
                    || self.spec_partitions()[k].0 == "image/jpeg"@ || self.spec_partitions()[k].0
                    == "image/webp"@ || self.spec_partitions()[k].0 == "image/bmp"@)
                    && resize_dims is Some)
            },
    {
        let n = self.partitions.len();
        let mut k: usize = 0;
        while k < n
            invariant
                0 <= k <= n,
                n == self.spec_partitions().len(),
                self.wf(),
                forall|j: int|
                    0 <= j < k ==> !(#[trigger] self.spec_partitions()[j]).1.spec_contains_id(
                        record_id@,
                    ),
            decreases n - k,
        {
            match self.partitions[k].1.get_record_information(record_id) {
                Some(info) => {
                    let info_copy = *info;
                    let mime = self.partitions[k].0.clone_mime();
                    let filename = mime.to_base64_pathname();
                    let transcode = is_resizeable_format(&mime) && resize_dims.is_some();
                    proof {
                        assert(self.spec_partitions()[k as int].1.spec_contains_id(record_id@));
                        lemma_find_partition_found(self.spec_partitions(), record_id@, k as int);
                    }
                    return Some(FetchOutcome { mime, filename, info: info_copy, transcode });
                },
                None => {},
            }
            k = k + 1;
        }
        proof {
            lemma_find_partition_none(self.spec_partitions(), record_id@);
        }
        None
    }

    /// Evaluates an already parsed query against every active record.
    ///
    /// Returns, in partition order and record order within each
    /// partition, the `(MIME type, id)` pairs of the active records the
    /// expression matches; fails exactly when the expression fails to
    /// evaluate on some active record.
    #[verifier::rlimit(100)]
    pub fn query_records_with(&self, ast: &QueryNode) -> (r: Result<
        Vec<(MimeType, Vec<u8>)>,
        VennbaseError,
    >)
        requires
            self.wf(),
        ensures
            r matches Ok(v) ==> Some(spec_results_view(v@)) == spec_query_all(
                *ast,
                self.spec_partitions(),
                self.spec_tag_entries(),
            ),
            r is Err <==> spec_query_all(*ast, self.spec_partitions(), self.spec_tag_entries())
                is None,
            r is Err ==> r == Err::<Vec<(MimeType, Vec<u8>)>, VennbaseError>(
                VennbaseError(VennError::InvalidExpression),
            ),
    {
        let n = self.partitions.len();
        let mut results: Vec<(MimeType, Vec<u8>)> = Vec::new();
        let mut k: usize = 0;
        proof {
            assert(spec_results_view(results@) =~= Seq::<(Seq<char>, Seq<u8>)>::empty());
            assert(self.spec_partitions().subrange(0, 0) =~= Seq::<(Seq<char>, Partition)>::empty());
        }
        while k < n
            invariant
                0 <= k <= n,
                n == self.spec_partitions().len(),
                self.wf(),
                Some(spec_results_view(results@)) == spec_query_all(
                    *ast,
                    self.spec_partitions().subrange(0, k as int),
                    self.spec_tag_entries(),
                ),
            decreases n - k,
        {
            let ghost pre_parts = self.spec_partitions().subrange(0, k as int);
            let ghost acc0 = spec_results_view(results@);
            let mime = self.partitions[k].0.clone_mime();
            let active = self.partitions[k].1.iter_active_records();
            let ghost recs = spec_active_slots(self.spec_partitions()[k as int].1.spec_records());
            proof {
                assert(spec_active_view(active@) == recs);
                assert(self.spec_partitions()[k as int].1.wf());
                lemma_active_ids_len(self.spec_partitions()[k as int].1);
            }
            match eval_partition_records(ast, &mime, &active, &self.tags, &mut results) {
                Ok(()) => {},
                Err(e) => {
                    proof {
                        assert(spec_query_partition(
                            *ast,
                            self.spec_partitions()[k as int].0,
                            spec_active_slots(self.spec_partitions()[k as int].1.spec_records()),
                            self.spec_tag_entries(),
                        ) is None);
                        lemma_query_all_none(
                            *ast,
                            self.spec_partitions(),
                            self.spec_tag_entries(),
                            k as int,
                        );
                    }
                    return Err(e);
                },
            }
            proof {
                let parts2 = self.spec_partitions().subrange(0, k + 1);
                assert(parts2.drop_last() =~= pre_parts);
                assert(parts2.last() == self.spec_partitions()[k as int]);
            }
            k = k + 1;
        }
        proof {
            assert(self.spec_partitions().subrange(0, n as int) =~= self.spec_partitions());
        }
        Ok(results)
    }

    /// Parses a query and evaluates it against every active record.
    ///
    /// Fails with `InvalidQuery` exactly when the expression does not
    /// parse (`ast_of` is `None`); for a string that parses, the result
    /// is the evaluation of its tree: the matches in partition and record
    /// order, or `InvalidExpression` exactly when the tree fails to
    /// evaluate on some active record.
    pub fn query_records(&self, query: &str) -> (r: Result<
        Vec<(MimeType, Vec<u8>)>,
        VennbaseError,
    >)
        requires
            self.wf(),
        ensures
            r matches Ok(v) ==> forall|i: int|
                0 <= i < v@.len() ==> spec_result_in_db(
                    self.spec_partitions(),
                    #[trigger] spec_results_view(v@)[i],
                ),
            r == Err::<Vec<(MimeType, Vec<u8>)>, VennbaseError>(
                VennbaseError(VennError::InvalidQuery),
            ) <==> ast_of(query@) is None,
            ast_of(query@) matches Some(ast) ==> (r matches Ok(v) ==> Some(spec_results_view(v@))
                == spec_query_all(ast, self.spec_partitions(), self.spec_tag_entries())),
            ast_of(query@) matches Some(ast) ==> (r is Err ==> spec_query_all(
                ast,
                self.spec_partitions(),
                self.spec_tag_entries(),
            ) is None && r == Err::<Vec<(MimeType, Vec<u8>)>, VennbaseError>(
                VennbaseError(VennError::InvalidExpression),
            )),
    {
        let ast = match parse_query(query) {
            Some(ast) => ast,
            None => {
                return Err(VennbaseError(VennError::InvalidQuery));
            },
        };
        match self.query_records_with(&ast) {
            Ok(v) => {
                proof {
                    lemma_query_all_sound(
                        ast,
                        self.spec_partitions(),
                        self.spec_tag_entries(),
                        spec_results_view(v@),
                    );
                }
                Ok(v)
            },
            Err(e) => Err(e),
        }
    }

    /// Opens a database from its directory listing and `.map` text.
    ///
    /// Succeeds exactly when every non-`.map` entry decodes to a MIME
    /// type, its bytes parse as a partition file, no file name repeats,
    /// and the `.map` text parses well-formed; the partitions then hold
    /// exactly those files, in listing order.
    pub fn from_dir(entries: Vec<DirEntry>, map_json: &str) -> (r: Result<Vennbase, VennbaseError>)
        ensures
            r is Ok <==> spec_from_dir_ok(spec_kept(spec_dir_view(entries@)), map_json@),
            r matches Ok(db) ==> {
                let kept = spec_kept(spec_dir_view(entries@));
                &&& db.wf()
                &&& Some(db.spec_tag_entries()) == spec_parse_map(map_json@)
                &&& db.spec_partitions().len() == kept.len()
                &&& forall|i: int|
                    0 <= i < kept.len() ==> (#[trigger] kept[i]).0 == base64_of(
                        encode_utf8(db.spec_partitions()[i].0),
                    ) && db.spec_partitions()[i].1.wf() && db.spec_partitions()[i].1.spec_file()
                        == kept[i].1
                &&& forall|i: int, t: Seq<char>|
                    0 <= i < kept.len() && (#[trigger] kept[i]).0 == base64_of(
                        #[trigger] encode_utf8(t),
                    ) ==> t == db.spec_partitions()[i].0
            },
    {
        let n = entries.len();
        let mut parts: Vec<(MimeType, Partition)> = Vec::new();
        let mut i: usize = 0;
        proof {
            assert(spec_kept(spec_dir_view(entries@).subrange(0, 0)) =~= Seq::<
                (Seq<char>, Seq<u8>),
            >::empty());
        }
        while i < n
            invariant
                0 <= i <= n,
                n == entries@.len(),
                spec_parts_match(
                    spec_kept(spec_dir_view(entries@).subrange(0, i as int)),
                    spec_parts_view(parts@),
                ),
                spec_from_dir_prefix_ok(spec_kept(spec_dir_view(entries@).subrange(0, i as int))),
            decreases n - i,
        {
            let ghost pre_kept = spec_kept(spec_dir_view(entries@).subrange(0, i as int));
            proof {
                assert(spec_dir_view(entries@).subrange(0, i + 1).drop_last() =~= spec_dir_view(
                    entries@,
                ).subrange(0, i as int));
                assert(spec_dir_view(entries@).subrange(0, i + 1).last() == spec_dir_view(
                    entries@,
                )[i as int]);
            }
            if str_eq(entries[i].filename.as_str(), ".map") {
                proof {
                    assert(spec_kept(spec_dir_view(entries@).subrange(0, i + 1)) =~= pre_kept);
                }
                i = i + 1;
                continue ;
            }
            let ghost kept2 = spec_kept(spec_dir_view(entries@).subrange(0, i + 1));
            proof {
                assert(kept2 =~= pre_kept.push(spec_dir_view(entries@)[i as int]));
            }
            let mime = match MimeType::from_base64_filename(entries[i].filename.as_str()) {
                Ok(m) => m,
                Err(_) => {
                    proof {
                        lemma_kept_prefix(spec_dir_view(entries@), i + 1);
                        assert(!spec_filename_ok(kept2[kept2.len() - 1].0));
                        assert(!spec_from_dir_ok(
                            spec_kept(spec_dir_view(entries@)),
                            map_json@,
                        )) by {
                            let full = spec_kept(spec_dir_view(entries@));
                            let w = kept2.len() - 1;
                            assert(full[w] == kept2[w]);
                        }
                    }
                    return Err(VennbaseError(VennError::Io));
                },
            };
            match filename_dup(&entries, i, entries[i].filename.as_str()) {
                Some(j) => {
                    proof {
                        lemma_kept_member(spec_dir_view(entries@), i as int, j as int);
                        lemma_kept_prefix(spec_dir_view(entries@), i as int);
                        lemma_kept_prefix(spec_dir_view(entries@), i + 1);
                        let full = spec_kept(spec_dir_view(entries@));
                        let last = kept2.len() - 1;
                        assert(full[last] == kept2[last]);
                        let w = choose|w: int|
                            0 <= w < pre_kept.len() && pre_kept[w] == spec_dir_view(entries@)[
                                j as int
                            ];
                        assert(full[w] == pre_kept[w]);
                        assert(full[w].0 == full[last].0);
                        assert(!spec_from_dir_ok(full, map_json@));
                    }
                    return Err(VennbaseError(VennError::Io));
                },
                None => {},
            }
            proof {
                lemma_kept_elements(spec_dir_view(entries@), i as int);
                assert forall|w: int| 0 <= w < pre_kept.len() implies (#[trigger] pre_kept[w]).0
                    != spec_dir_view(entries@)[i as int].0 by {
                    let j = choose|j: int|
                        0 <= j < i && pre_kept[w] == spec_dir_view(entries@)[j];
                }
            }
            let partition = match Partition::from_bytes(entries[i].bytes.as_slice()) {
                Ok(p) => p,
                Err(e) => {
                    proof {
                        lemma_kept_prefix(spec_dir_view(entries@), i + 1);
                        let full = spec_kept(spec_dir_view(entries@));
                        let w = kept2.len() - 1;
                        assert(full[w] == kept2[w]);
                        assert(!spec_partition_bytes_ok(full[w].1));
                    }
                    return Err(VennbaseError(e));
                },
            };
            parts.push((mime, partition));
            proof {
                let old_view = spec_parts_view(parts@.drop_last());
                let new_view = spec_parts_view(parts@);
                assert(new_view =~= old_view.push((parts@.last().0@, parts@.last().1)));
                assert forall|w: int, t: Seq<char>|
                    0 <= w < kept2.len() && (#[trigger] kept2[w]).0 == base64_of(
                        #[trigger] encode_utf8(t),
                    ) implies t == new_view[w].0 by {
                    if w < kept2.len() - 1 {
                        assert(kept2[w] == pre_kept[w]);
                        assert(new_view[w] == old_view[w]);
                    }
                }
                assert(spec_parts_match(kept2, new_view));
            }
            i = i + 1;
        }
        proof {
            assert(spec_dir_view(entries@).subrange(0, n as int) =~= spec_dir_view(entries@));
        }
        let tags = match InvertedIndexMap::from_map_json(map_json) {
            Some(t) => t,
            None => {
                return Err(VennbaseError(VennError::Io));
            },
        };
        let db = Vennbase { partitions: parts, tags };
        proof {
            assert(db.spec_partitions() =~= spec_parts_view(db.partitions@));
            let kept = spec_kept(spec_dir_view(entries@));
            assert(spec_parts_match(kept, db.spec_partitions()));
            assert forall|w: int| 0 <= w < db.spec_partitions().len() implies (
            #[trigger] db.spec_partitions()[w]).1.wf() by {
                assert(kept[w].0 == base64_of(encode_utf8(db.spec_partitions()[w].0)));
            }
            assert forall|a: int, b: int|
                0 <= a < b < db.spec_partitions().len() implies db.spec_partitions()[a].0
                != db.spec_partitions()[b].0 by {
                if db.spec_partitions()[a].0 == db.spec_partitions()[b].0 {
                    assert(kept[a].0 == base64_of(encode_utf8(db.spec_partitions()[a].0)));
                    assert(kept[b].0 == base64_of(encode_utf8(db.spec_partitions()[b].0)));
                }
            }
        }
        Ok(db)
    }
}

/// The position of an earlier directory entry with the same file name.
fn filename_dup(entries: &Vec<DirEntry>, upto: usize, name: &str) -> (r: Option<usize>)
    requires
        upto <= entries@.len(),
    ensures
        r matches Some(j) ==> j < upto && spec_dir_view(entries@)[j as int].0 == name@,
        r is None ==> forall|j: int|
            0 <= j < upto ==> (#[trigger] spec_dir_view(entries@)[j]).0 != name@,
{
    let mut j: usize = 0;
    while j < upto
        invariant
            0 <= j <= upto <= entries@.len(),
            forall|t: int| 0 <= t < j ==> (#[trigger] spec_dir_view(entries@)[t]).0 != name@,
        decreases upto - j,
    {
        if str_eq(entries[j].filename.as_str(), name) {
            proof {
                assert(spec_dir_view(entries@)[j as int].0 == name@);
            }
            return Some(j);
        }
        j = j + 1;
    }
    None
}

/// The view of an owned result list.
pub open spec fn spec_results_view(v: Seq<(MimeType, Vec<u8>)>) -> Seq<(Seq<char>, Seq<u8>)> {
    Seq::new(v.len(), |i: int| (v[i].0@, v[i].1@))
}

/// The matches among one partition's active slots, in order; `None` when
/// the expression fails to evaluate on one of them.
pub open spec fn spec_query_partition(
    ast: QueryNode,
    mime: Seq<char>,
    recs: Seq<(Seq<u8>, RecordInformation)>,
    tags: Seq<(Seq<char>, Seq<Seq<char>>)>,
) -> Option<Seq<(Seq<char>, Seq<u8>)>>
    decreases recs.len(),
{
    if recs.len() == 0 {
        Some(Seq::empty())
    } else {
        match spec_query_partition(ast, mime, recs.drop_last(), tags) {
            None => None,
            Some(pre) => match spec_eval(ast, mime, spec_uuid_string(recs.last().0), tags) {
                None => None,
                Some(b) => Some(
                    pre + if b {
                        seq![(mime, recs.last().0)]
                    } else {
                        Seq::empty()
                    },
                ),
            },
        }
    }
}

/// The matches across all partitions, partition by partition.
pub open spec fn spec_query_all(
    ast: QueryNode,
    parts: Seq<(Seq<char>, Partition)>,
    tags: Seq<(Seq<char>, Seq<Seq<char>>)>,
) -> Option<Seq<(Seq<char>, Seq<u8>)>>
    decreases parts.len(),
{
    if parts.len() == 0 {
        Some(Seq::empty())
    } else {
        match spec_query_all(ast, parts.drop_last(), tags) {
            None => None,
            Some(pre) => match spec_query_partition(
                ast,
                parts.last().0,
                spec_active_slots(parts.last().1.spec_records()),
                tags,
            ) {
                None => None,
                Some(cur) => Some(pre + cur),
            },
        }
    }
}

/// Whether a result pair names an active record of some partition.
pub open spec fn spec_result_in_db(
    parts: Seq<(Seq<char>, Partition)>,
    el: (Seq<char>, Seq<u8>),
) -> bool {
    exists|k: int, j: int|
        {
            &&& 0 <= k < parts.len()
            &&& 0 <= j < parts[k].1.spec_records().len()
            &&& (#[trigger] parts[k].1.spec_records()[j]).0 == el.1
            &&& parts[k].1.spec_records()[j].1.is_active
            &&& parts[k].0 == el.0
        }
}

/// A failed prefix fails the whole partition.
proof fn lemma_query_partition_none_mono(
    ast: QueryNode,
    mime: Seq<char>,
    recs: Seq<(Seq<u8>, RecordInformation)>,
    tags: Seq<(Seq<char>, Seq<Seq<char>>)>,
    i: int,
)
    requires
        0 <= i <= recs.len(),
        spec_query_partition(ast, mime, recs.subrange(0, i), tags) is None,
    ensures
        spec_query_partition(ast, mime, recs, tags) is None,
    decreases recs.len() - i,
{
    if i < recs.len() {
        assert(recs.subrange(0, i + 1).drop_last() =~= recs.subrange(0, i));
        lemma_query_partition_none_mono(ast, mime, recs, tags, i + 1);
    } else {
        assert(recs.subrange(0, i) =~= recs);
    }
}

/// A failed partition fails the whole query.
proof fn lemma_query_all_none(
    ast: QueryNode,
    parts: Seq<(Seq<char>, Partition)>,
    tags: Seq<(Seq<char>, Seq<Seq<char>>)>,
    k: int,
)
    requires
        0 <= k < parts.len(),
        spec_query_partition(
            ast,
            parts[k].0,
            spec_active_slots(parts[k].1.spec_records()),
            tags,
        ) is None,
    ensures
        spec_query_all(ast, parts, tags) is None,
    decreases parts.len(),
{
    if parts.len() > 0 {
        if k == parts.len() - 1 {
            assert(parts.last() == parts[k]);
        } else {
            assert(parts.drop_last()[k] == parts[k]);
            lemma_query_all_none(ast, parts.drop_last(), tags, k);
        }
    }
}

/// Every match a partition reports names one of its slots, and carries
/// its MIME type.
proof fn lemma_query_partition_sound(
    ast: QueryNode,
    mime: Seq<char>,
    recs: Seq<(Seq<u8>, RecordInformation)>,
    tags: Seq<(Seq<char>, Seq<Seq<char>>)>,
    v: Seq<(Seq<char>, Seq<u8>)>,
)
    requires
        spec_query_partition(ast, mime, recs, tags) == Some(v),
    ensures
        forall|i: int|
            0 <= i < v.len() ==> (#[trigger] v[i]).0 == mime && exists|t: int|
                0 <= t < recs.len() && (#[trigger] recs[t]).0 == v[i].1,
    decreases recs.len(),
{
    if recs.len() > 0 {
        let pre = spec_query_partition(ast, mime, recs.drop_last(), tags)->Some_0;
        lemma_query_partition_sound(ast, mime, recs.drop_last(), tags, pre);
        assert forall|i: int| 0 <= i < v.len() implies (#[trigger] v[i]).0 == mime && exists|t: int|
            0 <= t < recs.len() && (#[trigger] recs[t]).0 == v[i].1 by {
            if i < pre.len() {
                assert(v[i] == pre[i]);
                let t = choose|t: int|
                    0 <= t < recs.drop_last().len() && (#[trigger] recs.drop_last()[t]).0
                        == pre[i].1;
                assert(recs[t] == recs.drop_last()[t]);
            } else {
                assert(v[i] == (mime, recs.last().0));
                assert(recs[recs.len() - 1].0 == v[i].1);
            }
        }
    }
}

/// Every element of a partition's active slots is one of its records,
/// and active.
proof fn lemma_active_slots_elements(recs: Seq<(Seq<u8>, RecordInformation)>, t: int)
    requires
        0 <= t < spec_active_slots(recs).len(),
    ensures
        exists|j: int| 0 <= j < recs.len() && #[trigger] recs[j] == spec_active_slots(recs)[t],
        spec_active_slots(recs)[t].1.is_active,
    decreases recs.len(),
{
    if recs.len() > 0 {
        let pre = spec_active_slots(recs.drop_last());
        if t < pre.len() {
            lemma_active_slots_elements(recs.drop_last(), t);
            let j = choose|j: int|
                0 <= j < recs.drop_last().len() && #[trigger] recs.drop_last()[j] == pre[t];
            assert(recs[j] == recs.drop_last()[j]);
            assert(spec_active_slots(recs)[t] == pre[t]);
        } else {
            assert(spec_active_slots(recs)[t] == recs.last());
            assert(recs[recs.len() - 1] == recs.last());
        }
    }
}

/// In a well-formed partition every active slot's id is 16 bytes.
proof fn lemma_active_ids_len(p: Partition)
    requires
        p.wf(),
    ensures
        forall|t: int|
            0 <= t < spec_active_slots(p.spec_records()).len() ==> (#[trigger] spec_active_slots(
                p.spec_records(),
            )[t]).0.len() == 16,
{
    assert forall|t: int|
        0 <= t < spec_active_slots(p.spec_records()).len() implies (#[trigger] spec_active_slots(
        p.spec_records(),
    )[t]).0.len() == 16 by {
        lemma_active_slots_elements(p.spec_records(), t);
        let j = choose|j: int|
            0 <= j < p.spec_records().len() && #[trigger] p.spec_records()[j] == spec_active_slots(
                p.spec_records(),
            )[t];
        assert(crate::partition::spec_slot_ok(
            p.spec_file(),
            p.spec_records()[j].0,
            p.spec_records()[j].1,
        ));
    }
}

/// Every match the whole query reports names an active record of the
/// database.
proof fn lemma_query_all_sound(
    ast: QueryNode,
    parts: Seq<(Seq<char>, Partition)>,
    tags: Seq<(Seq<char>, Seq<Seq<char>>)>,
    v: Seq<(Seq<char>, Seq<u8>)>,
)
    requires
        spec_query_all(ast, parts, tags) == Some(v),
    ensures
        forall|i: int| 0 <= i < v.len() ==> spec_result_in_db(parts, #[trigger] v[i]),
    decreases parts.len(),
{
    if parts.len() > 0 {
        let pre = spec_query_all(ast, parts.drop_last(), tags)->Some_0;
        let cur = spec_query_partition(
            ast,
            parts.last().0,
            spec_active_slots(parts.last().1.spec_records()),
            tags,
        )->Some_0;
        lemma_query_all_sound(ast, parts.drop_last(), tags, pre);
        lemma_query_partition_sound(
            ast,
            parts.last().0,
            spec_active_slots(parts.last().1.spec_records()),
            tags,
            cur,
        );
        assert forall|i: int| 0 <= i < v.len() implies spec_result_in_db(
            parts,
            #[trigger] v[i],
        ) by {
            if i < pre.len() {
                assert(v[i] == pre[i]);
                assert(spec_result_in_db(parts.drop_last(), pre[i]));
                let (k, j) = choose|k: int, j: int|
                    {
                        &&& 0 <= k < parts.drop_last().len()
                        &&& 0 <= j < parts.drop_last()[k].1.spec_records().len()
                        &&& (#[trigger] parts.drop_last()[k].1.spec_records()[j]).0 == pre[i].1
                        &&& parts.drop_last()[k].1.spec_records()[j].1.is_active
                        &&& parts.drop_last()[k].0 == pre[i].0
                    };
                assert(parts[k] == parts.drop_last()[k]);
                assert(spec_result_in_db(parts, v[i]));
            } else {
                assert(v[i] == cur[i - pre.len()]);
                let active = spec_active_slots(parts.last().1.spec_records());
                let t = choose|t: int|
                    0 <= t < active.len() && (#[trigger] active[t]).0 == cur[i - pre.len()].1;
                lemma_active_slots_elements(parts.last().1.spec_records(), t);
                let j = choose|j: int|
                    0 <= j < parts.last().1.spec_records().len()
                        && #[trigger] parts.last().1.spec_records()[j] == active[t];
                assert(parts[parts.len() - 1] == parts.last());
                assert(spec_result_in_db(parts, v[i]));
            }
        }
    }
}

/// A record just saved is found again: the lookup by its id lands on the
/// partition of its MIME type, and every slot under that id is active,
/// has the record's size, and points at exactly the record's data bytes
/// in the partition file.
#[verifier::rlimit(100)]
pub proof fn lemma_save_then_fetch(
    pre: &Vennbase,
    post: &Vennbase,
    mime: Seq<char>,
    data: Seq<u8>,
    ts: Seq<Seq<char>>,
    o: SaveOutcome,
)
    requires
        pre.wf(),
        post.wf(),
        spec_save_ok(*pre, *post, mime, data, ts, o),
    ensures
        spec_find_partition(post.spec_partitions(), o.id@) >= 0,
        ({
            let k = spec_find_partition(post.spec_partitions(), o.id@);
            &&& 0 <= k < post.spec_partitions().len()
            &&& post.spec_partitions()[k].0 == mime
            &&& forall|i: int|
                0 <= i < post.spec_partitions()[k].1.spec_records().len() && (
                #[trigger] post.spec_partitions()[k].1.spec_records()[i]).0 == o.id@ ==> {
                    let info = post.spec_partitions()[k].1.spec_records()[i].1;
                    &&& info.is_active
                    &&& info.size == data.len()
                    &&& info.start + info.size <= post.spec_partitions()[k].1.spec_file().len()
                    &&& post.spec_partitions()[k].1.spec_file().subrange(
                        info.start as int,
                        info.start + info.size,
                    ) == data
                }
        }),
{
    vstd::bytes::lemma_auto_spec_u64_to_from_le_bytes();
    if o.new_partition_header is None {
        let k = choose|k: int|
            {
                &&& 0 <= k < pre.spec_partitions().len()
                &&& (#[trigger] pre.spec_partitions()[k]).0 == mime
                &&& post.spec_partitions().len() == pre.spec_partitions().len()
                &&& (forall|j: int|
                    0 <= j < pre.spec_partitions().len() && j != k
                        ==> #[trigger] post.spec_partitions()[j] == pre.spec_partitions()[j])
                &&& post.spec_partitions()[k].0 == mime
                &&& post.spec_partitions()[k].1.spec_records() == pre.spec_partitions()[
                    k
                ].1.spec_records().push(
                    (
                        o.id@,
                        RecordInformation {
                            is_active: true,
                            start: pre.spec_partitions()[k].1.spec_next_start(),
                            size: data.len() as u64,
                        },
                    ),
                )
                &&& post.spec_partitions()[k].1.spec_file() == pre.spec_partitions()[
                    k
                ].1.spec_file() + o.record_slot@
            };
        assert forall|j: int| 0 <= j < k implies !(
        #[trigger] post.spec_partitions()[j]).1.spec_contains_id(o.id@) by {
            assert(post.spec_partitions()[j] == pre.spec_partitions()[j]);
            if post.spec_partitions()[j].1.spec_contains_id(o.id@) {
                assert(pre.spec_partitions()[j].1.spec_contains_id(o.id@));
            }
        }
        let newrecs = post.spec_partitions()[k].1.spec_records();
        assert(newrecs[newrecs.len() - 1].0 == o.id@);
        assert(post.spec_partitions()[k].1.spec_contains_id(o.id@));
        lemma_find_partition_found(post.spec_partitions(), o.id@, k);
        let oldp = pre.spec_partitions()[k].1;
        let newp = post.spec_partitions()[k].1;
        assert forall|i: int|
            0 <= i < newrecs.len() && (#[trigger] newrecs[i]).0 == o.id@ implies {
            let info = newrecs[i].1;
            &&& info.is_active
            &&& info.size == data.len()
            &&& info.start + info.size <= newp.spec_file().len()
            &&& newp.spec_file().subrange(info.start as int, info.start + info.size) == data
        } by {
            if i < newrecs.len() - 1 {
                assert(newrecs[i] == oldp.spec_records()[i]);
                assert(oldp.spec_contains_id(o.id@));
                assert(false);
            } else {
                let info = newrecs[i].1;
                assert(info.start == oldp.spec_next_start());
                assert(oldp.spec_next_start() == oldp.spec_file().len() + 25);
                assert(newp.spec_file().subrange(info.start as int, info.start + info.size)
                    =~= data);
            }
        }
    } else {
        let k = pre.spec_partitions().len() as int;
        let h = o.new_partition_header->Some_0;
        assert forall|j: int| 0 <= j < k implies !(
        #[trigger] post.spec_partitions()[j]).1.spec_contains_id(o.id@) by {
            assert(post.spec_partitions()[j] == pre.spec_partitions()[j]);
            if post.spec_partitions()[j].1.spec_contains_id(o.id@) {
                assert(pre.spec_partitions()[j].1.spec_contains_id(o.id@));
            }
        }
        let newrecs = post.spec_partitions()[k].1.spec_records();
        assert(newrecs[0].0 == o.id@);
        assert(post.spec_partitions()[k].1.spec_contains_id(o.id@));
        lemma_find_partition_found(post.spec_partitions(), o.id@, k);
        let newp = post.spec_partitions()[k].1;
        assert forall|i: int|
            0 <= i < newrecs.len() && (#[trigger] newrecs[i]).0 == o.id@ implies {
            let info = newrecs[i].1;
            &&& info.is_active
            &&& info.size == data.len()
            &&& info.start + info.size <= newp.spec_file().len()
            &&& newp.spec_file().subrange(info.start as int, info.start + info.size) == data
        } by {
            let info = newrecs[i].1;
            assert(i == 0);
            assert(info.start == 41);
            assert(newp.spec_file().len() == 16 + 25 + data.len());
            assert(newp.spec_file().subrange(info.start as int, info.start + info.size) =~= data);
        }
    }
}

/// Evaluates a query against one partition's active slots, appending the
/// matches to `results` in slot order.
#[verifier::rlimit(100)]
fn eval_partition_records(
    ast: &QueryNode,
    mime: &MimeType,
    active: &Vec<(Vec<u8>, RecordInformation)>,
    tags: &InvertedIndexMap,
    results: &mut Vec<(MimeType, Vec<u8>)>,
) -> (r: Result<(), VennbaseError>)
    requires
        tags.wf(),
        forall|t: int|
            0 <= t < active@.len() ==> (#[trigger] spec_active_view(active@)[t]).0.len() == 16,
    ensures
        r is Ok ==> (spec_query_partition(
            *ast,
            mime@,
            spec_active_view(active@),
            tags.spec_entries(),
        ) matches Some(cur) && spec_results_view(final(results)@) == spec_results_view(
            old(results)@,
        ) + cur),
        r is Err ==> spec_query_partition(
            *ast,
            mime@,
            spec_active_view(active@),
            tags.spec_entries(),
        ) is None && r == Err::<(), VennbaseError>(VennbaseError(VennError::InvalidExpression)),
{
    let ghost recs = spec_active_view(active@);
    let ghost acc0 = spec_results_view(results@);
    let m = active.len();
    let mut i: usize = 0;
    proof {
        assert(recs.subrange(0, 0) =~= Seq::<(Seq<u8>, RecordInformation)>::empty());
        assert(acc0 + Seq::<(Seq<char>, Seq<u8>)>::empty() =~= acc0);
    }
    while i < m
        invariant
            0 <= i <= m,
            m == recs.len(),
            recs == spec_active_view(active@),
            tags.wf(),
            forall|t: int| 0 <= t < m ==> (#[trigger] recs[t]).0.len() == 16,
            acc0 == spec_results_view(old(results)@),
            spec_query_partition(
                *ast,
                mime@,
                recs.subrange(0, i as int),
                tags.spec_entries(),
            ) matches Some(part_acc) && spec_results_view(results@) == acc0 + part_acc,
        decreases m - i,
    {
        let ghost pre_recs = recs.subrange(0, i as int);
        let id_str = uuid_to_string(active[i].0.as_slice());
        let verdict = crate::query::evaluate_record(ast, mime.as_str(), id_str.as_str(), tags);
        proof {
            assert(recs.subrange(0, i + 1).drop_last() =~= pre_recs);
            assert(recs.subrange(0, i + 1).last() == recs[i as int]);
        }
        let ghost prevacc = spec_query_partition(
            *ast,
            mime@,
            pre_recs,
            tags.spec_entries(),
        )->Some_0;
        match verdict {
            Ok(true) => {
                let ghost results0 = spec_results_view(results@);
                let id_copy = vstd::slice::slice_to_vec(active[i].0.as_slice());
                results.push((mime.clone_mime(), id_copy));
                proof {
                    assert(spec_eval(
                        *ast,
                        mime@,
                        spec_uuid_string(recs[i as int].0),
                        tags.spec_entries(),
                    ) == Some(true));
                    assert(spec_query_partition(
                        *ast,
                        mime@,
                        recs.subrange(0, i + 1),
                        tags.spec_entries(),
                    ) == Some(prevacc + seq![(mime@, recs[i as int].0)]));
                    assert(spec_results_view(results@) =~= results0.push(
                        (mime@, recs[i as int].0),
                    ));
                    assert(spec_results_view(results@) =~= acc0 + (prevacc + seq![
                        (mime@, recs[i as int].0),
                    ]));
                }
            },
            Ok(false) => {
                proof {
                    assert(spec_eval(
                        *ast,
                        mime@,
                        spec_uuid_string(recs[i as int].0),
                        tags.spec_entries(),
                    ) == Some(false));
                    assert(spec_query_partition(
                        *ast,
                        mime@,
                        recs.subrange(0, i + 1),
                        tags.spec_entries(),
                    ) == Some(prevacc + Seq::<(Seq<char>, Seq<u8>)>::empty()));
                    assert(prevacc + Seq::<(Seq<char>, Seq<u8>)>::empty() =~= prevacc);
                }
            },
            Err(_) => {
                proof {
                    assert(spec_query_partition(
                        *ast,
                        mime@,
                        recs.subrange(0, i + 1),
                        tags.spec_entries(),
                    ) is None);
                    lemma_query_partition_none_mono(
                        *ast,
                        mime@,
                        recs,
                        tags.spec_entries(),
                        i + 1,
                    );
                }
                return Err(VennbaseError(VennError::InvalidExpression));
            },
        }
        i = i + 1;
    }
    proof {
        assert(recs.subrange(0, m as int) =~= recs);
    }
    Ok(())
}

/// A database's own directory image re-opens: for a well-formed database,
/// the listing whose file names encode its MIME types and whose bytes are
/// its partition files, together with its serialized tag map, meets
/// `from_dir`'s success condition, and the map text parses back to the
/// same tag entries. (File names in a directory are distinct; the
/// uniqueness premise records that.) With `from_dir`'s contract this
/// forces the re-opened database to hold the same MIME types, the same
/// partition files — hence, by `lemma_reopen_reconstructs`, the same
/// record index — and the same tag map.
pub proof fn lemma_directory_image_reopens(
    db: &Vennbase,
    kept: Seq<(Seq<char>, Seq<u8>)>,
    map_json: Seq<char>,
)
    requires
        db.wf(),
        kept.len() == db.spec_partitions().len(),
        forall|i: int|
            0 <= i < kept.len() ==> (#[trigger] kept[i]).0 == base64_of(
                encode_utf8(db.spec_partitions()[i].0),
            ) && kept[i].1 == db.spec_partitions()[i].1.spec_file(),
        forall|i: int, j: int| 0 <= i < j < kept.len() ==> kept[i].0 != kept[j].0,
        map_json == spec_map_json(db.spec_tag_entries()),
    ensures
        spec_from_dir_ok(kept, map_json),
        spec_parse_map(map_json) == Some(db.spec_tag_entries()),
{
    assert forall|i: int| 0 <= i < kept.len() implies spec_filename_ok(
        (#[trigger] kept[i]).0,
    ) by {
        let t = db.spec_partitions()[i].0;
        assert(kept[i].0 == base64_of(encode_utf8(t)));
    }
    assert forall|i: int| 0 <= i < kept.len() implies spec_partition_bytes_ok(
        (#[trigger] kept[i]).1,
    ) by {
        assert((#[trigger] db.spec_partitions()[i]).1.wf());
        crate::partition::lemma_wf_file_reparses(&db.spec_partitions()[i].1);
    }
    crate::mapjson::lemma_map_json_round_trip(db.spec_tag_entries());
}

/// Re-opening a database's files reconstructs the same index: two
/// well-formed databases whose partitions carry the same MIME types and
/// the same file bytes, in order, index the same records.
pub proof fn lemma_reopen_reconstructs(db1: &Vennbase, db2: &Vennbase)
    requires
        db1.wf(),
        db2.wf(),
        db1.spec_partitions().len() == db2.spec_partitions().len(),
        forall|k: int|
            0 <= k < db1.spec_partitions().len() ==> (#[trigger] db1.spec_partitions()[k]).0
                == db2.spec_partitions()[k].0 && db1.spec_partitions()[k].1.spec_file()
                == db2.spec_partitions()[k].1.spec_file(),
    ensures
        forall|k: int|
            0 <= k < db1.spec_partitions().len() ==> (#[trigger] db1.spec_partitions()[
                k
            ]).1.spec_records() == db2.spec_partitions()[k].1.spec_records(),
{
    assert forall|k: int| 0 <= k < db1.spec_partitions().len() implies (
    #[trigger] db1.spec_partitions()[k]).1.spec_records() == db2.spec_partitions()[
        k
    ].1.spec_records() by {
        crate::partition::lemma_same_file_same_partition(
            &db1.spec_partitions()[k].1,
            &db2.spec_partitions()[k].1,
        );
    }
}

/// Attaches `id_str` under every tag of a list, in order.
fn add_all_tags(tags_map: &mut InvertedIndexMap, ts: &Vec<String>, id_str: &str)
    requires
        old(tags_map).wf(),
    ensures
        final(tags_map).wf(),
        final(tags_map).spec_entries() == spec_add_tags(
            old(tags_map).spec_entries(),
            crate::tags::spec_strs_view(ts@),
            id_str@,
        ),
{
    let n = ts.len();
    let mut i: usize = 0;
    proof {
        assert(crate::tags::spec_strs_view(ts@).subrange(0, 0) =~= Seq::<Seq<char>>::empty());
    }
    while i < n
        invariant
            0 <= i <= n,
            n == ts@.len(),
            tags_map.wf(),
            tags_map.spec_entries() == spec_add_tags(
                old(tags_map).spec_entries(),
                crate::tags::spec_strs_view(ts@).subrange(0, i as int),
                id_str@,
            ),
        decreases n - i,
    {
        let ghost pre = crate::tags::spec_strs_view(ts@).subrange(0, i as int);
        tags_map.add_tag(ts[i].as_str(), id_str);
        proof {
            let pre2 = crate::tags::spec_strs_view(ts@).subrange(0, i + 1);
            assert(pre2.drop_last() =~= pre);
            assert(pre2.last() == ts@[i as int]@);
        }
        i = i + 1;
    }
    proof {
        assert(crate::tags::spec_strs_view(ts@).subrange(0, n as int) =~= crate::tags::spec_strs_view(
            ts@,
        ));
    }
}

/// Replacing one partition by a well-formed one with the same key keeps
/// the partition list well formed.
proof fn lemma_save_wf_existing(
    old_parts: Seq<(Seq<char>, Partition)>,
    new_parts: Seq<(Seq<char>, Partition)>,
    k: int,
)
    requires
        0 <= k < old_parts.len(),
        new_parts.len() == old_parts.len(),
        forall|i: int, j: int| 0 <= i < j < old_parts.len() ==> old_parts[i].0 != old_parts[j].0,
        forall|i: int| 0 <= i < old_parts.len() ==> (#[trigger] old_parts[i]).1.wf(),
        forall|j: int| 0 <= j < old_parts.len() && j != k ==> new_parts[j] == old_parts[j],
        new_parts[k].0 == old_parts[k].0,
        new_parts[k].1.wf(),
    ensures
        forall|i: int, j: int| 0 <= i < j < new_parts.len() ==> new_parts[i].0 != new_parts[j].0,
        forall|i: int| 0 <= i < new_parts.len() ==> (#[trigger] new_parts[i]).1.wf(),
{
    assert forall|i: int, j: int| 0 <= i < j < new_parts.len() implies new_parts[i].0
        != new_parts[j].0 by {
        assert(new_parts[i].0 == old_parts[i].0);
        assert(new_parts[j].0 == old_parts[j].0);
    }
    assert forall|i: int| 0 <= i < new_parts.len() implies (#[trigger] new_parts[i]).1.wf() by {
        if i != k {
            assert(new_parts[i] == old_parts[i]);
        }
    }
}

/// Appending a partition under an unused key keeps the list well formed.
#[verifier::rlimit(60)]
proof fn lemma_save_wf_new(
    old_parts: Seq<(Seq<char>, Partition)>,
    new_parts: Seq<(Seq<char>, Partition)>,
    mime: Seq<char>,
)
    requires
        forall|i: int, j: int| 0 <= i < j < old_parts.len() ==> old_parts[i].0 != old_parts[j].0,
        forall|i: int| 0 <= i < old_parts.len() ==> (#[trigger] old_parts[i]).1.wf(),
        forall|j: int| 0 <= j < old_parts.len() ==> (#[trigger] old_parts[j]).0 != mime,
        new_parts.len() == old_parts.len() + 1,
        forall|j: int| 0 <= j < old_parts.len() ==> new_parts[j] == old_parts[j],
        new_parts[old_parts.len() as int].0 == mime,
        new_parts[old_parts.len() as int].1.wf(),
    ensures
        forall|i: int, j: int| 0 <= i < j < new_parts.len() ==> new_parts[i].0 != new_parts[j].0,
        forall|i: int| 0 <= i < new_parts.len() ==> (#[trigger] new_parts[i]).1.wf(),
{
    let n = old_parts.len() as int;
    assert forall|i: int, j: int| 0 <= i < j < new_parts.len() implies new_parts[i].0
        != new_parts[j].0 by {
        if j < n {
            assert(new_parts[i] == old_parts[i]);
            assert(new_parts[j] == old_parts[j]);
        } else {
            assert(new_parts[i] == old_parts[i]);
        }
    }
    assert forall|i: int| 0 <= i < new_parts.len() implies (#[trigger] new_parts[i]).1.wf() by {
        if i < n {
            assert(new_parts[i] == old_parts[i]);
        }
    }
}

/// Every kept entry of a prefix is one of the prefix's entries.
proof fn lemma_kept_elements(entries: Seq<(Seq<char>, Seq<u8>)>, i: int)
    requires
        0 <= i <= entries.len(),
    ensures
        forall|w: int|
            0 <= w < spec_kept(entries.subrange(0, i)).len() ==> exists|j: int|
                0 <= j < i && #[trigger] spec_kept(entries.subrange(0, i))[w] == entries[j],
    decreases i,
{
    if i > 0 {
        lemma_kept_elements(entries, i - 1);
        let a = entries.subrange(0, i - 1);
        let b = entries.subrange(0, i);
        assert(b.drop_last() =~= a);
        assert(b.last() == entries[i - 1]);
        assert forall|w: int| 0 <= w < spec_kept(b).len() implies exists|j: int|
            0 <= j < i && #[trigger] spec_kept(b)[w] == entries[j] by {
            if w < spec_kept(a).len() {
                assert(spec_kept(b)[w] == spec_kept(a)[w]);
                let j = choose|j: int| 0 <= j < i - 1 && spec_kept(a)[w] == entries[j];
                assert(spec_kept(b)[w] == entries[j]);
            } else {
                assert(spec_kept(b)[w] == entries[i - 1]);
            }
        }
    }
}

/// A non-`.map` entry of a prefix appears among its kept entries.
proof fn lemma_kept_member(entries: Seq<(Seq<char>, Seq<u8>)>, i: int, j: int)
    requires
        0 <= j < i <= entries.len(),
        entries[j].0 != ".map"@,
    ensures
        exists|w: int|
            0 <= w < spec_kept(entries.subrange(0, i)).len() && #[trigger] spec_kept(
                entries.subrange(0, i),
            )[w] == entries[j],
    decreases i,
{
    let a = entries.subrange(0, i - 1);
    let b = entries.subrange(0, i);
    assert(b.drop_last() =~= a);
    assert(b.last() == entries[i - 1]);
    if j == i - 1 {
        let w = spec_kept(a).len() as int;
        assert(spec_kept(b)[w] == entries[j]);
    } else {
        lemma_kept_member(entries, i - 1, j);
        let w = choose|w: int|
            0 <= w < spec_kept(a).len() && #[trigger] spec_kept(a)[w] == entries[j];
        assert(spec_kept(b)[w] == spec_kept(a)[w]);
    }
}

/// The view of an owned partition list.
pub open spec fn spec_parts_view(v: Seq<(MimeType, Partition)>) -> Seq<(Seq<char>, Partition)> {
    Seq::new(v.len(), |i: int| (v[i].0@, v[i].1))
}

/// Whether built partitions correspond to kept directory entries, one for
/// one and in order. The last clause pins the MIME string uniquely: no
/// other string encodes to the same file name.
pub open spec fn spec_parts_match(
    kept: Seq<(Seq<char>, Seq<u8>)>,
    parts: Seq<(Seq<char>, Partition)>,
) -> bool {
    &&& parts.len() == kept.len()
    &&& forall|i: int|
        0 <= i < kept.len() ==> (#[trigger] kept[i]).0 == base64_of(encode_utf8(parts[i].0))
            && parts[i].1.wf() && parts[i].1.spec_file() == kept[i].1
    &&& forall|i: int, t: Seq<char>|
        0 <= i < kept.len() && (#[trigger] kept[i]).0 == base64_of(#[trigger] encode_utf8(t))
            ==> t == parts[i].0
}

/// Whether every kept entry so far decodes and parses.
pub open spec fn spec_from_dir_prefix_ok(kept: Seq<(Seq<char>, Seq<u8>)>) -> bool {
    &&& forall|i: int| 0 <= i < kept.len() ==> spec_filename_ok((#[trigger] kept[i]).0)
    &&& forall|i: int| 0 <= i < kept.len() ==> spec_partition_bytes_ok((#[trigger] kept[i]).1)
    &&& forall|i: int, j: int| 0 <= i < j < kept.len() ==> kept[i].0 != kept[j].0
}

/// The kept entries of a prefix are a prefix of the kept entries.
proof fn lemma_kept_prefix(entries: Seq<(Seq<char>, Seq<u8>)>, i: int)
    requires
        0 <= i <= entries.len(),
    ensures
        spec_kept(entries.subrange(0, i)).len() <= spec_kept(entries).len(),
        forall|w: int|
            0 <= w < spec_kept(entries.subrange(0, i)).len() ==> #[trigger] spec_kept(entries)[w]
                == spec_kept(entries.subrange(0, i))[w],
    decreases entries.len() - i,
{
    if i < entries.len() {
        lemma_kept_prefix(entries, i + 1);
        let a = entries.subrange(0, i);
        let b = entries.subrange(0, i + 1);
        assert(b.drop_last() =~= a);
        assert(b.last() == entries[i]);
        assert(spec_kept(b) == spec_kept(a) + if entries[i].0 == ".map"@ {
            Seq::<(Seq<char>, Seq<u8>)>::empty()
        } else {
            seq![entries[i]]
        });
        assert forall|w: int| 0 <= w < spec_kept(a).len() implies #[trigger] spec_kept(entries)[w]
            == spec_kept(a)[w] by {
            assert(spec_kept(b)[w] == spec_kept(a)[w]);
        }
    } else {
        assert(entries.subrange(0, i) =~= entries);
    }
}

} // verus!
