//! The inverted index: a persistent mapping from tag to the records that
//! carry it, kept as an association list with unique tags and
//! duplicate-free id lists.

use vstd::prelude::*;
use vstd::slice::slice_to_vec;
use crate::binio::str_eq;

verus! {

/// The tag map: for each tag, the ids of the records it was attached to,
/// in attachment order.
pub struct InvertedIndexMap {
    entries: Vec<(String, Vec<String>)>,
}

/// The character-sequence view of a list of strings.
pub open spec fn spec_strs_view(v: Seq<String>) -> Seq<Seq<char>> {
    Seq::new(v.len(), |i: int| v[i]@)
}

/// The character-sequence view of an owned entry list.
pub open spec fn spec_entries_view(v: Seq<(String, Vec<String>)>) -> Seq<
    (Seq<char>, Seq<Seq<char>>),
> {
    Seq::new(v.len(), |i: int| (v[i].0@, spec_strs_view(v[i].1@)))
}

/// Whether a list holds no element twice.
pub open spec fn spec_no_dup(l: Seq<Seq<char>>) -> bool {
    forall|a: int, b: int| 0 <= a < b < l.len() ==> l[a] != l[b]
}

/// Well-formed tag entries: tags unique, id lists duplicate-free.
pub open spec fn spec_wf_entries(entries: Seq<(Seq<char>, Seq<Seq<char>>)>) -> bool {
    &&& forall|i: int, j: int| 0 <= i < j < entries.len() ==> entries[i].0 != entries[j].0
    &&& forall|i: int| 0 <= i < entries.len() ==> spec_no_dup((#[trigger] entries[i]).1)
}

/// An id list with `id` attached: unchanged if already present, else
/// appended.
pub open spec fn spec_add_id(l: Seq<Seq<char>>, id: Seq<char>) -> Seq<Seq<char>> {
    if l.contains(id) {
        l
    } else {
        l.push(id)
    }
}

/// The entries after attaching `id` to `tag`: the first entry for `tag`
/// gains the id, or a fresh entry is appended.
pub open spec fn spec_add_tag(
    entries: Seq<(Seq<char>, Seq<Seq<char>>)>,
    tag: Seq<char>,
    id: Seq<char>,
) -> Seq<(Seq<char>, Seq<Seq<char>>)>
    decreases entries.len(),
{
    if entries.len() == 0 {
        seq![(tag, seq![id])]
    } else if entries[0].0 == tag {
        seq![(tag, spec_add_id(entries[0].1, id))] + entries.drop_first()
    } else {
        seq![entries[0]] + spec_add_tag(entries.drop_first(), tag, id)
    }
}

/// The entries after detaching `id` from `tag`: the first entry for `tag`
/// loses the id's first occurrence; an absent tag changes nothing.
pub open spec fn spec_remove_tag(
    entries: Seq<(Seq<char>, Seq<Seq<char>>)>,
    tag: Seq<char>,
    id: Seq<char>,
) -> Seq<(Seq<char>, Seq<Seq<char>>)>
    decreases entries.len(),
{
    if entries.len() == 0 {
        entries
    } else if entries[0].0 == tag {
        seq![(tag, spec_remove_id(entries[0].1, id))] + entries.drop_first()
    } else {
        seq![entries[0]] + spec_remove_tag(entries.drop_first(), tag, id)
    }
}

/// An id list with the first occurrence of `id` removed.
pub open spec fn spec_remove_id(l: Seq<Seq<char>>, id: Seq<char>) -> Seq<Seq<char>>
    decreases l.len(),
{
    if l.len() == 0 {
        l
    } else if l[0] == id {
        l.drop_first()
    } else {
        seq![l[0]] + spec_remove_id(l.drop_first(), id)
    }
}

/// The tags whose list holds `id`, in entry order.
pub open spec fn spec_tags_for_id(
    entries: Seq<(Seq<char>, Seq<Seq<char>>)>,
    id: Seq<char>,
) -> Seq<Seq<char>>
    decreases entries.len(),
{
    if entries.len() == 0 {
        Seq::empty()
    } else {
        spec_tags_for_id(entries.drop_last(), id) + if entries.last().1.contains(id) {
            seq![entries.last().0]
        } else {
            Seq::empty()
        }
    }
}

/// Whether `tag`'s list holds `id`.
pub open spec fn spec_tag_has_id(
    entries: Seq<(Seq<char>, Seq<Seq<char>>)>,
    tag: Seq<char>,
    id: Seq<char>,
) -> bool {
    exists|k: int|
        0 <= k < entries.len() && (#[trigger] entries[k]).0 == tag && entries[k].1.contains(id)
}

impl InvertedIndexMap {
    /// The entries, as character sequences.
    pub closed spec fn spec_entries(&self) -> Seq<(Seq<char>, Seq<Seq<char>>)> {
        spec_entries_view(self.entries@)
    }

    /// The serialized form that the `.map` file must hold for this map.
    pub fn to_map_json(&self) -> (r: String)
        ensures
            r@ == crate::mapjson::spec_map_json(self.spec_entries()),
    {
        crate::mapjson::emit_map_json(&self.entries)
    }

    /// Reads a map back from the `.map` file's text.
    ///
    /// Succeeds exactly when the text parses as the serialized map shape
    /// and the entries are well formed; the result is what was parsed.
    pub fn from_map_json(s: &str) -> (r: Option<InvertedIndexMap>)
        ensures
            r matches Some(m) ==> m.wf() && Some(m.spec_entries())
                == crate::mapjson::spec_parse_map(s@),
            r is None ==> crate::mapjson::spec_parse_map(s@) is None || !spec_wf_entries(
                crate::mapjson::spec_parse_map(s@)->Some_0,
            ),
    {
        match crate::mapjson::parse_map_json(s) {
            None => None,
            Some(entries) => {
                let m = InvertedIndexMap { entries };
                if m.check_wf() {
                    Some(m)
                } else {
                    None
                }
            },
        }
    }

    /// Whether the entries are well formed, checked by scanning.
    fn check_wf(&self) -> (r: bool)
        ensures
            r == self.wf(),
    {
        let n = self.entries.len();
        let mut i: usize = 0;
        while i < n
            invariant
                0 <= i <= n,
                n == self.spec_entries().len(),
                forall|a: int, b: int|
                    0 <= a < b < i ==> (#[trigger] self.spec_entries()[a]).0 != (
                    #[trigger] self.spec_entries()[b]).0,
                forall|a: int|
                    0 <= a < i ==> spec_no_dup((#[trigger] self.spec_entries()[a]).1),
            decreases n - i,
        {
            let mut j: usize = 0;
            while j < i
                invariant
                    0 <= j <= i < n,
                    n == self.spec_entries().len(),
                    forall|b: int|
                        0 <= b < j ==> (#[trigger] self.spec_entries()[b]).0
                            != self.spec_entries()[i as int].0,
                decreases i - j,
            {
                if str_eq(self.entries[j].0.as_str(), self.entries[i].0.as_str()) {
                    proof {
                        assert(self.spec_entries()[j as int].0 == self.spec_entries()[
                            i as int
                        ].0);
                        assert(!self.wf()) by {
                            if self.wf() {
                                assert(self.spec_entries()[j as int].0 != self.spec_entries()[
                                    i as int
                                ].0);
                            }
                        }
                    }
                    return false;
                }
                j = j + 1;
            }
            if !Self::list_no_dup(&self.entries[i].1) {
                proof {
                    assert(!spec_no_dup(self.spec_entries()[i as int].1));
                    assert(!self.wf()) by {
                        if self.wf() {
                            assert(spec_no_dup(self.spec_entries()[i as int].1));
                        }
                    }
                }
                return false;
            }
            proof {
                assert forall|a: int, b: int| 0 <= a < b < i + 1 implies (
                #[trigger] self.spec_entries()[a]).0 != (#[trigger] self.spec_entries()[b]).0 by {}
            }
            i = i + 1;
        }
        true
    }

    /// Whether a list holds no string twice, checked by scanning.
    fn list_no_dup(list: &Vec<String>) -> (r: bool)
        ensures
            r == spec_no_dup(spec_strs_view(list@)),
    {
        let n = list.len();
        let mut i: usize = 0;
        while i < n
            invariant
                0 <= i <= n,
                n == list@.len(),
                forall|a: int, b: int|
                    0 <= a < b < i ==> spec_strs_view(list@)[a] != spec_strs_view(list@)[b],
            decreases n - i,
        {
            let mut j: usize = 0;
            while j < i
                invariant
                    0 <= j <= i < n,
                    n == list@.len(),
                    forall|b: int|
                        0 <= b < j ==> spec_strs_view(list@)[b] != spec_strs_view(list@)[i as int],
                decreases i - j,
            {
                if str_eq(list[j].as_str(), list[i].as_str()) {
                    proof {
                        assert(spec_strs_view(list@)[j as int] == spec_strs_view(list@)[
                            i as int
                        ]);
                        assert(!spec_no_dup(spec_strs_view(list@))) by {
                            if spec_no_dup(spec_strs_view(list@)) {
                                assert(spec_strs_view(list@)[j as int] != spec_strs_view(list@)[
                                    i as int
                                ]);
                            }
                        }
                    }
                    return false;
                }
                j = j + 1;
            }
            proof {
                assert forall|a: int, b: int| 0 <= a < b < i + 1 implies spec_strs_view(list@)[a]
                    != spec_strs_view(list@)[b] by {}
            }
            i = i + 1;
        }
        true
    }

    /// Well-formedness of the whole map.
    pub open spec fn wf(&self) -> bool {
        spec_wf_entries(self.spec_entries())
    }

    /// An empty tag map.
    pub fn new() -> (r: InvertedIndexMap)
        ensures
            r.wf(),
            r.spec_entries().len() == 0,
    {
        let r = InvertedIndexMap { entries: Vec::new() };
        proof {
            assert(r.spec_entries() =~= Seq::<(Seq<char>, Seq<Seq<char>>)>::empty());
        }
        r
    }

    /// The position of `tag`'s entry, if any.
    fn find_tag(&self, tag: &str) -> (r: Option<usize>)
        ensures
            r matches Some(k) ==> k < self.spec_entries().len() && self.spec_entries()[
                k as int
            ].0 == tag@ && forall|j: int| 0 <= j < k ==> (#[trigger] self.spec_entries()[j]).0 != tag@,
            r is None ==> forall|j: int|
                0 <= j < self.spec_entries().len() ==> (#[trigger] self.spec_entries()[j]).0
                    != tag@,
    {
        let n = self.entries.len();
        let mut i: usize = 0;
        while i < n
            invariant
                0 <= i <= n,
                n == self.spec_entries().len(),
                forall|j: int| 0 <= j < i ==> (#[trigger] self.spec_entries()[j]).0 != tag@,
            decreases n - i,
        {
            if str_eq(self.entries[i].0.as_str(), tag) {
                proof {
                    assert(self.spec_entries()[i as int].0 == tag@);
                }
                return Some(i);
            }
            i = i + 1;
        }
        None
    }

    /// Whether `list` holds `id`.
    fn list_contains(list: &Vec<String>, id: &str) -> (r: bool)
        ensures
            r == spec_strs_view(list@).contains(id@),
    {
        let n = list.len();
        let mut i: usize = 0;
        while i < n
            invariant
                0 <= i <= n,
                n == list@.len(),
                forall|j: int| 0 <= j < i ==> spec_strs_view(list@)[j] != id@,
            decreases n - i,
        {
            if str_eq(list[i].as_str(), id) {
                proof {
                    assert(spec_strs_view(list@)[i as int] == id@);
                }
                return true;
            }
            i = i + 1;
        }
        proof {
            if spec_strs_view(list@).contains(id@) {
                let j = choose|j: int|
                    0 <= j < list@.len() && spec_strs_view(list@)[j] == id@;
            }
        }
        false
    }

    /// Attaches `id` to `tag`.
    ///
    /// A new tag gains a one-element list; an existing one gains the id at
    /// the end of its list unless it is already there.
    pub fn add_tag(&mut self, tag: &str, record_id: &str)
        requires
            old(self).wf(),
        ensures
            final(self).wf(),
            final(self).spec_entries() == spec_add_tag(old(self).spec_entries(), tag@, record_id@),
    {
        let ghost entries0 = self.spec_entries();
        match self.find_tag(tag) {
            None => {
                let mut list: Vec<String> = Vec::new();
                list.push(record_id.to_owned());
                self.entries.push((tag.to_owned(), list));
                proof {
                    assert(spec_strs_view(list@) =~= seq![record_id@]);
                    assert(self.spec_entries() =~= entries0.push((tag@, seq![record_id@])));
                    lemma_add_tag_absent(entries0, tag@, record_id@);
                    lemma_add_wf(entries0, tag@, record_id@);
                }
            },
            Some(k) => {
                let (key, mut list) = self.entries.remove(k);
                let ghost list0 = spec_strs_view(list@);
                let present = Self::list_contains(&list, record_id);
                if !present {
                    list.push(record_id.to_owned());
                }
                proof {
                    assert(spec_strs_view(list@) =~= spec_add_id(list0, record_id@));
                }
                self.entries.insert(k, (key, list));
                proof {
                    assert(self.spec_entries() =~= entries0.update(
                        k as int,
                        (tag@, spec_add_id(entries0[k as int].1, record_id@)),
                    ));
                    lemma_add_tag_found(entries0, tag@, record_id@, k as int);
                    lemma_add_wf(entries0, tag@, record_id@);
                }
            },
        }
    }

    /// Detaches `id` from `tag`: its first occurrence leaves the tag's
    /// list; an absent tag changes nothing.
    pub fn remove_tag(&mut self, tag: &str, record_id: &str)
        requires
            old(self).wf(),
        ensures
            final(self).wf(),
            final(self).spec_entries() == spec_remove_tag(
                old(self).spec_entries(),
                tag@,
                record_id@,
            ),
    {
        let ghost entries0 = self.spec_entries();
        match self.find_tag(tag) {
            None => {
                proof {
                    lemma_remove_tag_absent(entries0, tag@, record_id@);
                }
            },
            Some(k) => {
                let (key, mut list) = self.entries.remove(k);
                let ghost list0 = spec_strs_view(list@);
                let mut out: Vec<String> = Vec::new();
                let n = list.len();
                let mut i: usize = 0;
                let mut removed = false;
                while i < n
                    invariant
                        0 <= i <= n,
                        n == list@.len(),
                        list0 == spec_strs_view(list@),
                        removed ==> spec_strs_view(out@) == spec_remove_id(
                            list0.subrange(0, i as int),
                            record_id@,
                        ) && list0.subrange(0, i as int).contains(record_id@),
                        !removed ==> spec_strs_view(out@) == list0.subrange(0, i as int)
                            && !list0.subrange(0, i as int).contains(record_id@),
                    decreases n - i,
                {
                    let ghost pre = list0.subrange(0, i as int);
                    let ghost out0 = spec_strs_view(out@);
                    let ghost x = list0[i as int];
                    let was_removed = removed;
                    let keep = removed || !str_eq(list[i].as_str(), record_id);
                    if keep {
                        out.push(list[i].clone());
                    } else {
                        removed = true;
                    }
                    proof {
                        let pre2 = list0.subrange(0, i + 1);
                        assert(pre2.drop_last() =~= pre);
                        assert(pre2.last() == x);
                        assert(pre2 =~= pre.push(x));
                        lemma_remove_id_snoc(pre, x, record_id@);
                        assert(pre2.contains(record_id@) == (pre.contains(record_id@) || x
                            == record_id@)) by {
                            if pre2.contains(record_id@) {
                                let w = choose|w: int| 0 <= w < pre2.len() && pre2[w] == record_id@;
                                if w < pre.len() {
                                    assert(pre[w] == record_id@);
                                }
                            }
                            if pre.contains(record_id@) {
                                let w = choose|w: int| 0 <= w < pre.len() && pre[w] == record_id@;
                                assert(pre2[w] == record_id@);
                            }
                            if x == record_id@ {
                                assert(pre2[i as int] == record_id@);
                            }
                        }
                        if keep {
                            assert(spec_strs_view(out@) =~= out0.push(x));
                        }
                    }
                    i = i + 1;
                }
                proof {
                    assert(list0.subrange(0, n as int) =~= list0);
                    if !removed {
                        lemma_remove_id_absent(list0, record_id@);
                    }
                    assert(spec_strs_view(out@) == spec_remove_id(
                        entries0[k as int].1,
                        record_id@,
                    ));
                }
                self.entries.insert(k, (key, out));
                proof {
                    assert(self.spec_entries() =~= entries0.update(
                        k as int,
                        (tag@, spec_remove_id(entries0[k as int].1, record_id@)),
                    ));
                    lemma_remove_tag_found(entries0, tag@, record_id@, k as int);
                    lemma_remove_wf(entries0, tag@, record_id@);
                }
            },
        }
    }

    /// Every tag whose list holds `id`, in entry order.
    pub fn get_tags_for_id(&self, record_id: &str) -> (r: Vec<String>)
        ensures
            spec_strs_view(r@) == spec_tags_for_id(self.spec_entries(), record_id@),
    {
        let n = self.entries.len();
        let mut out: Vec<String> = Vec::new();
        let mut i: usize = 0;
        while i < n
            invariant
                0 <= i <= n,
                n == self.spec_entries().len(),
                spec_strs_view(out@) == spec_tags_for_id(
                    self.spec_entries().subrange(0, i as int),
                    record_id@,
                ),
            decreases n - i,
        {
            let ghost pre = self.spec_entries().subrange(0, i as int);
            if Self::list_contains(&self.entries[i].1, record_id) {
                out.push(self.entries[i].0.clone());
            }
            proof {
                let pre2 = self.spec_entries().subrange(0, i + 1);
                assert(pre2.drop_last() =~= pre);
                assert(pre2.last() == self.spec_entries()[i as int]);
                assert(spec_strs_view(out@) =~= spec_tags_for_id(pre2, record_id@));
            }
            i = i + 1;
        }
        proof {
            assert(self.spec_entries().subrange(0, n as int) =~= self.spec_entries());
        }
        out
    }

    /// Whether `tag`'s list holds `id` (the `tag:` predicate's lookup).
    pub fn tag_list_contains(&self, tag: &str, record_id: &str) -> (r: bool)
        requires
            self.wf(),
        ensures
            r == spec_tag_has_id(self.spec_entries(), tag@, record_id@),
    {
        match self.find_tag(tag) {
            None => {
                proof {
                    if spec_tag_has_id(self.spec_entries(), tag@, record_id@) {
                        let k = choose|k: int|
                            0 <= k < self.spec_entries().len() && (#[trigger] self.spec_entries()[
                                k
                            ]).0 == tag@ && self.spec_entries()[k].1.contains(record_id@);
                    }
                }
                false
            },
            Some(k) => {
                let r = Self::list_contains(&self.entries[k].1, record_id);
                proof {
                    if r {
                        assert(spec_tag_has_id(self.spec_entries(), tag@, record_id@));
                    } else {
                        if spec_tag_has_id(self.spec_entries(), tag@, record_id@) {
                            let k2 = choose|k2: int|
                                0 <= k2 < self.spec_entries().len() && (
                                #[trigger] self.spec_entries()[k2]).0 == tag@
                                    && self.spec_entries()[k2].1.contains(record_id@);
                            if k2 != k {
                                assert(self.spec_entries()[k2].0 == self.spec_entries()[
                                    k as int
                                ].0);
                            }
                        }
                    }
                }
                r
            },
        }
    }
}

/// The entries after attaching `id` under every tag of a list, in order.
pub open spec fn spec_add_tags(
    entries: Seq<(Seq<char>, Seq<Seq<char>>)>,
    ts: Seq<Seq<char>>,
    id: Seq<char>,
) -> Seq<(Seq<char>, Seq<Seq<char>>)>
    decreases ts.len(),
{
    if ts.len() == 0 {
        entries
    } else {
        spec_add_tag(spec_add_tags(entries, ts.drop_last(), id), ts.last(), id)
    }
}

/// Attaching a list of tags preserves well-formedness.
pub proof fn lemma_add_tags_wf(
    entries: Seq<(Seq<char>, Seq<Seq<char>>)>,
    ts: Seq<Seq<char>>,
    id: Seq<char>,
)
    requires
        spec_wf_entries(entries),
    ensures
        spec_wf_entries(spec_add_tags(entries, ts, id)),
    decreases ts.len(),
{
    if ts.len() > 0 {
        lemma_add_tags_wf(entries, ts.drop_last(), id);
        lemma_add_wf(spec_add_tags(entries, ts.drop_last(), id), ts.last(), id);
    }
}

/// How many times `s` occurs in `l`.
pub open spec fn spec_count_str(l: Seq<Seq<char>>, s: Seq<char>) -> int
    decreases l.len(),
{
    if l.len() == 0 {
        0
    } else {
        spec_count_str(l.drop_last(), s) + if l.last() == s {
            1int
        } else {
            0int
        }
    }
}

/// In a well-formed map the lookup by id names a tag at most once, and
/// exactly once when the tag's list holds the id.
pub proof fn lemma_tags_for_id_count(
    entries: Seq<(Seq<char>, Seq<Seq<char>>)>,
    tag: Seq<char>,
    id: Seq<char>,
)
    requires
        spec_wf_entries(entries),
    ensures
        spec_count_str(spec_tags_for_id(entries, id), tag) == if spec_tag_has_id(
            entries,
            tag,
            id,
        ) {
            1int
        } else {
            0int
        },
    decreases entries.len(),
{
    if entries.len() == 0 {
        if spec_tag_has_id(entries, tag, id) {
            let k = choose|k: int|
                0 <= k < entries.len() && (#[trigger] entries[k]).0 == tag && entries[k].1.contains(
                    id,
                );
        }
    } else {
        let prefix = entries.drop_last();
        let last = entries.last();
        assert(spec_wf_entries(prefix)) by {
            assert forall|i: int| 0 <= i < prefix.len() implies spec_no_dup(
                (#[trigger] prefix[i]).1,
            ) by {
                assert(prefix[i] == entries[i]);
            }
            assert forall|i: int, j: int| 0 <= i < j < prefix.len() implies prefix[i].0
                != prefix[j].0 by {
                assert(prefix[i] == entries[i]);
                assert(prefix[j] == entries[j]);
            }
        }
        lemma_tags_for_id_count(prefix, tag, id);
        let found = spec_tags_for_id(entries, id);
        let found_pre = spec_tags_for_id(prefix, id);
        if last.1.contains(id) {
            assert(found == found_pre + seq![last.0]);
            assert(found.drop_last() =~= found_pre);
            assert(found.last() == last.0);
        } else {
            assert(found == found_pre + Seq::<Seq<char>>::empty());
            assert(found =~= found_pre);
        }
        if last.0 == tag && last.1.contains(id) {
            assert(spec_tag_has_id(entries, tag, id)) by {
                assert(entries[entries.len() - 1] == last);
            }
            assert(!spec_tag_has_id(prefix, tag, id)) by {
                if spec_tag_has_id(prefix, tag, id) {
                    let k = choose|k: int|
                        0 <= k < prefix.len() && (#[trigger] prefix[k]).0 == tag
                            && prefix[k].1.contains(id);
                    assert(prefix[k] == entries[k]);
                    assert(entries[k].0 == entries[entries.len() - 1].0);
                }
            }
        } else {
            assert(spec_tag_has_id(entries, tag, id) == spec_tag_has_id(prefix, tag, id)) by {
                if spec_tag_has_id(entries, tag, id) {
                    let k = choose|k: int|
                        0 <= k < entries.len() && (#[trigger] entries[k]).0 == tag
                            && entries[k].1.contains(id);
                    if k < prefix.len() {
                        assert(prefix[k] == entries[k]);
                        assert(spec_tag_has_id(prefix, tag, id));
                    } else {
                        assert(entries[k] == last);
                    }
                }
                if spec_tag_has_id(prefix, tag, id) {
                    let k = choose|k: int|
                        0 <= k < prefix.len() && (#[trigger] prefix[k]).0 == tag
                            && prefix[k].1.contains(id);
                    assert(prefix[k] == entries[k]);
                    assert(spec_tag_has_id(entries, tag, id));
                }
            }
        }
    }
}

/// Attaching a tag makes its lookup by the id name it exactly once.
pub proof fn lemma_add_tag_then_lookup(
    entries: Seq<(Seq<char>, Seq<Seq<char>>)>,
    tag: Seq<char>,
    id: Seq<char>,
)
    requires
        spec_wf_entries(entries),
    ensures
        spec_count_str(spec_tags_for_id(spec_add_tag(entries, tag, id), id), tag) == 1,
{
    let after = spec_add_tag(entries, tag, id);
    lemma_add_wf(entries, tag, id);
    let hit = exists|k: int| 0 <= k < entries.len() && (#[trigger] entries[k]).0 == tag;
    if hit {
        lemma_first_match(entries, tag);
        let k = choose|k: int|
            0 <= k < entries.len() && (#[trigger] entries[k]).0 == tag && forall|j: int|
                0 <= j < k ==> (#[trigger] entries[j]).0 != tag;
        lemma_add_tag_found(entries, tag, id, k);
        assert(after[k] == (tag, spec_add_id(entries[k].1, id)));
        assert(spec_add_id(entries[k].1, id).contains(id)) by {
            if entries[k].1.contains(id) {
            } else {
                let l = entries[k].1.push(id);
                assert(l[l.len() - 1] == id);
            }
        }
        assert(spec_tag_has_id(after, tag, id));
    } else {
        assert forall|j: int| 0 <= j < entries.len() implies (#[trigger] entries[j]).0 != tag by {}
        lemma_add_tag_absent(entries, tag, id);
        let n = entries.len() as int;
        assert(after[n] == (tag, seq![id]));
        assert(seq![id][0] == id);
        assert(seq![id].contains(id));
        assert(spec_tag_has_id(after, tag, id));
    }
    lemma_tags_for_id_count(after, tag, id);
}

/// Attaching the same tag and id twice is the same as attaching it once.
pub proof fn lemma_add_tag_idempotent(
    entries: Seq<(Seq<char>, Seq<Seq<char>>)>,
    tag: Seq<char>,
    id: Seq<char>,
)
    requires
        spec_wf_entries(entries),
    ensures
        spec_add_tag(spec_add_tag(entries, tag, id), tag, id) == spec_add_tag(entries, tag, id),
{
    let after = spec_add_tag(entries, tag, id);
    lemma_add_wf(entries, tag, id);
    let hit = exists|k: int| 0 <= k < entries.len() && (#[trigger] entries[k]).0 == tag;
    if hit {
        lemma_first_match(entries, tag);
        let k = choose|k: int|
            0 <= k < entries.len() && (#[trigger] entries[k]).0 == tag && forall|j: int|
                0 <= j < k ==> (#[trigger] entries[j]).0 != tag;
        lemma_add_tag_found(entries, tag, id, k);
        assert(after[k] == (tag, spec_add_id(entries[k].1, id)));
        assert forall|j: int| 0 <= j < k implies (#[trigger] after[j]).0 != tag by {
            assert(after[j] == entries[j]);
        }
        lemma_add_tag_found(after, tag, id, k);
        assert(spec_add_id(entries[k].1, id).contains(id)) by {
            if entries[k].1.contains(id) {
            } else {
                let l = entries[k].1.push(id);
                assert(l[l.len() - 1] == id);
            }
        }
        assert(spec_add_id(spec_add_id(entries[k].1, id), id) == spec_add_id(entries[k].1, id));
        assert(after.update(k, (tag, spec_add_id(after[k].1, id))) =~= after);
    } else {
        assert forall|j: int| 0 <= j < entries.len() implies (#[trigger] entries[j]).0 != tag by {}
        lemma_add_tag_absent(entries, tag, id);
        let n = entries.len() as int;
        assert(after[n] == (tag, seq![id]));
        assert forall|j: int| 0 <= j < n implies (#[trigger] after[j]).0 != tag by {
            assert(after[j] == entries[j]);
        }
        lemma_add_tag_found(after, tag, id, n);
        assert(seq![id].contains(id)) by {
            assert(seq![id][0] == id);
        }
        assert(spec_add_id(seq![id], id) == seq![id]);
        assert(after.update(n, (tag, seq![id])) =~= after);
    }
}

/// Removing then classifying one more element.
proof fn lemma_remove_id_snoc(pre: Seq<Seq<char>>, x: Seq<char>, id: Seq<char>)
    ensures
        !pre.contains(id) && x == id ==> spec_remove_id(pre.push(x), id) == pre,
        !pre.contains(id) && x != id ==> spec_remove_id(pre.push(x), id) == pre.push(x),
        pre.contains(id) ==> spec_remove_id(pre.push(x), id) == spec_remove_id(pre, id).push(x),
    decreases pre.len(),
{
    if pre.len() == 0 {
        if x == id {
            assert(spec_remove_id(pre.push(x), id) =~= pre);
        } else {
            assert(pre.push(x)[0] == x);
            assert(spec_remove_id(pre.push(x), id) =~= seq![x] + spec_remove_id(
                pre.push(x).drop_first(),
                id,
            ));
            assert(pre.push(x).drop_first() =~= Seq::<Seq<char>>::empty());
            assert(spec_remove_id(pre.push(x), id) =~= pre.push(x));
        }
    } else {
        let tail = pre.drop_first();
        assert(pre.push(x).drop_first() =~= tail.push(x));
        lemma_remove_id_snoc(tail, x, id);
        if pre[0] == id {
            assert(pre.contains(id)) by {
                assert(pre[0] == id);
            }
            assert(spec_remove_id(pre.push(x), id) =~= pre.push(x).drop_first());
            assert(spec_remove_id(pre, id) =~= tail);
            assert(pre.push(x).drop_first() =~= tail.push(x));
        } else {
            assert(pre.contains(id) == tail.contains(id)) by {
                if pre.contains(id) {
                    let w = choose|w: int| 0 <= w < pre.len() && pre[w] == id;
                    assert(w != 0);
                    assert(tail[w - 1] == id);
                }
                if tail.contains(id) {
                    let w = choose|w: int| 0 <= w < tail.len() && tail[w] == id;
                    assert(pre[w + 1] == id);
                }
            }
            if tail.contains(id) {
                assert(spec_remove_id(pre.push(x), id) =~= seq![pre[0]] + spec_remove_id(
                    tail.push(x),
                    id,
                ));
                assert(spec_remove_id(pre, id) =~= seq![pre[0]] + spec_remove_id(tail, id));
                assert(seq![pre[0]] + spec_remove_id(tail, id).push(x) =~= (seq![pre[0]]
                    + spec_remove_id(tail, id)).push(x));
            } else {
                if x == id {
                    assert(spec_remove_id(pre.push(x), id) =~= seq![pre[0]] + spec_remove_id(
                        tail.push(x),
                        id,
                    ));
                    assert(seq![pre[0]] + tail =~= pre);
                } else {
                    assert(spec_remove_id(pre.push(x), id) =~= seq![pre[0]] + spec_remove_id(
                        tail.push(x),
                        id,
                    ));
                    assert(seq![pre[0]] + tail.push(x) =~= pre.push(x));
                }
            }
        }
    }
}

/// Attaching to an absent tag appends a fresh entry.
proof fn lemma_add_tag_absent(entries: Seq<(Seq<char>, Seq<Seq<char>>)>, tag: Seq<char>, id: Seq<char>)
    requires
        forall|j: int| 0 <= j < entries.len() ==> (#[trigger] entries[j]).0 != tag,
    ensures
        spec_add_tag(entries, tag, id) == entries.push((tag, seq![id])),
    decreases entries.len(),
{
    if entries.len() == 0 {
        assert(spec_add_tag(entries, tag, id) =~= entries.push((tag, seq![id])));
    } else {
        let tail = entries.drop_first();
        assert forall|j: int| 0 <= j < tail.len() implies (#[trigger] tail[j]).0 != tag by {
            assert(tail[j] == entries[j + 1]);
        }
        lemma_add_tag_absent(tail, tag, id);
        assert(seq![entries[0]] + tail.push((tag, seq![id])) =~= entries.push((tag, seq![id])));
    }
}

/// Attaching to a present tag updates exactly its entry.
proof fn lemma_add_tag_found(
    entries: Seq<(Seq<char>, Seq<Seq<char>>)>,
    tag: Seq<char>,
    id: Seq<char>,
    k: int,
)
    requires
        0 <= k < entries.len(),
        entries[k].0 == tag,
        forall|j: int| 0 <= j < k ==> (#[trigger] entries[j]).0 != tag,
    ensures
        spec_add_tag(entries, tag, id) == entries.update(
            k,
            (tag, spec_add_id(entries[k].1, id)),
        ),
    decreases k,
{
    if k == 0 {
        assert(spec_add_tag(entries, tag, id) =~= entries.update(
            0,
            (tag, spec_add_id(entries[0].1, id)),
        ));
    } else {
        let tail = entries.drop_first();
        assert(tail[k - 1] == entries[k]);
        assert forall|j: int| 0 <= j < k - 1 implies (#[trigger] tail[j]).0 != tag by {
            assert(tail[j] == entries[j + 1]);
        }
        lemma_add_tag_found(tail, tag, id, k - 1);
        assert(seq![entries[0]] + tail.update(k - 1, (tag, spec_add_id(tail[k - 1].1, id)))
            =~= entries.update(k, (tag, spec_add_id(entries[k].1, id))));
    }
}

/// Detaching from an absent tag changes nothing.
proof fn lemma_remove_tag_absent(
    entries: Seq<(Seq<char>, Seq<Seq<char>>)>,
    tag: Seq<char>,
    id: Seq<char>,
)
    requires
        forall|j: int| 0 <= j < entries.len() ==> (#[trigger] entries[j]).0 != tag,
    ensures
        spec_remove_tag(entries, tag, id) == entries,
    decreases entries.len(),
{
    if entries.len() > 0 {
        let tail = entries.drop_first();
        assert forall|j: int| 0 <= j < tail.len() implies (#[trigger] tail[j]).0 != tag by {
            assert(tail[j] == entries[j + 1]);
        }
        lemma_remove_tag_absent(tail, tag, id);
        assert(seq![entries[0]] + tail =~= entries);
    }
}

/// Detaching from a present tag updates exactly its entry.
proof fn lemma_remove_tag_found(
    entries: Seq<(Seq<char>, Seq<Seq<char>>)>,
    tag: Seq<char>,
    id: Seq<char>,
    k: int,
)
    requires
        0 <= k < entries.len(),
        entries[k].0 == tag,
        forall|j: int| 0 <= j < k ==> (#[trigger] entries[j]).0 != tag,
    ensures
        spec_remove_tag(entries, tag, id) == entries.update(
            k,
            (tag, spec_remove_id(entries[k].1, id)),
        ),
    decreases k,
{
    if k == 0 {
        assert(spec_remove_tag(entries, tag, id) =~= entries.update(
            0,
            (tag, spec_remove_id(entries[0].1, id)),
        ));
    } else {
        let tail = entries.drop_first();
        assert(tail[k - 1] == entries[k]);
        assert forall|j: int| 0 <= j < k - 1 implies (#[trigger] tail[j]).0 != tag by {
            assert(tail[j] == entries[j + 1]);
        }
        lemma_remove_tag_found(tail, tag, id, k - 1);
        assert(seq![entries[0]] + tail.update(k - 1, (tag, spec_remove_id(tail[k - 1].1, id)))
            =~= entries.update(k, (tag, spec_remove_id(entries[k].1, id))));
    }
}

/// Attaching preserves well-formedness.
proof fn lemma_add_wf(entries: Seq<(Seq<char>, Seq<Seq<char>>)>, tag: Seq<char>, id: Seq<char>)
    requires
        spec_wf_entries(entries),
    ensures
        spec_wf_entries(spec_add_tag(entries, tag, id)),
{
    let hit = exists|k: int| 0 <= k < entries.len() && (#[trigger] entries[k]).0 == tag;
    if hit {
        let k = choose|k: int|
            0 <= k < entries.len() && (#[trigger] entries[k]).0 == tag && forall|j: int|
                0 <= j < k ==> (#[trigger] entries[j]).0 != tag;
        lemma_add_tag_found(entries, tag, id, k);
        let after = entries.update(k, (tag, spec_add_id(entries[k].1, id)));
        assert forall|i: int| 0 <= i < after.len() implies spec_no_dup(
            (#[trigger] after[i]).1,
        ) by {
            if i == k {
                lemma_add_id_no_dup(entries[k].1, id);
            } else {
                assert(after[i] == entries[i]);
            }
        }
    } else {
        assert forall|k: int| 0 <= k < entries.len() implies (#[trigger] entries[k]).0 != tag by {}
        lemma_add_tag_absent(entries, tag, id);
        let after = entries.push((tag, seq![id]));
        assert forall|i: int, j: int| 0 <= i < j < after.len() implies after[i].0 != after[j].0 by {
            if j < entries.len() {
                assert(after[i] == entries[i]);
                assert(after[j] == entries[j]);
            } else {
                assert(after[i] == entries[i]);
            }
        }
        assert forall|i: int| 0 <= i < after.len() implies spec_no_dup(
            (#[trigger] after[i]).1,
        ) by {
            if i < entries.len() {
                assert(after[i] == entries[i]);
            } else {
                assert(after[i].1 =~= seq![id]);
            }
        }
    }
}

/// A first-match index exists for any present tag.
proof fn lemma_first_match(entries: Seq<(Seq<char>, Seq<Seq<char>>)>, tag: Seq<char>)
    requires
        exists|k: int| 0 <= k < entries.len() && (#[trigger] entries[k]).0 == tag,
    ensures
        exists|k: int|
            0 <= k < entries.len() && (#[trigger] entries[k]).0 == tag && forall|j: int|
                0 <= j < k ==> (#[trigger] entries[j]).0 != tag,
    decreases entries.len(),
{
    let w = choose|k: int| 0 <= k < entries.len() && (#[trigger] entries[k]).0 == tag;
    if entries[0].0 == tag {
        assert(0 <= 0 < entries.len() && entries[0].0 == tag && forall|j: int|
            0 <= j < 0 ==> (#[trigger] entries[j]).0 != tag);
    } else {
        let tail = entries.drop_first();
        assert(tail[w - 1] == entries[w]);
        lemma_first_match(tail, tag);
        let k = choose|k: int|
            0 <= k < tail.len() && (#[trigger] tail[k]).0 == tag && forall|j: int|
                0 <= j < k ==> (#[trigger] tail[j]).0 != tag;
        assert(entries[k + 1] == tail[k]);
        assert forall|j: int| 0 <= j < k + 1 implies (#[trigger] entries[j]).0 != tag by {
            if j > 0 {
                assert(tail[j - 1] == entries[j]);
            }
        }
    }
}

/// Attaching keeps an id list duplicate-free.
proof fn lemma_add_id_no_dup(l: Seq<Seq<char>>, id: Seq<char>)
    requires
        spec_no_dup(l),
    ensures
        spec_no_dup(spec_add_id(l, id)),
{
    if !l.contains(id) {
        let after = l.push(id);
        assert forall|a: int, b: int| 0 <= a < b < after.len() implies after[a] != after[b] by {
            if b < l.len() {
            } else {
                assert(after[a] == l[a]);
                if l[a] == id {
                    assert(l.contains(id));
                }
            }
        }
    }
}

/// Detaching preserves well-formedness.
proof fn lemma_remove_wf(entries: Seq<(Seq<char>, Seq<Seq<char>>)>, tag: Seq<char>, id: Seq<char>)
    requires
        spec_wf_entries(entries),
    ensures
        spec_wf_entries(spec_remove_tag(entries, tag, id)),
{
    let hit = exists|k: int| 0 <= k < entries.len() && (#[trigger] entries[k]).0 == tag;
    if hit {
        lemma_first_match(entries, tag);
        let k = choose|k: int|
            0 <= k < entries.len() && (#[trigger] entries[k]).0 == tag && forall|j: int|
                0 <= j < k ==> (#[trigger] entries[j]).0 != tag;
        lemma_remove_tag_found(entries, tag, id, k);
        let after = entries.update(k, (tag, spec_remove_id(entries[k].1, id)));
        assert forall|i: int| 0 <= i < after.len() implies spec_no_dup(
            (#[trigger] after[i]).1,
        ) by {
            if i == k {
                lemma_remove_id_no_dup(entries[k].1, id);
            } else {
                assert(after[i] == entries[i]);
            }
        }
    } else {
        assert forall|k: int| 0 <= k < entries.len() implies (#[trigger] entries[k]).0 != tag by {}
        lemma_remove_tag_absent(entries, tag, id);
    }
}

/// Detaching keeps an id list duplicate-free.
proof fn lemma_remove_id_no_dup(l: Seq<Seq<char>>, id: Seq<char>)
    requires
        spec_no_dup(l),
    ensures
        spec_no_dup(spec_remove_id(l, id)),
    decreases l.len(),
{
    if l.len() > 0 {
        let tail = l.drop_first();
        assert(spec_no_dup(tail)) by {
            assert forall|a: int, b: int| 0 <= a < b < tail.len() implies tail[a] != tail[b] by {
                assert(tail[a] == l[a + 1]);
                assert(tail[b] == l[b + 1]);
            }
        }
        if l[0] == id {
        } else {
            lemma_remove_id_no_dup(tail, id);
            let after = seq![l[0]] + spec_remove_id(tail, id);
            assert forall|a: int, b: int| 0 <= a < b < after.len() implies after[a] != after[b] by {
                lemma_remove_id_subset(tail, id, b - 1);
                if a > 0 {
                    lemma_remove_id_subset(tail, id, a - 1);
                }
            }
        }
    }
}

/// Removing an absent id changes nothing.
proof fn lemma_remove_id_absent(l: Seq<Seq<char>>, id: Seq<char>)
    requires
        !l.contains(id),
    ensures
        spec_remove_id(l, id) == l,
    decreases l.len(),
{
    if l.len() > 0 {
        let tail = l.drop_first();
        assert(l[0] != id) by {
            if l[0] == id {
                assert(l.contains(id));
            }
        }
        assert(!tail.contains(id)) by {
            if tail.contains(id) {
                let w = choose|w: int| 0 <= w < tail.len() && tail[w] == id;
                assert(l[w + 1] == id);
            }
        }
        lemma_remove_id_absent(tail, id);
        assert(seq![l[0]] + tail =~= l);
    }
}

/// Every element of a list with one removed came from the list.
proof fn lemma_remove_id_subset(l: Seq<Seq<char>>, id: Seq<char>, i: int)
    requires
        0 <= i < spec_remove_id(l, id).len(),
    ensures
        l.contains(spec_remove_id(l, id)[i]),
    decreases l.len(),
{
    if l.len() > 0 {
        let tail = l.drop_first();
        if l[0] == id {
            assert(spec_remove_id(l, id) == tail);
            assert(l[i + 1] == tail[i]);
        } else {
            if i == 0 {
                assert(spec_remove_id(l, id)[0] == l[0]);
            } else {
                lemma_remove_id_subset(tail, id, i - 1);
                let w = choose|w: int|
                    0 <= w < tail.len() && tail[w] == spec_remove_id(tail, id)[i - 1];
                assert(l[w + 1] == tail[w]);
                assert(spec_remove_id(l, id)[i] == spec_remove_id(tail, id)[i - 1]);
            }
        }
    }
}

} // verus!
