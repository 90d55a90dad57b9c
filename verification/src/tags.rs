//! Tag CRUD and the note-to-tag association, idempotent in both directions.

use vstd::prelude::*;
use crate::errors::AppError;
use crate::idgen::{new_ulid, valid_id};
use crate::models::{
    opt_view,
    NoteTag,
    NoteTagV,
    Tag,
    TagV,
    TagWithCount,
    TagWithCountV,
};
use crate::seqs::{lemma_filter_pairwise, lemma_filter_push, lemma_take_succ};
use crate::store::{
    assocs_view,
    distinct_assocs,
    distinct_tags,
    has_assoc,
    has_note,
    has_tag,
    has_tag_name,
    note_position,
    tag_name_taken,
    tag_position,
    tags_view,
    wf,
    Store,
    StoreV,
};

verus! {

/// The display color a tag gets when none is chosen.
pub open spec fn default_color() -> Seq<char> {
    "#3b82f6"@
}

/// Keeps the tags whose identifier differs from `id`.
pub open spec fn not_tag(id: Seq<char>) -> spec_fn(TagV) -> bool {
    |t: TagV| t.id != id
}

/// Keeps the associations not involving tag `id`.
pub open spec fn assoc_not_tag(id: Seq<char>) -> spec_fn(NoteTagV) -> bool {
    |a: NoteTagV| a.tag_id != id
}

/// Keeps the associations other than the given pair.
pub open spec fn assoc_not_pair(note_id: Seq<char>, tag_id: Seq<char>) -> spec_fn(
    NoteTagV,
) -> bool {
    |a: NoteTagV| !(a.note_id == note_id && a.tag_id == tag_id)
}

/// Selects the associations bearing tag `tid`.
pub open spec fn assoc_of_tag(tid: Seq<char>) -> spec_fn(NoteTagV) -> bool {
    |a: NoteTagV| a.tag_id == tid
}

/// Selects the tags associated with note `nid`.
pub open spec fn tag_on_note(assocs: Seq<NoteTagV>, nid: Seq<char>) -> spec_fn(TagV) -> bool {
    |t: TagV| has_assoc(assocs, nid, t.id)
}

/// How many notes bear tag `tid`.
pub open spec fn count_with_tag(assocs: Seq<NoteTagV>, tid: Seq<char>) -> int {
    assocs.filter(assoc_of_tag(tid)).len() as int
}

/// The listed form of one tag, joined with its note count.
pub open spec fn tag_item_of(assocs: Seq<NoteTagV>, t: TagV) -> TagWithCountV {
    TagWithCountV {
        id: t.id,
        name: t.name,
        color: t.color,
        note_count: count_with_tag(assocs, t.id),
    }
}

/// Index of the first association row pairing `nid` with `tid`, if any.
pub fn assoc_position(assocs: &Vec<NoteTag>, nid: &String, tid: &String) -> (r: Option<usize>)
    ensures
        match r {
            Some(i) => i < assocs.len() && assocs_view(assocs@)[i as int].note_id == nid@
                && assocs_view(assocs@)[i as int].tag_id == tid@,
            None => !has_assoc(assocs_view(assocs@), nid@, tid@),
        },
{
    let ghost v = assocs_view(assocs@);
    for i in 0..assocs.len()
        invariant
            v == assocs_view(assocs@),
            forall|j: int|
                0 <= j < i ==> !((#[trigger] v[j]).note_id == nid@ && v[j].tag_id == tid@),
    {
        if assocs[i].note_id == *nid && assocs[i].tag_id == *tid {
            return Some(i);
        }
    }
    None
}

/// Counts the associations bearing tag `tid`.
pub fn count_assocs_with(assocs: &Vec<NoteTag>, tid: &String) -> (r: usize)
    ensures
        r as int == count_with_tag(assocs_view(assocs@), tid@),
        r <= assocs@.len(),
{
    let ghost v = assocs_view(assocs@);
    let ghost p = assoc_of_tag(tid@);
    let mut count: usize = 0;
    for i in 0..assocs.len()
        invariant
            v == assocs_view(assocs@),
            p == assoc_of_tag(tid@),
            count as int == v.take(i as int).filter(p).len(),
            count <= i,
    {
        if assocs[i].tag_id == *tid {
            count = count + 1;
        }
        proof {
            lemma_take_succ(v, i as int);
            lemma_filter_push(v.take(i as int), v[i as int], p);
        }
    }
    proof {
        assert(v.take(assocs@.len() as int) =~= v);
    }
    count
}

/// All tags except the one carrying `id`.
pub fn retain_tags_without(tags: &Vec<Tag>, id: &String) -> (r: Vec<Tag>)
    ensures
        tags_view(r@) == tags_view(tags@).filter(not_tag(id@)),
{
    let ghost v = tags_view(tags@);
    let ghost p = not_tag(id@);
    let mut out: Vec<Tag> = Vec::new();
    for i in 0..tags.len()
        invariant
            v == tags_view(tags@),
            p == not_tag(id@),
            tags_view(out@) == v.take(i as int).filter(p),
    {
        let ghost prev = tags_view(out@);
        if !(tags[i].id == *id) {
            out.push(tags[i].cloned());
        }
        proof {
            lemma_take_succ(v, i as int);
            lemma_filter_push(v.take(i as int), v[i as int], p);
            if p(v[i as int]) {
                assert(tags_view(out@) =~= prev.push(v[i as int]));
            }
        }
    }
    proof {
        assert(v.take(tags@.len() as int) =~= v);
    }
    out
}

/// All associations except those involving tag `id`.
pub fn retain_assocs_without_tag(assocs: &Vec<NoteTag>, id: &String) -> (r: Vec<NoteTag>)
    ensures
        assocs_view(r@) == assocs_view(assocs@).filter(assoc_not_tag(id@)),
{
    let ghost v = assocs_view(assocs@);
    let ghost p = assoc_not_tag(id@);
    let mut out: Vec<NoteTag> = Vec::new();
    for i in 0..assocs.len()
        invariant
            v == assocs_view(assocs@),
            p == assoc_not_tag(id@),
            assocs_view(out@) == v.take(i as int).filter(p),
    {
        let ghost prev = assocs_view(out@);
        if !(assocs[i].tag_id == *id) {
            out.push(assocs[i].cloned());
        }
        proof {
            lemma_take_succ(v, i as int);
            lemma_filter_push(v.take(i as int), v[i as int], p);
            if p(v[i as int]) {
                assert(assocs_view(out@) =~= prev.push(v[i as int]));
            }
        }
    }
    proof {
        assert(v.take(assocs@.len() as int) =~= v);
    }
    out
}

/// All associations except the given pair.
pub fn retain_assocs_without_pair(assocs: &Vec<NoteTag>, nid: &String, tid: &String) -> (r: Vec<
    NoteTag,
>)
    ensures
        assocs_view(r@) == assocs_view(assocs@).filter(assoc_not_pair(nid@, tid@)),
{
    let ghost v = assocs_view(assocs@);
    let ghost p = assoc_not_pair(nid@, tid@);
    let mut out: Vec<NoteTag> = Vec::new();
    for i in 0..assocs.len()
        invariant
            v == assocs_view(assocs@),
            p == assoc_not_pair(nid@, tid@),
            assocs_view(out@) == v.take(i as int).filter(p),
    {
        let ghost prev = assocs_view(out@);
        if !(assocs[i].note_id == *nid && assocs[i].tag_id == *tid) {
            out.push(assocs[i].cloned());
        }
        proof {
            lemma_take_succ(v, i as int);
            lemma_filter_push(v.take(i as int), v[i as int], p);
            if p(v[i as int]) {
                assert(assocs_view(out@) =~= prev.push(v[i as int]));
            }
        }
    }
    proof {
        assert(v.take(assocs@.len() as int) =~= v);
    }
    out
}

/// Dropping associations by a filter that can only narrow the set preserves
/// the store invariant, provided tags and notes are untouched or the dropped
/// tag is gone from both.
proof fn lemma_wf_filter_assocs(o: StoreV, p: spec_fn(NoteTagV) -> bool)
    requires
        wf(o),
    ensures
        distinct_assocs(o.note_tags.filter(p)),
        forall|i: int|
            0 <= i < o.note_tags.filter(p).len() ==> has_note(
                o.notes,
                (#[trigger] o.note_tags.filter(p)[i]).note_id,
            ) && has_tag(o.tags, o.note_tags.filter(p)[i].tag_id),
{
    let na = o.note_tags.filter(p);
    let r = |a: NoteTagV, b: NoteTagV| !(a.note_id == b.note_id && a.tag_id == b.tag_id);
    assert forall|a: int, b: int|
        0 <= a < o.note_tags.len() && 0 <= b < o.note_tags.len() && a != b implies #[trigger] r(
        o.note_tags[a],
        o.note_tags[b],
    ) by {
        if a < b {
            assert(!(o.note_tags[a].note_id == o.note_tags[b].note_id && o.note_tags[a].tag_id
                == o.note_tags[b].tag_id));
        } else {
            assert(!(o.note_tags[b].note_id == o.note_tags[a].note_id && o.note_tags[b].tag_id
                == o.note_tags[a].tag_id));
        }
    }
    lemma_filter_pairwise(o.note_tags, p, r);
    assert forall|a: int, b: int|
        0 <= a < b < na.len() implies !((#[trigger] na[a]).note_id == (#[trigger] na[b]).note_id
            && na[a].tag_id == na[b].tag_id) by {
        assert(r(na[a], na[b]));
    }
    assert forall|i: int|
        0 <= i < na.len() implies has_note(o.notes, (#[trigger] na[i]).note_id) && has_tag(
        o.tags,
        na[i].tag_id,
    ) by {
        assert(na.contains(na[i]));
        o.note_tags.lemma_filter_contains_rev(p, na[i]);
        let k = choose|k: int| 0 <= k < o.note_tags.len() && o.note_tags[k] == na[i];
        assert(has_note(o.notes, o.note_tags[k].note_id));
        assert(has_tag(o.tags, o.note_tags[k].tag_id));
    }
}

impl Store {
    /// Persists a new tag under a caller-supplied identifier. Succeeds
    /// exactly when the identifier and the display name are both fresh;
    /// when no color is chosen the default display color is used.
    pub fn create_tag_with(&mut self, id: String, name: String, color: Option<String>) -> (r:
        Result<Tag, AppError>)
        requires
            wf(old(self)@),
        ensures
            wf(final(self)@),
            r is Ok <==> (!has_tag(old(self)@.tags, id@) && !has_tag_name(
                old(self)@.tags,
                name@,
            )),
            r matches Ok(t) ==> ({
                &&& t@ == (TagV {
                    id: id@,
                    name: name@,
                    color: match opt_view(color) {
                        Some(c) => c,
                        None => default_color(),
                    },
                })
                &&& final(self)@ == (StoreV { tags: old(self)@.tags.push(t@), ..old(self)@ })
            }),
            r matches Err(e) ==> final(self)@ == old(self)@ && e is SqliteError,
    {
        if tag_position(&self.tags, &id).is_some() {
            return Err(AppError::SqliteError("UNIQUE constraint failed: tags.id".to_owned()));
        }
        if tag_name_taken(&self.tags, &name) {
            return Err(AppError::SqliteError("UNIQUE constraint failed: tags.name".to_owned()));
        }
        let chosen = match color {
            Some(c) => c,
            None => "#3b82f6".to_owned(),
        };
        let stored = Tag { id: id.clone(), name: name.clone(), color: chosen.clone() };
        self.tags.push(stored);
        let ret = Tag { id, name, color: chosen };
        proof {
            let o = old(self)@;
            assert(self@.tags =~= o.tags.push(ret@));
            assert(self@ =~= (StoreV { tags: o.tags.push(ret@), ..o }));
            let t = self@.tags;
            assert forall|a: int, b: int| 0 <= a < b < t.len() implies (#[trigger] t[a]).id != (
            #[trigger] t[b]).id && t[a].name != t[b].name by {
                if b < o.tags.len() {
                    assert(t[a] == o.tags[a] && t[b] == o.tags[b]);
                } else {
                    assert(t[a] == o.tags[a] && t[b] == ret@);
                }
            }
            assert forall|i: int|
                0 <= i < o.note_tags.len() implies has_note(
                o.notes,
                (#[trigger] o.note_tags[i]).note_id,
            ) && has_tag(t, o.note_tags[i].tag_id) by {
                let k = choose|k: int|
                    0 <= k < o.tags.len() && (#[trigger] o.tags[k]).id == o.note_tags[i].tag_id;
                assert(t[k] == o.tags[k]);
            }
        }
        Ok(ret)
    }

    /// Creates a tag under a freshly generated identifier.
    pub fn create_tag(&mut self, name: String, color: Option<String>) -> (r: Result<
        Tag,
        AppError,
    >)
        requires
            wf(old(self)@),
        ensures
            wf(final(self)@),
            r matches Ok(t) ==> ({
                &&& valid_id(t@.id)
                &&& t@.name == name@
                &&& t@.color == (match opt_view(color) {
                    Some(c) => c,
                    None => default_color(),
                })
                &&& final(self)@ == (StoreV { tags: old(self)@.tags.push(t@), ..old(self)@ })
            }),
            r matches Err(e) ==> final(self)@ == old(self)@ && e is SqliteError,
            has_tag_name(old(self)@.tags, name@) ==> r is Err,
    {
        let id = new_ulid();
        self.create_tag_with(id, name, color)
    }

    /// Lists every tag, each joined with the number of notes bearing it.
    /// The length bound is forced by the signed count in the result.
    pub fn list_tags(&self) -> (r: Vec<TagWithCount>)
        requires
            wf(self@),
            self@.note_tags.len() <= 0x7fff_ffff_ffff_ffff,
        ensures
            r@.map_values(|it: TagWithCount| it@) == self@.tags.map_values(
                |t: TagV| tag_item_of(self@.note_tags, t),
            ),
    {
        let ghost tv = self@.tags;
        let mut out: Vec<TagWithCount> = Vec::new();
        for i in 0..self.tags.len()
            invariant
                tv == self@.tags,
                wf(self@),
                self@.note_tags.len() <= 0x7fff_ffff_ffff_ffff,
                out@.map_values(|it: TagWithCount| it@) == tv.take(i as int).map_values(
                    |t: TagV| tag_item_of(self@.note_tags, t),
                ),
        {
            let ghost prev = out@.map_values(|it: TagWithCount| it@);
            let count = count_assocs_with(&self.note_tags, &self.tags[i].id);
            out.push(
                TagWithCount {
                    id: self.tags[i].id.clone(),
                    name: self.tags[i].name.clone(),
                    color: self.tags[i].color.clone(),
                    note_count: count as i64,
                },
            );
            proof {
                lemma_take_succ(tv, i as int);
                assert(out@.map_values(|it: TagWithCount| it@) =~= prev.push(
                    tag_item_of(self@.note_tags, tv[i as int]),
                ));
                assert(tv.take(i + 1).map_values(|t: TagV| tag_item_of(self@.note_tags, t))
                    =~= tv.take(i as int).map_values(
                    |t: TagV| tag_item_of(self@.note_tags, t),
                ).push(tag_item_of(self@.note_tags, tv[i as int])));
            }
        }
        proof {
            assert(tv.take(self.tags@.len() as int) =~= tv);
        }
        out
    }

    /// Deletes the tag carrying `tag_id` and every association bearing it.
    /// Succeeds exactly when the tag exists.
    pub fn delete_tag(&mut self, tag_id: String) -> (r: Result<(), AppError>)
        requires
            wf(old(self)@),
        ensures
            wf(final(self)@),
            r is Ok <==> has_tag(old(self)@.tags, tag_id@),
            r is Ok ==> final(self)@ == (StoreV {
                tags: old(self)@.tags.filter(not_tag(tag_id@)),
                note_tags: old(self)@.note_tags.filter(assoc_not_tag(tag_id@)),
                ..old(self)@
            }),
            r matches Err(e) ==> final(self)@ == old(self)@ && (e matches AppError::NotFound(m)
                && m@ == tag_id@),
    {
        if tag_position(&self.tags, &tag_id).is_none() {
            return Err(AppError::NotFound(tag_id));
        }
        let new_tags = retain_tags_without(&self.tags, &tag_id);
        let new_assocs = retain_assocs_without_tag(&self.note_tags, &tag_id);
        self.tags = new_tags;
        self.note_tags = new_assocs;
        proof {
            let o = old(self)@;
            assert(self@ =~= (StoreV {
                tags: o.tags.filter(not_tag(tag_id@)),
                note_tags: o.note_tags.filter(assoc_not_tag(tag_id@)),
                ..o
            }));
            let tp = not_tag(tag_id@);
            let tt = o.tags.filter(tp);
            assert(distinct_tags(tt)) by {
                let r = |a: TagV, b: TagV| a.id != b.id && a.name != b.name;
                assert forall|a: int, b: int|
                    0 <= a < o.tags.len() && 0 <= b < o.tags.len() && a != b implies #[trigger] r(
                    o.tags[a],
                    o.tags[b],
                ) by {
                    if a < b {
                        assert(o.tags[a].id != o.tags[b].id && o.tags[a].name != o.tags[b].name);
                    } else {
                        assert(o.tags[b].id != o.tags[a].id && o.tags[b].name != o.tags[a].name);
                    }
                }
                lemma_filter_pairwise(o.tags, tp, r);
                assert forall|a: int, b: int|
                    0 <= a < b < tt.len() implies (#[trigger] tt[a]).id != (#[trigger] tt[b]).id
                        && tt[a].name != tt[b].name by {
                    assert(r(tt[a], tt[b]));
                }
            }
            let q = assoc_not_tag(tag_id@);
            lemma_wf_filter_assocs(o, q);
            let na = o.note_tags.filter(q);
            assert forall|i: int|
                0 <= i < na.len() implies has_note(o.notes, (#[trigger] na[i]).note_id)
                    && has_tag(tt, na[i].tag_id) by {
                o.note_tags.lemma_filter_pred(q, i);
                assert(has_tag(o.tags, na[i].tag_id));
                let k = choose|k: int|
                    0 <= k < o.tags.len() && (#[trigger] o.tags[k]).id == na[i].tag_id;
                assert(tp(o.tags[k]));
                o.tags.lemma_filter_contains(tp, k);
                let w = choose|w: int| 0 <= w < tt.len() && tt[w] == o.tags[k];
                assert(tt[w].id == na[i].tag_id);
            }
        }
        Ok(())
    }

    /// Associates tag `tag_id` with note `note_id`. Re-adding an existing
    /// pair is a no-op, not an error; a missing note or tag is reported as
    /// not found. Succeeds exactly when both entities exist.
    pub fn add_tag_to_note(&mut self, note_id: String, tag_id: String) -> (r: Result<
        (),
        AppError,
    >)
        requires
            wf(old(self)@),
        ensures
            wf(final(self)@),
            r is Ok <==> (has_note(old(self)@.notes, note_id@) && has_tag(
                old(self)@.tags,
                tag_id@,
            )),
            r is Ok ==> final(self)@ == (StoreV {
                note_tags: if has_assoc(old(self)@.note_tags, note_id@, tag_id@) {
                    old(self)@.note_tags
                } else {
                    old(self)@.note_tags.push(NoteTagV { note_id: note_id@, tag_id: tag_id@ })
                },
                ..old(self)@
            }),
            r matches Err(e) ==> final(self)@ == old(self)@ && (e matches AppError::NotFound(m)
                && (m@ == note_id@ || m@ == tag_id@)),
    {
        if note_position(&self.notes, &note_id).is_none() {
            return Err(AppError::NotFound(note_id));
        }
        if tag_position(&self.tags, &tag_id).is_none() {
            return Err(AppError::NotFound(tag_id));
        }
        if assoc_position(&self.note_tags, &note_id, &tag_id).is_some() {
            return Ok(());
        }
        let pair = NoteTag { note_id: note_id, tag_id: tag_id };
        self.note_tags.push(pair);
        proof {
            let o = old(self)@;
            let e = NoteTagV { note_id: note_id@, tag_id: tag_id@ };
            assert(self@.note_tags =~= o.note_tags.push(e));
            assert(self@ =~= (StoreV { note_tags: o.note_tags.push(e), ..o }));
            let t = self@.note_tags;
            assert forall|a: int, b: int|
                0 <= a < b < t.len() implies !((#[trigger] t[a]).note_id == (
            #[trigger] t[b]).note_id && t[a].tag_id == t[b].tag_id) by {
                if b < o.note_tags.len() {
                    assert(t[a] == o.note_tags[a] && t[b] == o.note_tags[b]);
                } else {
                    assert(t[a] == o.note_tags[a] && t[b] == e);
                }
            }
            assert forall|i: int|
                0 <= i < t.len() implies has_note(o.notes, (#[trigger] t[i]).note_id) && has_tag(
                o.tags,
                t[i].tag_id,
            ) by {
                if i < o.note_tags.len() {
                    assert(t[i] == o.note_tags[i]);
                } else {
                    assert(t[i] == e);
                }
            }
        }
        Ok(())
    }

    /// Removes the association between `note_id` and `tag_id`. Removing a
    /// pair that does not exist is a no-op, not an error.
    pub fn remove_tag_from_note(&mut self, note_id: String, tag_id: String) -> (r: Result<
        (),
        AppError,
    >)
        requires
            wf(old(self)@),
        ensures
            wf(final(self)@),
            r is Ok,
            final(self)@ == (StoreV {
                note_tags: old(self)@.note_tags.filter(assoc_not_pair(note_id@, tag_id@)),
                ..old(self)@
            }),
    {
        let new_assocs = retain_assocs_without_pair(&self.note_tags, &note_id, &tag_id);
        self.note_tags = new_assocs;
        proof {
            let o = old(self)@;
            assert(self@ =~= (StoreV {
                note_tags: o.note_tags.filter(assoc_not_pair(note_id@, tag_id@)),
                ..o
            }));
            lemma_wf_filter_assocs(o, assoc_not_pair(note_id@, tag_id@));
        }
        Ok(())
    }

    /// Lists the tags borne by note `note_id`, in tag order. A note with no
    /// associations — or an unknown identifier — yields the empty list.
    pub fn get_note_tags(&self, note_id: String) -> (r: Vec<Tag>)
        requires
            wf(self@),
        ensures
            r@.map_values(|t: Tag| t@) == self@.tags.filter(
                tag_on_note(self@.note_tags, note_id@),
            ),
    {
        let ghost tv = self@.tags;
        let ghost p = tag_on_note(self@.note_tags, note_id@);
        let mut out: Vec<Tag> = Vec::new();
        for i in 0..self.tags.len()
            invariant
                tv == self@.tags,
                p == tag_on_note(self@.note_tags, note_id@),
                tags_view(out@) == tv.take(i as int).filter(p),
        {
            let ghost prev = tags_view(out@);
            if assoc_position(&self.note_tags, &note_id, &self.tags[i].id).is_some() {
                out.push(self.tags[i].cloned());
                proof {
                    assert(has_assoc(self@.note_tags, note_id@, tv[i as int].id));
                }
            }
            proof {
                lemma_take_succ(tv, i as int);
                lemma_filter_push(tv.take(i as int), tv[i as int], p);
                if p(tv[i as int]) {
                    assert(tags_view(out@) =~= prev.push(tv[i as int]));
                }
            }
        }
        proof {
            assert(tv.take(self.tags@.len() as int) =~= tv);
        }
        out
    }
}

} // verus!
