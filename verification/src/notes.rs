//! Note CRUD: creation, lookup, partial update, and cascading deletion.

use vstd::prelude::*;
use crate::errors::AppError;
use crate::idgen::{new_ulid, now_millis, valid_id};
use crate::models::{
    clone_opt,
    entry_of,
    opt_view,
    tri_view,
    IndexEntry,
    IndexEntryV,
    LinkEdge,
    LinkEdgeV,
    Note,
    NoteTag,
    NoteTagV,
    NoteV,
};
use crate::seqs::{lemma_filter_pairwise, lemma_filter_push, lemma_take_succ};
use crate::store::{
    assocs_view,
    distinct_assocs,
    distinct_links,
    distinct_note_ids,
    entries_view,
    folder_ref_ok,
    has_folder,
    has_note,
    has_tag,
    folder_position,
    links_view,
    note_position,
    notes_ok,
    notes_view,
    wf,
    Store,
    StoreV,
};

verus! {

/// The note produced by creation: both timestamps equal the creation time.
pub open spec fn created_note(
    id: Seq<char>,
    folder_id: Option<Seq<char>>,
    title: Seq<char>,
    content: Seq<char>,
    now: int,
) -> NoteV {
    NoteV { id, folder_id, title, content, created_at: now, updated_at: now }
}

/// The note produced by a partial update: only supplied fields change, the
/// identifier and creation time never do, and the update time refreshes —
/// clamped so it can never run before the creation time even under a clock
/// that moved backwards.
pub open spec fn updated_note(
    n: NoteV,
    now: int,
    title: Option<Seq<char>>,
    content: Option<Seq<char>>,
    folder_id: Option<Option<Seq<char>>>,
) -> NoteV {
    NoteV {
        id: n.id,
        folder_id: match folder_id {
            Some(f) => f,
            None => n.folder_id,
        },
        title: match title {
            Some(t) => t,
            None => n.title,
        },
        content: match content {
            Some(c) => c,
            None => n.content,
        },
        created_at: n.created_at,
        updated_at: if now >= n.created_at {
            now
        } else {
            n.created_at
        },
    }
}

/// A tri-state folder change is admissible: it leaves the field alone,
/// clears it, or sets it to an existing folder.
pub open spec fn folder_change_ok(
    folders: Seq<crate::models::FolderV>,
    change: Option<Option<Seq<char>>>,
) -> bool {
    match change {
        Some(Some(f)) => has_folder(folders, f),
        _ => true,
    }
}

/// Keeps the notes whose identifier differs from `id`.
pub open spec fn not_note(id: Seq<char>) -> spec_fn(NoteV) -> bool {
    |n: NoteV| n.id != id
}

/// Keeps the associations not involving note `id`.
pub open spec fn assoc_survives(id: Seq<char>) -> spec_fn(NoteTagV) -> bool {
    |a: NoteTagV| a.note_id != id
}

/// Keeps the edges touching note `id` at neither end.
pub open spec fn link_avoids(id: Seq<char>) -> spec_fn(LinkEdgeV) -> bool {
    |l: LinkEdgeV| l.source_id != id && l.target_id != id
}

/// The index entries shadowing a sequence of notes.
pub open spec fn entries_of(s: Seq<NoteV>) -> Seq<IndexEntryV> {
    s.map_values(|n: NoteV| entry_of(n))
}

// ---------------------------------------------------------------------------
// Retain loops
// ---------------------------------------------------------------------------

/// All notes except the one carrying `id`.
pub fn retain_notes_without(notes: &Vec<Note>, id: &String) -> (r: Vec<Note>)
    ensures
        notes_view(r@) == notes_view(notes@).filter(not_note(id@)),
{
    let ghost v = notes_view(notes@);
    let ghost p = not_note(id@);
    let mut out: Vec<Note> = Vec::new();
    for i in 0..notes.len()
        invariant
            v == notes_view(notes@),
            p == not_note(id@),
            notes_view(out@) == v.take(i as int).filter(p),
    {
        let ghost prev = notes_view(out@);
        if !(notes[i].id == *id) {
            out.push(notes[i].cloned());
        }
        proof {
            lemma_take_succ(v, i as int);
            lemma_filter_push(v.take(i as int), v[i as int], p);
            if p(v[i as int]) {
                assert(notes_view(out@) =~= prev.push(v[i as int]));
            }
        }
    }
    proof {
        assert(v.take(notes@.len() as int) =~= v);
    }
    out
}

/// All associations except those involving note `id`.
pub fn retain_assocs_without_note(assocs: &Vec<NoteTag>, id: &String) -> (r: Vec<NoteTag>)
    ensures
        assocs_view(r@) == assocs_view(assocs@).filter(assoc_survives(id@)),
{
    let ghost v = assocs_view(assocs@);
    let ghost p = assoc_survives(id@);
    let mut out: Vec<NoteTag> = Vec::new();
    for i in 0..assocs.len()
        invariant
            v == assocs_view(assocs@),
            p == assoc_survives(id@),
            assocs_view(out@) == v.take(i as int).filter(p),
    {
        let ghost prev = assocs_view(out@);
        if !(assocs[i].note_id == *id) {
            out.push(assocs[i].cloned());
        }
        proof {
            lemma_take_succ(v, i as int);
            lemma_filter_push(v.take(i as int), v[i as int], p);
            if p(v[i as int]) {
                assert(assocs_view(out@) =~= prev.push(v[i as int]));
            }
        }
    }
    proof {
        assert(v.take(assocs@.len() as int) =~= v);
    }
    out
}

/// All edges except those touching note `id` at either end.
pub fn retain_links_avoiding(links: &Vec<LinkEdge>, id: &String) -> (r: Vec<LinkEdge>)
    ensures
        links_view(r@) == links_view(links@).filter(link_avoids(id@)),
{
    let ghost v = links_view(links@);
    let ghost p = link_avoids(id@);
    let mut out: Vec<LinkEdge> = Vec::new();
    for i in 0..links.len()
        invariant
            v == links_view(links@),
            p == link_avoids(id@),
            links_view(out@) == v.take(i as int).filter(p),
    {
        let ghost prev = links_view(out@);
        if !(links[i].source_id == *id) && !(links[i].target_id == *id) {
            out.push(links[i].cloned());
        }
        proof {
            lemma_take_succ(v, i as int);
            lemma_filter_push(v.take(i as int), v[i as int], p);
            if p(v[i as int]) {
                assert(links_view(out@) =~= prev.push(v[i as int]));
            }
        }
    }
    proof {
        assert(v.take(links@.len() as int) =~= v);
    }
    out
}

/// The full-text index derived afresh from canonical notes: the repair
/// operation that makes the index rebuildable from source.
pub fn rebuild_index(notes: &Vec<Note>) -> (r: Vec<IndexEntry>)
    ensures
        entries_view(r@) == entries_of(notes_view(notes@)),
{
    let ghost v = notes_view(notes@);
    let mut out: Vec<IndexEntry> = Vec::new();
    for i in 0..notes.len()
        invariant
            v == notes_view(notes@),
            entries_view(out@) == entries_of(v.take(i as int)),
    {
        let ghost prev = entries_view(out@);
        out.push(
            IndexEntry {
                note_id: notes[i].id.clone(),
                title: notes[i].title.clone(),
                content: notes[i].content.clone(),
            },
        );
        proof {
            lemma_take_succ(v, i as int);
            assert(entries_view(out@) =~= prev.push(entry_of(v[i as int])));
            assert(entries_of(v.take(i + 1)) =~= entries_of(v.take(i as int)).push(
                entry_of(v[i as int]),
            ));
        }
    }
    proof {
        assert(v.take(notes@.len() as int) =~= v);
    }
    out
}

// ---------------------------------------------------------------------------
// Well-formedness preservation lemmas
// ---------------------------------------------------------------------------

/// Appending a fresh, internally consistent note (and its index shadow)
/// preserves the store invariant.
pub proof fn lemma_wf_push_note(o: StoreV, n: NoteV)
    requires
        wf(o),
        !has_note(o.notes, n.id),
        folder_ref_ok(o.folders, n.folder_id),
        n.updated_at >= n.created_at,
    ensures
        wf(
            StoreV {
                notes: o.notes.push(n),
                index: o.index.push(entry_of(n)),
                ..o
            },
        ),
{
    let s = o.notes;
    let t = s.push(n);
    assert forall|i: int, j: int| 0 <= i < j < t.len() implies (#[trigger] t[i]).id != (
    #[trigger] t[j]).id by {
        if j < s.len() {
            assert(t[i] == s[i] && t[j] == s[j]);
        } else {
            assert(t[i] == s[i]);
            assert(t[j] == n);
        }
    }
    assert forall|i: int|
        0 <= i < t.len() implies (#[trigger] t[i]).updated_at >= t[i].created_at && folder_ref_ok(
        o.folders,
        t[i].folder_id,
    ) by {
        if i < s.len() {
            assert(t[i] == s[i]);
        } else {
            assert(t[i] == n);
        }
    }
    assert forall|i: int|
        0 <= i < o.note_tags.len() implies has_note(t, (#[trigger] o.note_tags[i]).note_id)
            && has_tag(o.tags, o.note_tags[i].tag_id) by {
        let k = choose|k: int|
            0 <= k < s.len() && (#[trigger] s[k]).id == o.note_tags[i].note_id;
        assert(t[k] == s[k]);
    }
    let x = o.index.push(entry_of(n));
    assert forall|i: int| 0 <= i < t.len() implies #[trigger] x[i] == entry_of(t[i]) by {
        if i < s.len() {
            assert(x[i] == o.index[i] && t[i] == s[i]);
        } else {
            assert(x[i] == entry_of(n) && t[i] == n);
        }
    }
}

/// Replacing the note at position `i` by one with the same identifier, a
/// resolving folder reference and ordered timestamps (and replacing its index
/// shadow) preserves the store invariant.
pub proof fn lemma_wf_update_note(o: StoreV, i: int, n: NoteV)
    requires
        wf(o),
        0 <= i < o.notes.len(),
        n.id == o.notes[i].id,
        folder_ref_ok(o.folders, n.folder_id),
        n.updated_at >= n.created_at,
    ensures
        wf(
            StoreV {
                notes: o.notes.update(i, n),
                index: o.index.update(i, entry_of(n)),
                ..o
            },
        ),
{
    let s = o.notes;
    let t = s.update(i, n);
    assert forall|a: int, b: int| 0 <= a < b < t.len() implies (#[trigger] t[a]).id != (
    #[trigger] t[b]).id by {
        assert(s[a].id != s[b].id);
    }
    assert forall|a: int|
        0 <= a < o.note_tags.len() implies has_note(t, (#[trigger] o.note_tags[a]).note_id)
            && has_tag(o.tags, o.note_tags[a].tag_id) by {
        let k = choose|k: int|
            0 <= k < s.len() && (#[trigger] s[k]).id == o.note_tags[a].note_id;
        assert(t[k].id == s[k].id);
    }
}

/// Deleting a note — dropping its row, every association involving it, every
/// edge touching it, and rebuilding the index — preserves the store
/// invariant.
pub proof fn lemma_wf_delete_note(o: StoreV, id: Seq<char>)
    requires
        wf(o),
    ensures
        wf(
            StoreV {
                notes: o.notes.filter(not_note(id)),
                index: entries_of(o.notes.filter(not_note(id))),
                note_tags: o.note_tags.filter(assoc_survives(id)),
                links: o.links.filter(link_avoids(id)),
                ..o
            },
        ),
{
    let s = o.notes;
    let p = not_note(id);
    let t = s.filter(p);
    assert(distinct_note_ids(t)) by {
        let r = |a: NoteV, b: NoteV| a.id != b.id;
        assert forall|a: int, b: int|
            0 <= a < s.len() && 0 <= b < s.len() && a != b implies #[trigger] r(s[a], s[b]) by {
            if a < b {
                assert(s[a].id != s[b].id);
            } else {
                assert(s[b].id != s[a].id);
            }
        }
        lemma_filter_pairwise(s, p, r);
        assert forall|a: int, b: int| 0 <= a < b < t.len() implies (#[trigger] t[a]).id != (
        #[trigger] t[b]).id by {
            assert(r(t[a], t[b]));
        }
    }
    assert(notes_ok(t, o.folders)) by {
        assert forall|a: int|
            0 <= a < t.len() implies (#[trigger] t[a]).updated_at >= t[a].created_at
                && folder_ref_ok(o.folders, t[a].folder_id) by {
            assert(t.contains(t[a]));
            s.lemma_filter_contains_rev(p, t[a]);
            let k = choose|k: int| 0 <= k < s.len() && s[k] == t[a];
            assert(s[k].updated_at >= s[k].created_at);
        }
    }
    let q = assoc_survives(id);
    let na = o.note_tags.filter(q);
    assert(distinct_assocs(na)) by {
        let r = |a: NoteTagV, b: NoteTagV| !(a.note_id == b.note_id && a.tag_id == b.tag_id);
        assert forall|a: int, b: int|
            0 <= a < o.note_tags.len() && 0 <= b < o.note_tags.len() && a != b implies #[trigger] r(
            o.note_tags[a],
            o.note_tags[b],
        ) by {
            if a < b {
                assert(!(o.note_tags[a].note_id == o.note_tags[b].note_id
                    && o.note_tags[a].tag_id == o.note_tags[b].tag_id));
            } else {
                assert(!(o.note_tags[b].note_id == o.note_tags[a].note_id
                    && o.note_tags[b].tag_id == o.note_tags[a].tag_id));
            }
        }
        lemma_filter_pairwise(o.note_tags, q, r);
        assert forall|a: int, b: int|
            0 <= a < b < na.len() implies !((#[trigger] na[a]).note_id == (
        #[trigger] na[b]).note_id && na[a].tag_id == na[b].tag_id) by {
            assert(r(na[a], na[b]));
        }
    }
    assert forall|a: int|
        0 <= a < na.len() implies has_note(t, (#[trigger] na[a]).note_id) && has_tag(
        o.tags,
        na[a].tag_id,
    ) by {
        o.note_tags.lemma_filter_pred(q, a);
        assert(na.contains(na[a]));
        o.note_tags.lemma_filter_contains_rev(q, na[a]);
        let k = choose|k: int| 0 <= k < o.note_tags.len() && o.note_tags[k] == na[a];
        assert(has_note(s, o.note_tags[k].note_id));
        let m = choose|m: int| 0 <= m < s.len() && (#[trigger] s[m]).id == na[a].note_id;
        assert(p(s[m]));
        s.lemma_filter_contains(p, m);
        let w = choose|w: int| 0 <= w < t.len() && t[w] == s[m];
        assert(t[w].id == na[a].note_id);
    }
    let lp = link_avoids(id);
    let nl = o.links.filter(lp);
    assert(distinct_links(nl)) by {
        let r = |a: LinkEdgeV, b: LinkEdgeV|
            !(a.source_id == b.source_id && a.target_id == b.target_id);
        assert forall|a: int, b: int|
            0 <= a < o.links.len() && 0 <= b < o.links.len() && a != b implies #[trigger] r(
            o.links[a],
            o.links[b],
        ) by {
            if a < b {
                assert(!(o.links[a].source_id == o.links[b].source_id && o.links[a].target_id
                    == o.links[b].target_id));
            } else {
                assert(!(o.links[b].source_id == o.links[a].source_id && o.links[b].target_id
                    == o.links[a].target_id));
            }
        }
        lemma_filter_pairwise(o.links, lp, r);
        assert forall|a: int, b: int|
            0 <= a < b < nl.len() implies !((#[trigger] nl[a]).source_id == (
        #[trigger] nl[b]).source_id && nl[a].target_id == nl[b].target_id) by {
            assert(r(nl[a], nl[b]));
        }
    }
}

// ---------------------------------------------------------------------------
// Operations
// ---------------------------------------------------------------------------

impl Store {
    /// Persists a new note under a caller-supplied identifier and creation
    /// time. Succeeds exactly when the identifier is fresh and the folder
    /// reference, if given, resolves; on success the note is appended and
    /// its index shadow with it, and nothing else changes.
    pub fn create_note_with(
        &mut self,
        id: String,
        now: i64,
        folder_id: Option<String>,
        title: String,
        content: String,
    ) -> (r: Result<Note, AppError>)
        requires
            wf(old(self)@),
        ensures
            wf(final(self)@),
            r is Ok <==> (!has_note(old(self)@.notes, id@) && folder_ref_ok(
                old(self)@.folders,
                opt_view(folder_id),
            )),
            r matches Ok(n) ==> ({
                &&& n@ == created_note(id@, opt_view(folder_id), title@, content@, now as int)
                &&& final(self)@.notes == old(self)@.notes.push(n@)
                &&& final(self)@.index == old(self)@.index.push(entry_of(n@))
                &&& final(self)@.folders == old(self)@.folders
                &&& final(self)@.tags == old(self)@.tags
                &&& final(self)@.note_tags == old(self)@.note_tags
                &&& final(self)@.links == old(self)@.links
                &&& final(self)@.applied == old(self)@.applied
            }),
            r matches Err(e) ==> final(self)@ == old(self)@ && e is SqliteError,
    {
        if let Some(f) = &folder_id {
            if folder_position(&self.folders, f).is_none() {
                return Err(AppError::SqliteError("FOREIGN KEY constraint failed".to_owned()));
            }
        }
        if note_position(&self.notes, &id).is_some() {
            return Err(AppError::SqliteError("UNIQUE constraint failed: notes.id".to_owned()));
        }
        let stored = Note {
            id: id.clone(),
            folder_id: clone_opt(&folder_id),
            title: title.clone(),
            content: content.clone(),
            created_at: now,
            updated_at: now,
        };
        let entry = IndexEntry {
            note_id: id.clone(),
            title: title.clone(),
            content: content.clone(),
        };
        self.notes.push(stored);
        self.index.push(entry);
        let ret = Note { id, folder_id, title, content, created_at: now, updated_at: now };
        proof {
            let o = old(self)@;
            assert(self@.notes =~= o.notes.push(ret@));
            assert(self@.index =~= o.index.push(entry_of(ret@)));
            lemma_wf_push_note(o, ret@);
            assert(self@ =~= (StoreV {
                notes: o.notes.push(ret@),
                index: o.index.push(entry_of(ret@)),
                ..o
            }));
        }
        Ok(ret)
    }

    /// Creates a note under a freshly generated time-ordered identifier,
    /// stamped with the current time. Succeeds whenever the folder
    /// reference resolves and the drawn identifier is fresh; the failure on
    /// a stale clock or a colliding identifier is a storage error and leaves
    /// the store unchanged.
    pub fn create_note(
        &mut self,
        folder_id: Option<String>,
        title: String,
        content: String,
    ) -> (r: Result<Note, AppError>)
        requires
            wf(old(self)@),
        ensures
            wf(final(self)@),
            r matches Ok(n) ==> ({
                &&& valid_id(n@.id)
                &&& !has_note(old(self)@.notes, n@.id)
                &&& n@.folder_id == opt_view(folder_id)
                &&& n@.title == title@
                &&& n@.content == content@
                &&& n@.created_at == n@.updated_at
                &&& final(self)@.notes == old(self)@.notes.push(n@)
                &&& final(self)@.index == old(self)@.index.push(entry_of(n@))
                &&& final(self)@.folders == old(self)@.folders
                &&& final(self)@.tags == old(self)@.tags
                &&& final(self)@.note_tags == old(self)@.note_tags
                &&& final(self)@.links == old(self)@.links
                &&& final(self)@.applied == old(self)@.applied
            }),
            r is Err ==> final(self)@ == old(self)@,
            r matches Err(e) ==> e is SqliteError,
            !folder_ref_ok(old(self)@.folders, opt_view(folder_id)) ==> r is Err,
    {
        let id = new_ulid();
        let now = now_millis();
        self.create_note_with(id, now, folder_id, title, content)
    }

    /// Fetches the note carrying `id`. Succeeds exactly when it exists.
    pub fn get_note(&self, id: String) -> (r: Result<Note, AppError>)
        requires
            wf(self@),
        ensures
            r is Ok <==> has_note(self@.notes, id@),
            r matches Ok(n) ==> n@.id == id@ && exists|i: int|
                0 <= i < self@.notes.len() && #[trigger] self@.notes[i] == n@,
            r matches Err(e) ==> e matches AppError::NotFound(m) && m@ == id@,
    {
        match note_position(&self.notes, &id) {
            Some(i) => {
                let n = &self.notes[i];
                let ret = n.cloned();
                proof {
                    assert(self@.notes[i as int] == ret@);
                }
                Ok(ret)
            },
            None => Err(AppError::NotFound(id)),
        }
    }

    /// Applies a partial update to the note carrying `id`, at time `now`.
    /// Absent fields keep their prior value; the tri-state `folder_id`
    /// distinguishes "leave unchanged" (absent) from "clear" (present and
    /// none) from "set" (present with a value). Succeeds exactly when the
    /// note exists and the folder change, if any, resolves.
    pub fn update_note_with(
        &mut self,
        id: String,
        now: i64,
        title: Option<String>,
        content: Option<String>,
        folder_id: Option<Option<String>>,
    ) -> (r: Result<Note, AppError>)
        requires
            wf(old(self)@),
        ensures
            wf(final(self)@),
            r is Ok <==> (has_note(old(self)@.notes, id@) && folder_change_ok(
                old(self)@.folders,
                tri_view(folder_id),
            )),
            r matches Ok(n) ==> exists|i: int|
                {
                    &&& 0 <= i < old(self)@.notes.len()
                    &&& (#[trigger] old(self)@.notes[i]).id == id@
                    &&& n@ == updated_note(
                        old(self)@.notes[i],
                        now as int,
                        opt_view(title),
                        opt_view(content),
                        tri_view(folder_id),
                    )
                    &&& final(self)@.notes == old(self)@.notes.update(i, n@)
                    &&& final(self)@.index == old(self)@.index.update(i, entry_of(n@))
                },
            r is Ok ==> final(self)@.folders == old(self)@.folders && final(self)@.tags == old(self)@.tags && final(self)@.note_tags == old(self)@.note_tags && final(self)@.links == old(self)@.links && final(self)@.applied == old(self)@.applied,
            r matches Err(e) ==> final(self)@ == old(self)@ && ({
                ||| (e matches AppError::NotFound(m) && m@ == id@ && !has_note(
                    old(self)@.notes,
                    id@,
                ))
                ||| (e is SqliteError && has_note(old(self)@.notes, id@))
            }),
    {
        let pos = match note_position(&self.notes, &id) {
            Some(i) => i,
            None => {
                return Err(AppError::NotFound(id));
            },
        };
        if let Some(Some(f)) = &folder_id {
            if folder_position(&self.folders, f).is_none() {
                return Err(AppError::SqliteError("FOREIGN KEY constraint failed".to_owned()));
            }
        }
        let created = self.notes[pos].created_at;
        let new_updated = if now >= created {
            now
        } else {
            created
        };
        let new_title = match &title {
            Some(t) => t.clone(),
            None => self.notes[pos].title.clone(),
        };
        let new_content = match &content {
            Some(c) => c.clone(),
            None => self.notes[pos].content.clone(),
        };
        let new_folder = match &folder_id {
            Some(f) => clone_opt(f),
            None => clone_opt(&self.notes[pos].folder_id),
        };
        let stored = Note {
            id: id.clone(),
            folder_id: new_folder,
            title: new_title,
            content: new_content,
            created_at: created,
            updated_at: new_updated,
        };
        let ret = stored.cloned();
        let entry = IndexEntry {
            note_id: stored.id.clone(),
            title: stored.title.clone(),
            content: stored.content.clone(),
        };
        proof {
            assert(ret@ == updated_note(
                old(self)@.notes[pos as int],
                now as int,
                opt_view(title),
                opt_view(content),
                tri_view(folder_id),
            ));
        }
        self.notes.set(pos, stored);
        self.index.set(pos, entry);
        proof {
            let o = old(self)@;
            assert(self@.notes =~= o.notes.update(pos as int, ret@));
            assert(self@.index =~= o.index.update(pos as int, entry_of(ret@)));
            lemma_wf_update_note(o, pos as int, ret@);
            assert(self@ =~= (StoreV {
                notes: o.notes.update(pos as int, ret@),
                index: o.index.update(pos as int, entry_of(ret@)),
                ..o
            }));
        }
        Ok(ret)
    }

    /// Applies a partial update at the current time.
    pub fn update_note(
        &mut self,
        id: String,
        title: Option<String>,
        content: Option<String>,
        folder_id: Option<Option<String>>,
    ) -> (r: Result<Note, AppError>)
        requires
            wf(old(self)@),
        ensures
            wf(final(self)@),
            r is Ok <==> (has_note(old(self)@.notes, id@) && folder_change_ok(
                old(self)@.folders,
                tri_view(folder_id),
            )),
            r matches Ok(n) ==> exists|i: int, now: int|
                {
                    &&& 0 <= i < old(self)@.notes.len()
                    &&& old(self)@.notes[i].id == id@
                    &&& n@ == #[trigger] updated_note(
                        old(self)@.notes[i],
                        now,
                        opt_view(title),
                        opt_view(content),
                        tri_view(folder_id),
                    )
                    &&& final(self)@.notes == old(self)@.notes.update(i, n@)
                    &&& final(self)@.index == old(self)@.index.update(i, entry_of(n@))
                },
            r is Ok ==> final(self)@.folders == old(self)@.folders && final(self)@.tags == old(self)@.tags && final(self)@.note_tags == old(self)@.note_tags && final(self)@.links == old(self)@.links && final(self)@.applied == old(self)@.applied,
            r matches Err(e) ==> final(self)@ == old(self)@ && ({
                ||| (e matches AppError::NotFound(m) && m@ == id@ && !has_note(
                    old(self)@.notes,
                    id@,
                ))
                ||| (e is SqliteError && has_note(old(self)@.notes, id@))
            }),
    {
        let now = now_millis();
        self.update_note_with(id, now, title, content, folder_id)
    }

    /// Deletes the note carrying `id`, and with it every association
    /// involving it, its full-text entry, and every backlink edge touching
    /// it as source or target. Succeeds exactly when the note exists.
    pub fn delete_note(&mut self, id: String) -> (r: Result<(), AppError>)
        requires
            wf(old(self)@),
        ensures
            wf(final(self)@),
            r is Ok <==> has_note(old(self)@.notes, id@),
            r is Ok ==> ({
                &&& final(self)@.notes == old(self)@.notes.filter(not_note(id@))
                &&& final(self)@.index == entries_of(final(self)@.notes)
                &&& final(self)@.note_tags == old(self)@.note_tags.filter(assoc_survives(id@))
                &&& final(self)@.links == old(self)@.links.filter(link_avoids(id@))
                &&& final(self)@.folders == old(self)@.folders
                &&& final(self)@.tags == old(self)@.tags
                &&& final(self)@.applied == old(self)@.applied
            }),
            r matches Err(e) ==> final(self)@ == old(self)@ && (e matches AppError::NotFound(m)
                && m@ == id@),
    {
        if note_position(&self.notes, &id).is_none() {
            return Err(AppError::NotFound(id));
        }
        let new_notes = retain_notes_without(&self.notes, &id);
        let new_index = rebuild_index(&new_notes);
        let new_assocs = retain_assocs_without_note(&self.note_tags, &id);
        let new_links = retain_links_avoiding(&self.links, &id);
        self.notes = new_notes;
        self.index = new_index;
        self.note_tags = new_assocs;
        self.links = new_links;
        proof {
            let o = old(self)@;
            lemma_wf_delete_note(o, id@);
            assert(self@ =~= (StoreV {
                notes: o.notes.filter(not_note(id@)),
                index: entries_of(o.notes.filter(not_note(id@))),
                note_tags: o.note_tags.filter(assoc_survives(id@)),
                links: o.links.filter(link_avoids(id@)),
                ..o
            }));
        }
        Ok(())
    }
}

} // verus!
