//! Folder CRUD: creation, listing with note counts, partial update, and
//! deletion that either detaches or cascades to the folder's notes.

use vstd::prelude::*;
use crate::errors::AppError;
use crate::idgen::{new_ulid, now_millis, valid_id};
use crate::models::{
    clone_opt,
    opt_view,
    tri_view,
    DeleteFolderResponse,
    Folder,
    FolderListItem,
    FolderListItemV,
    FolderV,
    LinkEdgeV,
    Note,
    NoteTagV,
    NoteV,
};
use crate::notes::{entries_of, rebuild_index};
use crate::seqs::{lemma_filter_pairwise, lemma_filter_push, lemma_take_succ};
use crate::store::{
    assocs_view,
    distinct_assocs,
    distinct_folder_ids,
    distinct_links,
    distinct_note_ids,
    folder_position,
    folder_ref_ok,
    folders_view,
    has_folder,
    has_note,
    has_tag,
    links_view,
    notes_ok,
    notes_view,
    wf,
    Store,
    StoreV,
};

verus! {

/// Keeps the folders whose identifier differs from `id`.
pub open spec fn not_folder(id: Seq<char>) -> spec_fn(FolderV) -> bool {
    |f: FolderV| f.id != id
}

/// Selects the notes filed under folder `fid`.
pub open spec fn in_folder(fid: Seq<char>) -> spec_fn(NoteV) -> bool {
    |n: NoteV| n.folder_id == Some(fid)
}

/// Keeps the notes not filed under folder `fid`.
pub open spec fn outside_folder(fid: Seq<char>) -> spec_fn(NoteV) -> bool {
    |n: NoteV| n.folder_id != Some(fid)
}

/// Clears the folder reference of the notes filed under `fid`; everything
/// else about each note is untouched.
pub open spec fn detach_from(fid: Seq<char>) -> spec_fn(NoteV) -> NoteV {
    |n: NoteV|
        if n.folder_id == Some(fid) {
            NoteV { folder_id: None, ..n }
        } else {
            n
        }
}

/// The note carrying `nid` exists and is filed under folder `fid`.
pub open spec fn note_in_folder(notes: Seq<NoteV>, fid: Seq<char>, nid: Seq<char>) -> bool {
    exists|i: int|
        0 <= i < notes.len() && (#[trigger] notes[i]).id == nid && notes[i].folder_id == Some(fid)
}

/// Keeps the associations whose note is not filed under folder `fid`.
pub open spec fn assoc_outside_folder(notes: Seq<NoteV>, fid: Seq<char>) -> spec_fn(NoteTagV) -> bool {
    |a: NoteTagV| !note_in_folder(notes, fid, a.note_id)
}

/// Keeps the edges touching no note filed under folder `fid`.
pub open spec fn link_outside_folder(notes: Seq<NoteV>, fid: Seq<char>) -> spec_fn(LinkEdgeV) -> bool {
    |l: LinkEdgeV| !note_in_folder(notes, fid, l.source_id) && !note_in_folder(
        notes,
        fid,
        l.target_id,
    )
}

/// How many notes are filed under folder `fid`.
pub open spec fn count_in_folder(notes: Seq<NoteV>, fid: Seq<char>) -> int {
    notes.filter(in_folder(fid)).len() as int
}

/// The folder produced by a partial update.
pub open spec fn updated_folder(
    f: FolderV,
    name: Option<Seq<char>>,
    parent_id: Option<Option<Seq<char>>>,
) -> FolderV {
    FolderV {
        id: f.id,
        name: match name {
            Some(n) => n,
            None => f.name,
        },
        parent_id: match parent_id {
            Some(p) => p,
            None => f.parent_id,
        },
        created_at: f.created_at,
    }
}

/// The listed form of one folder, joined with its note count.
pub open spec fn folder_item_of(notes: Seq<NoteV>, f: FolderV) -> FolderListItemV {
    FolderListItemV {
        id: f.id,
        name: f.name,
        parent_id: f.parent_id,
        note_count: count_in_folder(notes, f.id),
    }
}

/// Counts the notes filed under folder `fid`.
pub fn count_notes_in(notes: &Vec<Note>, fid: &String) -> (r: usize)
    ensures
        r as int == count_in_folder(notes_view(notes@), fid@),
        r <= notes@.len(),
{
    let ghost v = notes_view(notes@);
    let ghost p = in_folder(fid@);
    let mut count: usize = 0;
    for i in 0..notes.len()
        invariant
            v == notes_view(notes@),
            p == in_folder(fid@),
            count as int == v.take(i as int).filter(p).len(),
            count <= i,
    {
        let hit = match &notes[i].folder_id {
            Some(g) => *g == *fid,
            None => false,
        };
        if hit {
            count = count + 1;
        }
        proof {
            lemma_take_succ(v, i as int);
            lemma_filter_push(v.take(i as int), v[i as int], p);
        }
    }
    proof {
        assert(v.take(notes@.len() as int) =~= v);
    }
    count
}

impl Store {
    /// Persists a new folder under a caller-supplied identifier and creation
    /// time. Succeeds exactly when the identifier is fresh; the parent
    /// reference is taken as given — the model does not prevent dangling
    /// parents or cycles.
    pub fn create_folder_with(
        &mut self,
        id: String,
        now: i64,
        name: String,
        parent_id: Option<String>,
    ) -> (r: Result<Folder, AppError>)
        requires
            wf(old(self)@),
        ensures
            wf(final(self)@),
            r is Ok <==> !has_folder(old(self)@.folders, id@),
            r matches Ok(f) ==> ({
                &&& f@ == (FolderV {
                    id: id@,
                    name: name@,
                    parent_id: opt_view(parent_id),
                    created_at: now as int,
                })
                &&& final(self)@ == (StoreV {
                    folders: old(self)@.folders.push(f@),
                    ..old(self)@
                })
            }),
            r matches Err(e) ==> final(self)@ == old(self)@ && e is SqliteError,
    {
        if folder_position(&self.folders, &id).is_some() {
            return Err(AppError::SqliteError("UNIQUE constraint failed: folders.id".to_owned()));
        }
        let stored = Folder {
            id: id.clone(),
            name: name.clone(),
            parent_id: clone_opt(&parent_id),
            created_at: now,
        };
        self.folders.push(stored);
        let ret = Folder { id, name, parent_id, created_at: now };
        proof {
            let o = old(self)@;
            assert(self@.folders =~= o.folders.push(ret@));
            assert(self@ =~= (StoreV { folders: o.folders.push(ret@), ..o }));
            let t = self@.folders;
            assert forall|i: int, j: int| 0 <= i < j < t.len() implies (#[trigger] t[i]).id != (
            #[trigger] t[j]).id by {
                if j < o.folders.len() {
                    assert(t[i] == o.folders[i] && t[j] == o.folders[j]);
                } else {
                    assert(t[i] == o.folders[i] && t[j] == ret@);
                }
            }
            assert forall|i: int|
                0 <= i < o.notes.len() implies (#[trigger] o.notes[i]).updated_at
                    >= o.notes[i].created_at && folder_ref_ok(t, o.notes[i].folder_id) by {
                if o.notes[i].folder_id is Some {
                    let g = o.notes[i].folder_id->Some_0;
                    let k = choose|k: int|
                        0 <= k < o.folders.len() && (#[trigger] o.folders[k]).id == g;
                    assert(t[k] == o.folders[k]);
                }
            }
        }
        Ok(ret)
    }

    /// Creates a folder under a freshly generated identifier, stamped with
    /// the current time.
    pub fn create_folder(&mut self, name: String, parent_id: Option<String>) -> (r: Result<
        Folder,
        AppError,
    >)
        requires
            wf(old(self)@),
        ensures
            wf(final(self)@),
            r matches Ok(f) ==> ({
                &&& valid_id(f@.id)
                &&& !has_folder(old(self)@.folders, f@.id)
                &&& f@.name == name@
                &&& f@.parent_id == opt_view(parent_id)
                &&& final(self)@ == (StoreV {
                    folders: old(self)@.folders.push(f@),
                    ..old(self)@
                })
            }),
            r matches Err(e) ==> final(self)@ == old(self)@ && e is SqliteError,
    {
        let id = new_ulid();
        let now = now_millis();
        self.create_folder_with(id, now, name, parent_id)
    }

    /// Lists every folder, each joined with the number of notes filed under
    /// it. The length bound is forced by the signed count in the result.
    pub fn list_folders(&self) -> (r: Vec<FolderListItem>)
        requires
            wf(self@),
            self@.notes.len() <= 0x7fff_ffff_ffff_ffff,
        ensures
            r@.map_values(|it: FolderListItem| it@) == self@.folders.map_values(
                |f: FolderV| folder_item_of(self@.notes, f),
            ),
    {
        let ghost fv = self@.folders;
        let mut out: Vec<FolderListItem> = Vec::new();
        for i in 0..self.folders.len()
            invariant
                fv == self@.folders,
                wf(self@),
                self@.notes.len() <= 0x7fff_ffff_ffff_ffff,
                out@.map_values(|it: FolderListItem| it@) == fv.take(i as int).map_values(
                    |f: FolderV| folder_item_of(self@.notes, f),
                ),
        {
            let ghost prev = out@.map_values(|it: FolderListItem| it@);
            let count = count_notes_in(&self.notes, &self.folders[i].id);
            out.push(
                FolderListItem {
                    id: self.folders[i].id.clone(),
                    name: self.folders[i].name.clone(),
                    parent_id: clone_opt(&self.folders[i].parent_id),
                    note_count: count as i64,
                },
            );
            proof {
                lemma_take_succ(fv, i as int);
                assert(out@.map_values(|it: FolderListItem| it@) =~= prev.push(
                    folder_item_of(self@.notes, fv[i as int]),
                ));
                assert(fv.take(i + 1).map_values(|f: FolderV| folder_item_of(self@.notes, f))
                    =~= fv.take(i as int).map_values(
                    |f: FolderV| folder_item_of(self@.notes, f),
                ).push(folder_item_of(self@.notes, fv[i as int])));
            }
        }
        proof {
            assert(fv.take(self.folders@.len() as int) =~= fv);
        }
        out
    }

    /// Applies a partial update to the folder carrying `id`. Succeeds
    /// exactly when the folder exists; the parent reference is taken as
    /// given.
    pub fn update_folder(
        &mut self,
        id: String,
        name: Option<String>,
        parent_id: Option<Option<String>>,
    ) -> (r: Result<Folder, AppError>)
        requires
            wf(old(self)@),
        ensures
            wf(final(self)@),
            r is Ok <==> has_folder(old(self)@.folders, id@),
            r matches Ok(f) ==> exists|i: int|
                {
                    &&& 0 <= i < old(self)@.folders.len()
                    &&& (#[trigger] old(self)@.folders[i]).id == id@
                    &&& f@ == updated_folder(
                        old(self)@.folders[i],
                        opt_view(name),
                        tri_view(parent_id),
                    )
                    &&& final(self)@ == (StoreV {
                        folders: old(self)@.folders.update(i, f@),
                        ..old(self)@
                    })
                },
            r matches Err(e) ==> final(self)@ == old(self)@ && (e matches AppError::NotFound(m)
                && m@ == id@),
    {
        let pos = match folder_position(&self.folders, &id) {
            Some(i) => i,
            None => {
                return Err(AppError::NotFound(id));
            },
        };
        let new_name = match &name {
            Some(n) => n.clone(),
            None => self.folders[pos].name.clone(),
        };
        let new_parent = match &parent_id {
            Some(p) => clone_opt(p),
            None => clone_opt(&self.folders[pos].parent_id),
        };
        let stored = Folder {
            id: id,
            name: new_name,
            parent_id: new_parent,
            created_at: self.folders[pos].created_at,
        };
        let ret = stored.cloned();
        proof {
            assert(ret@ == updated_folder(
                old(self)@.folders[pos as int],
                opt_view(name),
                tri_view(parent_id),
            ));
        }
        self.folders.set(pos, stored);
        proof {
            let o = old(self)@;
            let t = o.folders.update(pos as int, ret@);
            assert(self@.folders =~= t);
            assert(self@ =~= (StoreV { folders: t, ..o }));
            assert forall|a: int, b: int| 0 <= a < b < t.len() implies (#[trigger] t[a]).id != (
            #[trigger] t[b]).id by {
                assert(o.folders[a].id != o.folders[b].id);
            }
            assert forall|i: int|
                0 <= i < o.notes.len() implies (#[trigger] o.notes[i]).updated_at
                    >= o.notes[i].created_at && folder_ref_ok(t, o.notes[i].folder_id) by {
                if o.notes[i].folder_id is Some {
                    let g = o.notes[i].folder_id->Some_0;
                    let k = choose|k: int|
                        0 <= k < o.folders.len() && (#[trigger] o.folders[k]).id == g;
                    assert(t[k].id == o.folders[k].id);
                }
            }
        }
        Ok(ret)
    }

    /// Deletes the folder carrying `id`. With `delete_notes` false its notes
    /// are detached — their folder reference is cleared — and the count of
    /// detached notes is returned; with `delete_notes` true its notes are
    /// removed entirely, with the full cascade a note deletion performs.
    /// Succeeds exactly when the folder exists. The length bound is forced
    /// by the signed count in the result.
    pub fn delete_folder(&mut self, id: String, delete_notes: bool) -> (r: Result<
        DeleteFolderResponse,
        AppError,
    >)
        requires
            wf(old(self)@),
            old(self)@.notes.len() <= 0x7fff_ffff_ffff_ffff,
        ensures
            wf(final(self)@),
            r is Ok <==> has_folder(old(self)@.folders, id@),
            r matches Ok(resp) ==> ({
                &&& resp.success
                &&& final(self)@.folders == old(self)@.folders.filter(not_folder(id@))
                &&& final(self)@.tags == old(self)@.tags
                &&& final(self)@.applied == old(self)@.applied
                &&& !delete_notes ==> {
                    &&& final(self)@.notes == old(self)@.notes.map_values(detach_from(id@))
                    &&& final(self)@.index == old(self)@.index
                    &&& final(self)@.note_tags == old(self)@.note_tags
                    &&& final(self)@.links == old(self)@.links
                    &&& resp.moved_notes as int == count_in_folder(old(self)@.notes, id@)
                }
                &&& delete_notes ==> {
                    &&& final(self)@.notes == old(self)@.notes.filter(outside_folder(id@))
                    &&& final(self)@.index == entries_of(final(self)@.notes)
                    &&& final(self)@.note_tags == old(self)@.note_tags.filter(
                        assoc_outside_folder(old(self)@.notes, id@),
                    )
                    &&& final(self)@.links == old(self)@.links.filter(
                        link_outside_folder(old(self)@.notes, id@),
                    )
                    &&& resp.moved_notes == 0
                }
            }),
            r matches Err(e) ==> final(self)@ == old(self)@ && (e matches AppError::NotFound(m)
                && m@ == id@),
    {
        if folder_position(&self.folders, &id).is_none() {
            return Err(AppError::NotFound(id));
        }
        let moved: i64;
        if delete_notes {
            let new_notes = retain_notes_outside(&self.notes, &id);
            let new_index = rebuild_index(&new_notes);
            let new_assocs = retain_assocs_outside_folder(&self.note_tags, &self.notes, &id);
            let new_links = retain_links_outside_folder(&self.links, &self.notes, &id);
            self.notes = new_notes;
            self.index = new_index;
            self.note_tags = new_assocs;
            self.links = new_links;
            moved = 0;
        } else {
            let count = count_notes_in(&self.notes, &id);
            let new_notes = detach_notes(&self.notes, &id);
            self.notes = new_notes;
            moved = count as i64;
        }
        let new_folders = retain_folders_without(&self.folders, &id);
        self.folders = new_folders;
        proof {
            let o = old(self)@;
            let cur = self@;
            lemma_wf_delete_folder(o, id@, delete_notes, cur);
        }
        Ok(DeleteFolderResponse { success: true, moved_notes: moved })
    }
}

/// All folders except the one carrying `id`.
pub fn retain_folders_without(folders: &Vec<Folder>, id: &String) -> (r: Vec<Folder>)
    ensures
        folders_view(r@) == folders_view(folders@).filter(not_folder(id@)),
{
    let ghost v = folders_view(folders@);
    let ghost p = not_folder(id@);
    let mut out: Vec<Folder> = Vec::new();
    for i in 0..folders.len()
        invariant
            v == folders_view(folders@),
            p == not_folder(id@),
            folders_view(out@) == v.take(i as int).filter(p),
    {
        let ghost prev = folders_view(out@);
        if !(folders[i].id == *id) {
            out.push(folders[i].cloned());
        }
        proof {
            lemma_take_succ(v, i as int);
            lemma_filter_push(v.take(i as int), v[i as int], p);
            if p(v[i as int]) {
                assert(folders_view(out@) =~= prev.push(v[i as int]));
            }
        }
    }
    proof {
        assert(v.take(folders@.len() as int) =~= v);
    }
    out
}

/// All notes not filed under folder `fid`.
pub fn retain_notes_outside(notes: &Vec<Note>, fid: &String) -> (r: Vec<Note>)
    ensures
        notes_view(r@) == notes_view(notes@).filter(outside_folder(fid@)),
{
    let ghost v = notes_view(notes@);
    let ghost p = outside_folder(fid@);
    let mut out: Vec<Note> = Vec::new();
    for i in 0..notes.len()
        invariant
            v == notes_view(notes@),
            p == outside_folder(fid@),
            notes_view(out@) == v.take(i as int).filter(p),
    {
        let ghost prev = notes_view(out@);
        let hit = match &notes[i].folder_id {
            Some(g) => *g == *fid,
            None => false,
        };
        if !hit {
            out.push(notes[i].cloned());
        }
        proof {
            lemma_take_succ(v, i as int);
            lemma_filter_push(v.take(i as int), v[i as int], p);
            if p(v[i as int]) {
                assert(notes_view(out@) =~= prev.push(v[i as int]));
            }
        }
    }
    proof {
        assert(v.take(notes@.len() as int) =~= v);
    }
    out
}

/// Tests whether the note carrying `nid` exists and is filed under `fid`.
pub fn note_in_folder_check(notes: &Vec<Note>, fid: &String, nid: &String) -> (r: bool)
    ensures
        r == note_in_folder(notes_view(notes@), fid@, nid@),
{
    let ghost v = notes_view(notes@);
    for i in 0..notes.len()
        invariant
            v == notes_view(notes@),
            forall|j: int|
                0 <= j < i ==> !((#[trigger] v[j]).id == nid@ && v[j].folder_id == Some(fid@)),
    {
        let id_hit = notes[i].id == *nid;
        let folder_hit = match &notes[i].folder_id {
            Some(g) => *g == *fid,
            None => false,
        };
        if id_hit && folder_hit {
            assert(v[i as int].id == nid@ && v[i as int].folder_id == Some(fid@));
            return true;
        }
    }
    false
}

/// All associations whose note is not filed under folder `fid`.
pub fn retain_assocs_outside_folder(
    assocs: &Vec<crate::models::NoteTag>,
    notes: &Vec<Note>,
    fid: &String,
) -> (r: Vec<crate::models::NoteTag>)
    ensures
        assocs_view(r@) == assocs_view(assocs@).filter(
            assoc_outside_folder(notes_view(notes@), fid@),
        ),
{
    let ghost v = assocs_view(assocs@);
    let ghost p = assoc_outside_folder(notes_view(notes@), fid@);
    let mut out: Vec<crate::models::NoteTag> = Vec::new();
    for i in 0..assocs.len()
        invariant
            v == assocs_view(assocs@),
            p == assoc_outside_folder(notes_view(notes@), fid@),
            assocs_view(out@) == v.take(i as int).filter(p),
    {
        let ghost prev = assocs_view(out@);
        if !note_in_folder_check(notes, fid, &assocs[i].note_id) {
            out.push(assocs[i].cloned());
        }
        proof {
            lemma_take_succ(v, i as int);
            lemma_filter_push(v.take(i as int), v[i as int], p);
            if p(v[i as int]) {
                assert(assocs_view(out@) =~= prev.push(v[i as int]));
            }
        }
    }
    proof {
        assert(v.take(assocs@.len() as int) =~= v);
    }
    out
}

/// All edges touching no note filed under folder `fid`.
pub fn retain_links_outside_folder(
    links: &Vec<crate::models::LinkEdge>,
    notes: &Vec<Note>,
    fid: &String,
) -> (r: Vec<crate::models::LinkEdge>)
    ensures
        links_view(r@) == links_view(links@).filter(
            link_outside_folder(notes_view(notes@), fid@),
        ),
{
    let ghost v = links_view(links@);
    let ghost p = link_outside_folder(notes_view(notes@), fid@);
    let mut out: Vec<crate::models::LinkEdge> = Vec::new();
    for i in 0..links.len()
        invariant
            v == links_view(links@),
            p == link_outside_folder(notes_view(notes@), fid@),
            links_view(out@) == v.take(i as int).filter(p),
    {
        let ghost prev = links_view(out@);
        let src_in = note_in_folder_check(notes, fid, &links[i].source_id);
        let tgt_in = note_in_folder_check(notes, fid, &links[i].target_id);
        if !src_in && !tgt_in {
            out.push(links[i].cloned());
        }
        proof {
            lemma_take_succ(v, i as int);
            lemma_filter_push(v.take(i as int), v[i as int], p);
            if p(v[i as int]) {
                assert(links_view(out@) =~= prev.push(v[i as int]));
            }
        }
    }
    proof {
        assert(v.take(links@.len() as int) =~= v);
    }
    out
}

/// A copy of the notes with every note filed under `fid` detached.
pub fn detach_notes(notes: &Vec<Note>, fid: &String) -> (r: Vec<Note>)
    ensures
        notes_view(r@) == notes_view(notes@).map_values(detach_from(fid@)),
{
    let ghost v = notes_view(notes@);
    let ghost m = detach_from(fid@);
    let mut out: Vec<Note> = Vec::new();
    for i in 0..notes.len()
        invariant
            v == notes_view(notes@),
            m == detach_from(fid@),
            notes_view(out@) == v.take(i as int).map_values(m),
    {
        let ghost prev = notes_view(out@);
        let hit = match &notes[i].folder_id {
            Some(g) => *g == *fid,
            None => false,
        };
        if hit {
            out.push(
                Note {
                    id: notes[i].id.clone(),
                    folder_id: None,
                    title: notes[i].title.clone(),
                    content: notes[i].content.clone(),
                    created_at: notes[i].created_at,
                    updated_at: notes[i].updated_at,
                },
            );
        } else {
            out.push(notes[i].cloned());
        }
        proof {
            lemma_take_succ(v, i as int);
            assert(notes_view(out@) =~= prev.push(m(v[i as int])));
            assert(v.take(i + 1).map_values(m) =~= v.take(i as int).map_values(m).push(
                m(v[i as int]),
            ));
        }
    }
    proof {
        assert(v.take(notes@.len() as int) =~= v);
    }
    out
}

/// Deleting a folder — detaching or cascading its notes and dropping its row
/// — preserves the store invariant.
pub proof fn lemma_wf_delete_folder(o: StoreV, id: Seq<char>, delete_notes: bool, cur: StoreV)
    requires
        wf(o),
        cur.folders == o.folders.filter(not_folder(id)),
        cur.tags == o.tags,
        cur.applied == o.applied,
        !delete_notes ==> cur.notes == o.notes.map_values(detach_from(id)) && cur.index == o.index
            && cur.note_tags == o.note_tags && cur.links == o.links,
        delete_notes ==> cur.notes == o.notes.filter(outside_folder(id)) && cur.index
            == entries_of(cur.notes) && cur.note_tags == o.note_tags.filter(
            assoc_outside_folder(o.notes, id),
        ) && cur.links == o.links.filter(link_outside_folder(o.notes, id)),
    ensures
        wf(cur),
{
    let fp = not_folder(id);
    let tf = o.folders.filter(fp);
    assert(distinct_folder_ids(tf)) by {
        let r = |a: FolderV, b: FolderV| a.id != b.id;
        assert forall|a: int, b: int|
            0 <= a < o.folders.len() && 0 <= b < o.folders.len() && a != b implies #[trigger] r(
            o.folders[a],
            o.folders[b],
        ) by {
            if a < b {
                assert(o.folders[a].id != o.folders[b].id);
            } else {
                assert(o.folders[b].id != o.folders[a].id);
            }
        }
        lemma_filter_pairwise(o.folders, fp, r);
        assert forall|a: int, b: int| 0 <= a < b < tf.len() implies (#[trigger] tf[a]).id != (
        #[trigger] tf[b]).id by {
            assert(r(tf[a], tf[b]));
        }
    }
    if !delete_notes {
        let m = detach_from(id);
        let t = o.notes.map_values(m);
        assert forall|a: int, b: int| 0 <= a < b < t.len() implies (#[trigger] t[a]).id != (
        #[trigger] t[b]).id by {
            assert(t[a].id == o.notes[a].id && t[b].id == o.notes[b].id);
        }
        assert forall|i: int|
            0 <= i < t.len() implies (#[trigger] t[i]).updated_at >= t[i].created_at
                && folder_ref_ok(tf, t[i].folder_id) by {
            let n = o.notes[i];
            if t[i].folder_id is Some {
                let g = t[i].folder_id->Some_0;
                assert(n.folder_id == Some(g));
                assert(g != id);
                let k = choose|k: int| 0 <= k < o.folders.len() && (#[trigger] o.folders[k]).id
                    == g;
                assert(fp(o.folders[k]));
                o.folders.lemma_filter_contains(fp, k);
                let w = choose|w: int| 0 <= w < tf.len() && tf[w] == o.folders[k];
                assert(tf[w].id == g);
            }
        }
        assert forall|i: int|
            0 <= i < o.note_tags.len() implies has_note(t, (#[trigger] o.note_tags[i]).note_id)
                && has_tag(o.tags, o.note_tags[i].tag_id) by {
            let k = choose|k: int|
                0 <= k < o.notes.len() && (#[trigger] o.notes[k]).id == o.note_tags[i].note_id;
            assert(t[k].id == o.notes[k].id);
        }
        assert forall|i: int| 0 <= i < t.len() implies #[trigger] cur.index[i] == crate::models::entry_of(
            t[i],
        ) by {
            assert(o.index[i] == crate::models::entry_of(o.notes[i]));
        }
    } else {
        let np = outside_folder(id);
        let t = o.notes.filter(np);
        assert(distinct_note_ids(t)) by {
            let r = |a: NoteV, b: NoteV| a.id != b.id;
            assert forall|a: int, b: int|
                0 <= a < o.notes.len() && 0 <= b < o.notes.len() && a != b implies #[trigger] r(
                o.notes[a],
                o.notes[b],
            ) by {
                if a < b {
                    assert(o.notes[a].id != o.notes[b].id);
                } else {
                    assert(o.notes[b].id != o.notes[a].id);
                }
            }
            lemma_filter_pairwise(o.notes, np, r);
            assert forall|a: int, b: int| 0 <= a < b < t.len() implies (#[trigger] t[a]).id != (
            #[trigger] t[b]).id by {
                assert(r(t[a], t[b]));
            }
        }
        assert(notes_ok(t, tf)) by {
            assert forall|a: int|
                0 <= a < t.len() implies (#[trigger] t[a]).updated_at >= t[a].created_at
                    && folder_ref_ok(tf, t[a].folder_id) by {
                assert(t.contains(t[a]));
                o.notes.lemma_filter_contains_rev(np, t[a]);
                let k = choose|k: int| 0 <= k < o.notes.len() && o.notes[k] == t[a];
                assert(o.notes[k].updated_at >= o.notes[k].created_at);
                o.notes.lemma_filter_pred(np, a);
                if t[a].folder_id is Some {
                    let g = t[a].folder_id->Some_0;
                    assert(g != id);
                    let w = choose|w: int|
                        0 <= w < o.folders.len() && (#[trigger] o.folders[w]).id == g;
                    assert(fp(o.folders[w]));
                    o.folders.lemma_filter_contains(fp, w);
                    let x = choose|x: int| 0 <= x < tf.len() && tf[x] == o.folders[w];
                    assert(tf[x].id == g);
                }
            }
        }
        let q = assoc_outside_folder(o.notes, id);
        let na = o.note_tags.filter(q);
        assert(distinct_assocs(na)) by {
            let r = |a: NoteTagV, b: NoteTagV|
                !(a.note_id == b.note_id && a.tag_id == b.tag_id);
            assert forall|a: int, b: int|
                0 <= a < o.note_tags.len() && 0 <= b < o.note_tags.len() && a
                    != b implies #[trigger] r(o.note_tags[a], o.note_tags[b]) by {
                if a < b {
                    assert(!(o.note_tags[a].note_id == o.note_tags[b].note_id
                        && o.note_tags[a].tag_id == o.note_tags[b].tag_id));
                } else {
                    assert(!(o.note_tags[b].note_id == o.note_tags[a].note_id
                        && o.note_tags[b].tag_id == o.note_tags[a].tag_id));
                }
            }
            lemma_filter_pairwise(o.note_tags, q, r);
            assert forall|a: int, b: int|
                0 <= a < b < na.len() implies !((#[trigger] na[a]).note_id == (
            #[trigger] na[b]).note_id && na[a].tag_id == na[b].tag_id) by {
                assert(r(na[a], na[b]));
            }
        }
        assert forall|a: int|
            0 <= a < na.len() implies has_note(t, (#[trigger] na[a]).note_id) && has_tag(
            o.tags,
            na[a].tag_id,
        ) by {
            o.note_tags.lemma_filter_pred(q, a);
            assert(na.contains(na[a]));
            o.note_tags.lemma_filter_contains_rev(q, na[a]);
            let k = choose|k: int|
                0 <= k < o.notes.len() && (#[trigger] o.notes[k]).id == na[a].note_id;
            assert(np(o.notes[k])) by {
                if o.notes[k].folder_id == Some(id) {
                    assert(note_in_folder(o.notes, id, na[a].note_id));
                }
            }
            o.notes.lemma_filter_contains(np, k);
            let w = choose|w: int| 0 <= w < t.len() && t[w] == o.notes[k];
            assert(t[w].id == na[a].note_id);
        }
        let lp = link_outside_folder(o.notes, id);
        let nl = o.links.filter(lp);
        assert(distinct_links(nl)) by {
            let r = |a: LinkEdgeV, b: LinkEdgeV|
                !(a.source_id == b.source_id && a.target_id == b.target_id);
            assert forall|a: int, b: int|
                0 <= a < o.links.len() && 0 <= b < o.links.len() && a != b implies #[trigger] r(
                o.links[a],
                o.links[b],
            ) by {
                if a < b {
                    assert(!(o.links[a].source_id == o.links[b].source_id && o.links[a].target_id
                        == o.links[b].target_id));
                } else {
                    assert(!(o.links[b].source_id == o.links[a].source_id && o.links[b].target_id
                        == o.links[a].target_id));
                }
            }
            lemma_filter_pairwise(o.links, lp, r);
            assert forall|a: int, b: int|
                0 <= a < b < nl.len() implies !((#[trigger] nl[a]).source_id == (
            #[trigger] nl[b]).source_id && nl[a].target_id == nl[b].target_id) by {
                assert(r(nl[a], nl[b]));
            }
        }
    }
}

} // verus!
