//! The storage core: canonical rows, derived rows, and the well-formedness
//! invariant that every operation preserves.

use vstd::prelude::*;
use crate::models::{
    entry_of,
    Folder,
    FolderV,
    IndexEntry,
    IndexEntryV,
    LinkEdge,
    LinkEdgeV,
    Note,
    NoteTag,
    NoteTagV,
    NoteV,
    Tag,
    TagV,
};

verus! {

/// Number of schema migrations in the catalog.
pub const MIGRATION_COUNT: u64 = 5;

/// The storage core. Owns the canonical note, folder, tag and association
/// rows, the derived full-text index, the backlink edges, and the record of
/// applied schema migrations.
pub struct Store {
    pub notes: Vec<Note>,
    pub folders: Vec<Folder>,
    pub tags: Vec<Tag>,
    pub note_tags: Vec<NoteTag>,
    pub links: Vec<LinkEdge>,
    pub index: Vec<IndexEntry>,
    pub applied: Vec<u64>,
}

/// Mathematical model of the whole store.
#[verifier::ext_equal]
pub ghost struct StoreV {
    pub notes: Seq<NoteV>,
    pub folders: Seq<FolderV>,
    pub tags: Seq<TagV>,
    pub note_tags: Seq<NoteTagV>,
    pub links: Seq<LinkEdgeV>,
    pub index: Seq<IndexEntryV>,
    pub applied: Seq<u64>,
}


/// The models of a sequence of note rows.
pub open spec fn notes_view(v: Seq<Note>) -> Seq<NoteV> {
    v.map_values(|n: Note| n@)
}

/// The models of a sequence of folder rows.
pub open spec fn folders_view(v: Seq<Folder>) -> Seq<FolderV> {
    v.map_values(|f: Folder| f@)
}

/// The models of a sequence of tag rows.
pub open spec fn tags_view(v: Seq<Tag>) -> Seq<TagV> {
    v.map_values(|t: Tag| t@)
}

/// The models of a sequence of association rows.
pub open spec fn assocs_view(v: Seq<NoteTag>) -> Seq<NoteTagV> {
    v.map_values(|a: NoteTag| a@)
}

/// The models of a sequence of edge rows.
pub open spec fn links_view(v: Seq<LinkEdge>) -> Seq<LinkEdgeV> {
    v.map_values(|l: LinkEdge| l@)
}

/// The models of a sequence of index entries.
pub open spec fn entries_view(v: Seq<IndexEntry>) -> Seq<IndexEntryV> {
    v.map_values(|e: IndexEntry| e@)
}

impl View for Store {
    type V = StoreV;

    open spec fn view(&self) -> StoreV {
        StoreV {
            notes: notes_view(self.notes@),
            folders: folders_view(self.folders@),
            tags: tags_view(self.tags@),
            note_tags: assocs_view(self.note_tags@),
            links: links_view(self.links@),
            index: entries_view(self.index@),
            applied: self.applied@,
        }
    }
}

// ---------------------------------------------------------------------------
// Membership and lookup
// ---------------------------------------------------------------------------

/// Some note row carries this identifier.
pub open spec fn has_note(notes: Seq<NoteV>, id: Seq<char>) -> bool {
    exists|i: int| 0 <= i < notes.len() && (#[trigger] notes[i]).id == id
}

/// Some folder row carries this identifier.
pub open spec fn has_folder(folders: Seq<FolderV>, id: Seq<char>) -> bool {
    exists|i: int| 0 <= i < folders.len() && (#[trigger] folders[i]).id == id
}

/// Some tag row carries this identifier.
pub open spec fn has_tag(tags: Seq<TagV>, id: Seq<char>) -> bool {
    exists|i: int| 0 <= i < tags.len() && (#[trigger] tags[i]).id == id
}

/// Some tag row carries this display name.
pub open spec fn has_tag_name(tags: Seq<TagV>, name: Seq<char>) -> bool {
    exists|i: int| 0 <= i < tags.len() && (#[trigger] tags[i]).name == name
}

/// The association rows pair this note with this tag.
pub open spec fn has_assoc(assocs: Seq<NoteTagV>, note_id: Seq<char>, tag_id: Seq<char>) -> bool {
    exists|i: int|
        0 <= i < assocs.len() && (#[trigger] assocs[i]).note_id == note_id && assocs[i].tag_id
            == tag_id
}

/// An edge from `source_id` to `target_id` exists.
pub open spec fn has_link(links: Seq<LinkEdgeV>, source_id: Seq<char>, target_id: Seq<char>) -> bool {
    exists|i: int|
        0 <= i < links.len() && (#[trigger] links[i]).source_id == source_id && links[i].target_id
            == target_id
}

/// The first note row carrying this identifier, if any.
pub open spec fn lookup_note(notes: Seq<NoteV>, id: Seq<char>) -> Option<NoteV>
    decreases notes.len(),
{
    if notes.len() == 0 {
        None
    } else if notes[0].id == id {
        Some(notes[0])
    } else {
        lookup_note(notes.drop_first(), id)
    }
}

/// An optional folder reference resolves: it is absent or names an existing
/// folder.
pub open spec fn folder_ref_ok(folders: Seq<FolderV>, folder_id: Option<Seq<char>>) -> bool {
    match folder_id {
        Some(f) => has_folder(folders, f),
        None => true,
    }
}

// ---------------------------------------------------------------------------
// Well-formedness
// ---------------------------------------------------------------------------

/// Note identifiers are pairwise distinct.
pub open spec fn distinct_note_ids(s: Seq<NoteV>) -> bool {
    forall|i: int, j: int|
        0 <= i < j < s.len() ==> (#[trigger] s[i]).id != (#[trigger] s[j]).id
}

/// Folder identifiers are pairwise distinct.
pub open spec fn distinct_folder_ids(s: Seq<FolderV>) -> bool {
    forall|i: int, j: int|
        0 <= i < j < s.len() ==> (#[trigger] s[i]).id != (#[trigger] s[j]).id
}

/// Tag identifiers and display names are pairwise distinct.
pub open spec fn distinct_tags(s: Seq<TagV>) -> bool {
    forall|i: int, j: int|
        0 <= i < j < s.len() ==> (#[trigger] s[i]).id != (#[trigger] s[j]).id && s[i].name
            != s[j].name
}

/// No two association rows pair the same note with the same tag.
pub open spec fn distinct_assocs(s: Seq<NoteTagV>) -> bool {
    forall|i: int, j: int|
        0 <= i < j < s.len() ==> !((#[trigger] s[i]).note_id == (#[trigger] s[j]).note_id
            && s[i].tag_id == s[j].tag_id)
}

/// At most one edge per ordered (source, target) pair.
pub open spec fn distinct_links(s: Seq<LinkEdgeV>) -> bool {
    forall|i: int, j: int|
        0 <= i < j < s.len() ==> !((#[trigger] s[i]).source_id == (#[trigger] s[j]).source_id
            && s[i].target_id == s[j].target_id)
}

/// Every note is internally consistent: it was not updated before it was
/// created, and its folder reference, if set, resolves.
pub open spec fn notes_ok(notes: Seq<NoteV>, folders: Seq<FolderV>) -> bool {
    forall|i: int|
        0 <= i < notes.len() ==> (#[trigger] notes[i]).updated_at >= notes[i].created_at
            && folder_ref_ok(folders, notes[i].folder_id)
}

/// Every association row references an existing note and an existing tag.
pub open spec fn assocs_ok(assocs: Seq<NoteTagV>, notes: Seq<NoteV>, tags: Seq<TagV>) -> bool {
    forall|i: int|
        0 <= i < assocs.len() ==> has_note(notes, (#[trigger] assocs[i]).note_id) && has_tag(
            tags,
            assocs[i].tag_id,
        )
}

/// The full-text index mirrors the canonical notes row for row: it never
/// diverges from committed data.
pub open spec fn index_synced(index: Seq<IndexEntryV>, notes: Seq<NoteV>) -> bool {
    &&& index.len() == notes.len()
    &&& forall|i: int| 0 <= i < notes.len() ==> #[trigger] index[i] == entry_of(notes[i])
}

/// Applied migration versions are recorded in strictly ascending order and
/// stay within the catalog.
pub open spec fn applied_ok(applied: Seq<u64>) -> bool {
    &&& forall|i: int, j: int|
        0 <= i < j < applied.len() ==> (#[trigger] applied[i]) < (#[trigger] applied[j])
    &&& forall|i: int| 0 <= i < applied.len() ==> 1 <= (#[trigger] applied[i]) <= MIGRATION_COUNT
}

/// The store invariant. Established by `Store::new` and preserved by every
/// operation.
pub open spec fn wf(v: StoreV) -> bool {
    &&& distinct_note_ids(v.notes)
    &&& distinct_folder_ids(v.folders)
    &&& distinct_tags(v.tags)
    &&& distinct_assocs(v.note_tags)
    &&& distinct_links(v.links)
    &&& notes_ok(v.notes, v.folders)
    &&& assocs_ok(v.note_tags, v.notes, v.tags)
    &&& index_synced(v.index, v.notes)
    &&& applied_ok(v.applied)
}

/// The model of a store holding nothing.
pub open spec fn empty_store() -> StoreV {
    StoreV {
        notes: Seq::empty(),
        folders: Seq::empty(),
        tags: Seq::empty(),
        note_tags: Seq::empty(),
        links: Seq::empty(),
        index: Seq::empty(),
        applied: Seq::empty(),
    }
}

impl Store {
    /// Opens an empty store. The unverified shell replays persisted rows
    /// through the ordinary operations to rebuild state.
    pub fn new() -> (s: Store)
        ensures
            s@ =~= empty_store(),
            wf(s@),
    {
        let s = Store {
            notes: Vec::new(),
            folders: Vec::new(),
            tags: Vec::new(),
            note_tags: Vec::new(),
            links: Vec::new(),
            index: Vec::new(),
            applied: Vec::new(),
        };
        s
    }
}

// ---------------------------------------------------------------------------
// Executable lookups, specified against the model
// ---------------------------------------------------------------------------

/// Index of the first note row carrying `id`, if any.
pub fn note_position(notes: &Vec<Note>, id: &String) -> (r: Option<usize>)
    ensures
        match r {
            Some(i) => i < notes.len() && notes_view(notes@)[i as int].id == id@,
            None => !has_note(notes_view(notes@), id@),
        },
{
    let ghost v = notes_view(notes@);
    for i in 0..notes.len()
        invariant
            v == notes_view(notes@),
            forall|j: int| 0 <= j < i ==> (#[trigger] v[j]).id != id@,
    {
        if notes[i].id == *id {
            return Some(i);
        }
    }
    None
}

/// Index of the first folder row carrying `id`, if any.
pub fn folder_position(folders: &Vec<Folder>, id: &String) -> (r: Option<usize>)
    ensures
        match r {
            Some(i) => i < folders.len() && folders_view(folders@)[i as int].id
                == id@,
            None => !has_folder(folders_view(folders@), id@),
        },
{
    let ghost v = folders_view(folders@);
    for i in 0..folders.len()
        invariant
            v == folders_view(folders@),
            forall|j: int| 0 <= j < i ==> (#[trigger] v[j]).id != id@,
    {
        if folders[i].id == *id {
            return Some(i);
        }
    }
    None
}

/// Index of the first tag row carrying `id`, if any.
pub fn tag_position(tags: &Vec<Tag>, id: &String) -> (r: Option<usize>)
    ensures
        match r {
            Some(i) => i < tags.len() && tags_view(tags@)[i as int].id == id@,
            None => !has_tag(tags_view(tags@), id@),
        },
{
    let ghost v = tags_view(tags@);
    for i in 0..tags.len()
        invariant
            v == tags_view(tags@),
            forall|j: int| 0 <= j < i ==> (#[trigger] v[j]).id != id@,
    {
        if tags[i].id == *id {
            return Some(i);
        }
    }
    None
}

/// Whether some tag row carries this display name.
pub fn tag_name_taken(tags: &Vec<Tag>, name: &String) -> (r: bool)
    ensures
        r == has_tag_name(tags_view(tags@), name@),
{
    let ghost v = tags_view(tags@);
    for i in 0..tags.len()
        invariant
            v == tags_view(tags@),
            forall|j: int| 0 <= j < i ==> (#[trigger] v[j]).name != name@,
    {
        if tags[i].name == *name {
            assert(v[i as int].name == name@);
            return true;
        }
    }
    false
}

// ---------------------------------------------------------------------------
// Lemmas about lookup
// ---------------------------------------------------------------------------

/// `lookup_note` finds an occupant exactly when one exists, and under
/// distinct identifiers it agrees with every index that matches.
pub proof fn lemma_lookup_note(notes: Seq<NoteV>, id: Seq<char>)
    ensures
        lookup_note(notes, id) is Some <==> has_note(notes, id),
        lookup_note(notes, id) matches Some(n) ==> n.id == id && exists|i: int|
            0 <= i < notes.len() && #[trigger] notes[i] == n,
        distinct_note_ids(notes) ==> forall|i: int|
            0 <= i < notes.len() && (#[trigger] notes[i]).id == id ==> lookup_note(notes, id)
                == Some(notes[i]),
    decreases notes.len(),
{
    if notes.len() == 0 {
    } else if notes[0].id == id {
        assert(notes[0] == notes[0]);
        if distinct_note_ids(notes) {
            assert forall|i: int|
                0 <= i < notes.len() && (#[trigger] notes[i]).id == id implies lookup_note(
                notes,
                id,
            ) == Some(notes[i]) by {
                if i != 0 {
                    assert(notes[0].id != notes[i].id);
                }
            }
        }
    } else {
        let rest = notes.drop_first();
        lemma_lookup_note(rest, id);
        assert forall|i: int|
            0 <= i < notes.len() && (#[trigger] notes[i]).id == id implies 1 <= i by {}
        if has_note(notes, id) {
            let i = choose|i: int| 0 <= i < notes.len() && (#[trigger] notes[i]).id == id;
            assert(rest[i - 1] == notes[i]);
            assert(has_note(rest, id));
        }
        if has_note(rest, id) {
            let i = choose|i: int| 0 <= i < rest.len() && (#[trigger] rest[i]).id == id;
            assert(notes[i + 1] == rest[i]);
            assert(has_note(notes, id));
        }
        if lookup_note(rest, id) is Some {
            let n = lookup_note(rest, id)->Some_0;
            let i = choose|i: int| 0 <= i < rest.len() && #[trigger] rest[i] == n;
            assert(notes[i + 1] == rest[i]);
        }
        if distinct_note_ids(notes) {
            assert(distinct_note_ids(rest)) by {
                assert forall|i: int, j: int|
                    0 <= i < j < rest.len() implies (#[trigger] rest[i]).id != (
                #[trigger] rest[j]).id by {
                    assert(rest[i] == notes[i + 1]);
                    assert(rest[j] == notes[j + 1]);
                }
            }
            assert forall|i: int|
                0 <= i < notes.len() && (#[trigger] notes[i]).id == id implies lookup_note(
                notes,
                id,
            ) == Some(notes[i]) by {
                assert(rest[i - 1] == notes[i]);
            }
        }
    }
}

} // verus!
