//! Canonical entities, their derived row shapes, and their mathematical views.

use vstd::prelude::*;

verus! {

/// Characters of content kept in a listing excerpt.
pub const EXCERPT_CHARS: usize = 200;

/// The view of an optional string: the character sequence, if present.
pub open spec fn opt_view(o: Option<String>) -> Option<Seq<char>> {
    match o {
        Some(s) => Some(s@),
        None => None,
    }
}

/// A canonical note row.
#[derive(Debug)]
pub struct Note {
    pub id: String,
    pub folder_id: Option<String>,
    pub title: String,
    pub content: String,
    pub created_at: i64,
    pub updated_at: i64,
}

/// Mathematical model of a note.
pub ghost struct NoteV {
    pub id: Seq<char>,
    pub folder_id: Option<Seq<char>>,
    pub title: Seq<char>,
    pub content: Seq<char>,
    pub created_at: int,
    pub updated_at: int,
}

impl View for Note {
    type V = NoteV;

    open spec fn view(&self) -> NoteV {
        NoteV {
            id: self.id@,
            folder_id: opt_view(self.folder_id),
            title: self.title@,
            content: self.content@,
            created_at: self.created_at as int,
            updated_at: self.updated_at as int,
        }
    }
}

/// A note reduced for listing: the body is cut down to an excerpt.
#[derive(Debug)]
pub struct NoteSummary {
    pub id: String,
    pub folder_id: Option<String>,
    pub title: String,
    pub excerpt: String,
    pub updated_at: i64,
}

/// Mathematical model of a note summary.
pub ghost struct NoteSummaryV {
    pub id: Seq<char>,
    pub folder_id: Option<Seq<char>>,
    pub title: Seq<char>,
    pub excerpt: Seq<char>,
    pub updated_at: int,
}

impl View for NoteSummary {
    type V = NoteSummaryV;

    open spec fn view(&self) -> NoteSummaryV {
        NoteSummaryV {
            id: self.id@,
            folder_id: opt_view(self.folder_id),
            title: self.title@,
            excerpt: self.excerpt@,
            updated_at: self.updated_at as int,
        }
    }
}

/// The excerpt shown for a note: the first `EXCERPT_CHARS` characters of
/// its content.
pub open spec fn excerpt_of(content: Seq<char>) -> Seq<char> {
    if content.len() <= EXCERPT_CHARS {
        content
    } else {
        content.subrange(0, EXCERPT_CHARS as int)
    }
}

/// The summary derived from a note.
pub open spec fn summary_of(n: NoteV) -> NoteSummaryV {
    NoteSummaryV {
        id: n.id,
        folder_id: n.folder_id,
        title: n.title,
        excerpt: excerpt_of(n.content),
        updated_at: n.updated_at,
    }
}

/// A folder row.
#[derive(Debug)]
pub struct Folder {
    pub id: String,
    pub name: String,
    pub parent_id: Option<String>,
    pub created_at: i64,
}

/// Mathematical model of a folder.
pub ghost struct FolderV {
    pub id: Seq<char>,
    pub name: Seq<char>,
    pub parent_id: Option<Seq<char>>,
    pub created_at: int,
}

impl View for Folder {
    type V = FolderV;

    open spec fn view(&self) -> FolderV {
        FolderV {
            id: self.id@,
            name: self.name@,
            parent_id: opt_view(self.parent_id),
            created_at: self.created_at as int,
        }
    }
}

/// A folder as listed, joined with the number of notes it holds.
#[derive(Debug)]
pub struct FolderListItem {
    pub id: String,
    pub name: String,
    pub parent_id: Option<String>,
    pub note_count: i64,
}

/// Mathematical model of a listed folder.
pub ghost struct FolderListItemV {
    pub id: Seq<char>,
    pub name: Seq<char>,
    pub parent_id: Option<Seq<char>>,
    pub note_count: int,
}

impl View for FolderListItem {
    type V = FolderListItemV;

    open spec fn view(&self) -> FolderListItemV {
        FolderListItemV {
            id: self.id@,
            name: self.name@,
            parent_id: opt_view(self.parent_id),
            note_count: self.note_count as int,
        }
    }
}

/// A tag row.
#[derive(Debug)]
pub struct Tag {
    pub id: String,
    pub name: String,
    pub color: String,
}

/// Mathematical model of a tag.
pub ghost struct TagV {
    pub id: Seq<char>,
    pub name: Seq<char>,
    pub color: Seq<char>,
}

impl View for Tag {
    type V = TagV;

    open spec fn view(&self) -> TagV {
        TagV { id: self.id@, name: self.name@, color: self.color@ }
    }
}

/// A tag as listed, joined with the number of notes bearing it.
#[derive(Debug)]
pub struct TagWithCount {
    pub id: String,
    pub name: String,
    pub color: String,
    pub note_count: i64,
}

/// Mathematical model of a listed tag.
pub ghost struct TagWithCountV {
    pub id: Seq<char>,
    pub name: Seq<char>,
    pub color: Seq<char>,
    pub note_count: int,
}

impl View for TagWithCount {
    type V = TagWithCountV;

    open spec fn view(&self) -> TagWithCountV {
        TagWithCountV {
            id: self.id@,
            name: self.name@,
            color: self.color@,
            note_count: self.note_count as int,
        }
    }
}

/// A note-to-tag association row.
#[derive(Debug)]
pub struct NoteTag {
    pub note_id: String,
    pub tag_id: String,
}

/// Mathematical model of an association.
pub ghost struct NoteTagV {
    pub note_id: Seq<char>,
    pub tag_id: Seq<char>,
}

impl View for NoteTag {
    type V = NoteTagV;

    open spec fn view(&self) -> NoteTagV {
        NoteTagV { note_id: self.note_id@, tag_id: self.tag_id@ }
    }
}

/// A directed backlink edge: the source note mentions the target note.
#[derive(Debug)]
pub struct LinkEdge {
    pub source_id: String,
    pub target_id: String,
    pub context: Option<String>,
}

/// Mathematical model of an edge.
pub ghost struct LinkEdgeV {
    pub source_id: Seq<char>,
    pub target_id: Seq<char>,
    pub context: Option<Seq<char>>,
}

impl View for LinkEdge {
    type V = LinkEdgeV;

    open spec fn view(&self) -> LinkEdgeV {
        LinkEdgeV {
            source_id: self.source_id@,
            target_id: self.target_id@,
            context: opt_view(self.context),
        }
    }
}

/// An inbound edge as reported: joined with the source note's live title.
#[derive(Debug)]
pub struct Backlink {
    pub source_id: String,
    pub source_title: String,
    pub context: Option<String>,
}

/// Mathematical model of a reported backlink.
pub ghost struct BacklinkV {
    pub source_id: Seq<char>,
    pub source_title: Seq<char>,
    pub context: Option<Seq<char>>,
}

impl View for Backlink {
    type V = BacklinkV;

    open spec fn view(&self) -> BacklinkV {
        BacklinkV {
            source_id: self.source_id@,
            source_title: self.source_title@,
            context: opt_view(self.context),
        }
    }
}

/// A full-text index entry: the searchable shadow of one note.
#[derive(Debug)]
pub struct IndexEntry {
    pub note_id: String,
    pub title: String,
    pub content: String,
}

/// Mathematical model of an index entry.
pub ghost struct IndexEntryV {
    pub note_id: Seq<char>,
    pub title: Seq<char>,
    pub content: Seq<char>,
}

impl View for IndexEntry {
    type V = IndexEntryV;

    open spec fn view(&self) -> IndexEntryV {
        IndexEntryV { note_id: self.note_id@, title: self.title@, content: self.content@ }
    }
}

/// The index entry a note must be shadowed by.
pub open spec fn entry_of(n: NoteV) -> IndexEntryV {
    IndexEntryV { note_id: n.id, title: n.title, content: n.content }
}

/// What a paged listing returns: one page of summaries and the size of the
/// whole filtered set.
#[derive(Debug)]
pub struct ListNotesResponse {
    pub notes: Vec<NoteSummary>,
    pub total: i64,
}

/// What folder deletion returns: the number of notes detached from the
/// folder (zero when its notes were deleted instead).
#[derive(Debug)]
pub struct DeleteFolderResponse {
    pub success: bool,
    pub moved_notes: i64,
}

/// One ranked search hit. A smaller `rank` means a more relevant note.
#[derive(Debug)]
pub struct SearchResult {
    pub id: String,
    pub title: String,
    pub snippet: String,
    pub rank: i64,
}

/// Mathematical model of a search hit.
pub ghost struct SearchResultV {
    pub id: Seq<char>,
    pub title: Seq<char>,
    pub snippet: Seq<char>,
    pub rank: int,
}

impl View for SearchResult {
    type V = SearchResultV;

    open spec fn view(&self) -> SearchResultV {
        SearchResultV {
            id: self.id@,
            title: self.title@,
            snippet: self.snippet@,
            rank: self.rank as int,
        }
    }
}

/// The view of a tri-state update parameter: absent means "leave unchanged",
/// present-with-none clears the field, present-with-value sets it.
pub open spec fn tri_view(o: Option<Option<String>>) -> Option<Option<Seq<char>>> {
    match o {
        Some(x) => Some(opt_view(x)),
        None => None,
    }
}

/// Copies an optional string, preserving its view.
pub fn clone_opt(o: &Option<String>) -> (r: Option<String>)
    ensures
        opt_view(r) == opt_view(*o),
{
    match o {
        Some(s) => Some(s.clone()),
        None => None,
    }
}

impl Note {
    /// A copy with the same model.
    pub fn cloned(&self) -> (r: Note)
        ensures
            r@ == self@,
    {
        Note {
            id: self.id.clone(),
            folder_id: clone_opt(&self.folder_id),
            title: self.title.clone(),
            content: self.content.clone(),
            created_at: self.created_at,
            updated_at: self.updated_at,
        }
    }
}

impl Folder {
    /// A copy with the same model.
    pub fn cloned(&self) -> (r: Folder)
        ensures
            r@ == self@,
    {
        Folder {
            id: self.id.clone(),
            name: self.name.clone(),
            parent_id: clone_opt(&self.parent_id),
            created_at: self.created_at,
        }
    }
}

impl Tag {
    /// A copy with the same model.
    pub fn cloned(&self) -> (r: Tag)
        ensures
            r@ == self@,
    {
        Tag { id: self.id.clone(), name: self.name.clone(), color: self.color.clone() }
    }
}

impl NoteTag {
    /// A copy with the same model.
    pub fn cloned(&self) -> (r: NoteTag)
        ensures
            r@ == self@,
    {
        NoteTag { note_id: self.note_id.clone(), tag_id: self.tag_id.clone() }
    }
}

impl LinkEdge {
    /// A copy with the same model.
    pub fn cloned(&self) -> (r: LinkEdge)
        ensures
            r@ == self@,
    {
        LinkEdge {
            source_id: self.source_id.clone(),
            target_id: self.target_id.clone(),
            context: clone_opt(&self.context),
        }
    }
}

impl IndexEntry {
    /// A copy with the same model.
    pub fn cloned(&self) -> (r: IndexEntry)
        ensures
            r@ == self@,
    {
        IndexEntry {
            note_id: self.note_id.clone(),
            title: self.title.clone(),
            content: self.content.clone(),
        }
    }
}

} // verus!
