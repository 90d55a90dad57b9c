//! Paged note listing: filtering, most-recently-updated-first ordering, and
//! excerpting.

use vstd::prelude::*;
use vstd::multiset::Multiset;
use vstd::seq_lib::group_to_multiset_ensures;
use crate::models::{
    clone_opt,
    summary_of,
    ListNotesResponse,
    Note,
    NoteSummary,
    NoteSummaryV,
    NoteTagV,
    NoteV,
    EXCERPT_CHARS,
};
use crate::seqs::{lemma_filter_push, lemma_take_succ};
use crate::store::{has_assoc, notes_view, wf, Store};
use crate::tags::assoc_position;
use crate::text::take_chars;

verus! {

/// The filter a listing applies. With no filters only root-level notes — no
/// folder — are listed; a tag filter alone selects notes bearing the tag
/// across all folders; both filters together apply both constraints.
pub open spec fn list_filter(
    folder_id: Option<Seq<char>>,
    tag_id: Option<Seq<char>>,
    assocs: Seq<NoteTagV>,
) -> spec_fn(NoteV) -> bool {
    |n: NoteV|
        match tag_id {
            Some(t) => has_assoc(assocs, n.id, t) && (match folder_id {
                Some(f) => n.folder_id == Some(f),
                None => true,
            }),
            None => match folder_id {
                Some(f) => n.folder_id == Some(f),
                None => n.folder_id is None,
            },
        }
}

/// Most recently updated first.
pub open spec fn sorted_desc(s: Seq<NoteV>) -> bool {
    forall|i: int, j: int|
        0 <= i <= j < s.len() ==> (#[trigger] s[i]).updated_at >= (#[trigger] s[j]).updated_at
}

/// The page of an ordering selected by `offset` and `limit`, clipped to its
/// bounds.
pub open spec fn page_of(s: Seq<NoteV>, offset: int, limit: int) -> Seq<NoteV> {
    let lo = if offset <= s.len() {
        offset
    } else {
        s.len() as int
    };
    let hi = if offset + limit <= s.len() {
        offset + limit
    } else {
        s.len() as int
    };
    if lo <= hi {
        s.subrange(lo, hi)
    } else {
        Seq::empty()
    }
}

/// The summaries of a sequence of notes.
pub open spec fn summaries_of(s: Seq<NoteV>) -> Seq<NoteSummaryV> {
    s.map_values(|n: NoteV| summary_of(n))
}

/// Index of a note with the greatest update time.
fn max_updated_position(notes: &Vec<Note>) -> (r: usize)
    requires
        notes@.len() > 0,
    ensures
        r < notes@.len(),
        forall|j: int|
            0 <= j < notes@.len() ==> notes_view(notes@)[r as int].updated_at >= (
            #[trigger] notes_view(notes@)[j]).updated_at,
{
    let ghost v = notes_view(notes@);
    let mut best: usize = 0;
    for i in 1..notes.len()
        invariant
            v == notes_view(notes@),
            notes@.len() > 0,
            best < i,
            forall|j: int| 0 <= j < i ==> v[best as int].updated_at >= (#[trigger] v[j]).updated_at,
    {
        if notes[i].updated_at > notes[best].updated_at {
            best = i;
        }
    }
    best
}

/// Sorts notes by update time, most recent first. The result is a
/// permutation of the input.
pub fn sort_notes_desc(v: Vec<Note>) -> (r: Vec<Note>)
    ensures
        sorted_desc(notes_view(r@)),
        notes_view(r@).to_multiset() == notes_view(v@).to_multiset(),
{
    let ghost orig = notes_view(v@);
    let mut input = v;
    let mut out: Vec<Note> = Vec::new();
    proof {
        broadcast use vstd::multiset::group_multiset_axioms;
        broadcast use group_to_multiset_ensures;

        assert(notes_view(out@).len() == 0);
        assert(notes_view(out@).to_multiset() =~= Multiset::<NoteV>::empty());
        assert(notes_view(out@).to_multiset().add(notes_view(input@).to_multiset())
            =~= orig.to_multiset());
    }
    while input.len() > 0
        invariant
            sorted_desc(notes_view(out@)),
            forall|a: int, b: int|
                0 <= a < out@.len() && 0 <= b < input@.len() ==> (#[trigger] notes_view(
                    out@,
                )[a]).updated_at >= (#[trigger] notes_view(input@)[b]).updated_at,
            notes_view(out@).to_multiset().add(notes_view(input@).to_multiset())
                =~= orig.to_multiset(),
        decreases input@.len(),
    {
        let ghost out_v = notes_view(out@);
        let ghost in_v = notes_view(input@);
        let m = max_updated_position(&input);
        let x = input.remove(m);
        let ghost xv = x@;
        out.push(x);
        proof {
            broadcast use vstd::multiset::group_multiset_axioms;
            broadcast use group_to_multiset_ensures;

            assert(in_v.contains(in_v[m as int]));
            assert(in_v.to_multiset().count(xv) > 0);
            assert(notes_view(input@) =~= in_v.remove(m as int));
            assert(notes_view(out@) =~= out_v.push(xv));
            assert(in_v[m as int] == xv);
            vstd::seq_lib::to_multiset_remove(in_v, m as int);
            vstd::seq_lib::to_multiset_build(out_v, xv);
            assert(in_v.remove(m as int).to_multiset() == in_v.to_multiset().remove(xv));
            assert(out_v.push(xv).to_multiset() =~= out_v.to_multiset().insert(xv));
            assert(out_v.to_multiset().insert(xv).add(in_v.to_multiset().remove(xv))
                =~= out_v.to_multiset().add(in_v.to_multiset()));
            assert forall|a: int, b: int|
                0 <= a < out@.len() && 0 <= b < input@.len() implies (#[trigger] notes_view(
                out@,
            )[a]).updated_at >= (#[trigger] notes_view(input@)[b]).updated_at by {
                let nb = notes_view(input@)[b];
                if b < m {
                    assert(nb == in_v[b]);
                } else {
                    assert(nb == in_v[b + 1]);
                }
                if a < out_v.len() {
                    assert(notes_view(out@)[a] == out_v[a]);
                } else {
                    assert(notes_view(out@)[a] == xv);
                }
            }
            assert forall|a: int, b: int|
                0 <= a <= b < notes_view(out@).len() implies (#[trigger] notes_view(
                out@,
            )[a]).updated_at >= (#[trigger] notes_view(out@)[b]).updated_at by {
                if b < out_v.len() {
                    assert(notes_view(out@)[a] == out_v[a] && notes_view(out@)[b] == out_v[b]);
                } else if a < out_v.len() {
                    assert(notes_view(out@)[a] == out_v[a] && notes_view(out@)[b] == xv);
                    assert(in_v[m as int] == xv);
                }
            }
        }
    }
    proof {
        broadcast use vstd::multiset::group_multiset_axioms;
        broadcast use group_to_multiset_ensures;

        assert(notes_view(input@).len() == 0);
        assert(notes_view(input@).to_multiset().len() == 0);
        assert(notes_view(input@).to_multiset() =~= Multiset::<NoteV>::empty());
        assert(notes_view(out@).to_multiset() =~= orig.to_multiset());
    }
    out
}

impl Store {
    /// Lists notes as summaries, most recently updated first, paged by
    /// `limit` and `offset`. With no filters only root-level notes are
    /// listed; a tag filter alone searches across all folders; both filters
    /// combine. `total` counts the whole filtered set before paging. The
    /// length bound is forced by the signed total in the result.
    pub fn list_notes(
        &self,
        folder_id: Option<String>,
        tag_id: Option<String>,
        limit: usize,
        offset: usize,
    ) -> (r: ListNotesResponse)
        requires
            wf(self@),
            self@.notes.len() <= 0x7fff_ffff_ffff_ffff,
        ensures
            r.total as int == self@.notes.filter(
                list_filter(
                    crate::models::opt_view(folder_id),
                    crate::models::opt_view(tag_id),
                    self@.note_tags,
                ),
            ).len(),
            exists|ord: Seq<NoteV>|
                {
                    &&& #[trigger] ord.to_multiset() == self@.notes.filter(
                        list_filter(
                            crate::models::opt_view(folder_id),
                            crate::models::opt_view(tag_id),
                            self@.note_tags,
                        ),
                    ).to_multiset()
                    &&& sorted_desc(ord)
                    &&& r.notes@.map_values(|s: NoteSummary| s@) == summaries_of(
                        page_of(ord, offset as int, limit as int),
                    )
                },
    {
        let ghost p = list_filter(
            crate::models::opt_view(folder_id),
            crate::models::opt_view(tag_id),
            self@.note_tags,
        );
        let ghost v = self@.notes;
        // Collect the filtered set.
        let mut picked: Vec<Note> = Vec::new();
        for i in 0..self.notes.len()
            invariant
                v == self@.notes,
                p == list_filter(
                    crate::models::opt_view(folder_id),
                    crate::models::opt_view(tag_id),
                    self@.note_tags,
                ),
                notes_view(picked@) == v.take(i as int).filter(p),
        {
            let ghost prev = notes_view(picked@);
            let folder_hit = match (&folder_id, &tag_id) {
                (Some(f), _) => {
                    match &self.notes[i].folder_id {
                        Some(g) => g.eq(f),
                        None => false,
                    }
                },
                (None, Some(_)) => true,
                (None, None) => self.notes[i].folder_id.is_none(),
            };
            let tag_hit = match &tag_id {
                Some(t) => assoc_position(&self.note_tags, &self.notes[i].id, t).is_some(),
                None => true,
            };
            if folder_hit && tag_hit {
                picked.push(self.notes[i].cloned());
            }
            proof {
                lemma_take_succ(v, i as int);
                lemma_filter_push(v.take(i as int), v[i as int], p);
                if p(v[i as int]) {
                    assert(notes_view(picked@) =~= prev.push(v[i as int]));
                }
            }
        }
        proof {
            assert(v.take(self.notes@.len() as int) =~= v);
            v.lemma_filter_len(p);
        }
        let total = picked.len() as i64;
        // Order the filtered set, most recently updated first.
        let sorted = sort_notes_desc(picked);
        let ghost ord = notes_view(sorted@);
        proof {
            broadcast use group_to_multiset_ensures;

            assert(ord.to_multiset().len() == ord.len());
            assert(v.filter(p).to_multiset().len() == v.filter(p).len());
        }
        // Cut the requested page.
        let mut page: Vec<Note> = Vec::new();
        let mut i = offset;
        if offset > sorted.len() {
            i = sorted.len();
        }
        let ghost lo = i as int;
        while i < sorted.len() && page.len() < limit
            invariant
                ord == notes_view(sorted@),
                lo <= i <= sorted@.len(),
                lo == if offset as int <= ord.len() {
                    offset as int
                } else {
                    ord.len() as int
                },
                i - lo == page@.len(),
                page@.len() <= limit,
                notes_view(page@) == ord.subrange(lo, i as int),
            decreases sorted@.len() - i,
        {
            let ghost prev = notes_view(page@);
            page.push(sorted[i].cloned());
            i = i + 1;
            proof {
                assert(notes_view(page@) =~= prev.push(ord[i - 1]));
                assert(ord.subrange(lo, i as int) =~= ord.subrange(lo, i - 1).push(ord[i - 1]));
            }
        }
        proof {
            assert(notes_view(page@) =~= page_of(ord, offset as int, limit as int));
        }
        // Summarize the page.
        let mut notes: Vec<NoteSummary> = Vec::new();
        let ghost pv = notes_view(page@);
        for k in 0..page.len()
            invariant
                pv == notes_view(page@),
                notes@.map_values(|s: NoteSummary| s@) == summaries_of(pv.take(k as int)),
        {
            let ghost prev = notes@.map_values(|s: NoteSummary| s@);
            let excerpt = take_chars(&page[k].content, EXCERPT_CHARS);
            notes.push(
                NoteSummary {
                    id: page[k].id.clone(),
                    folder_id: clone_opt(&page[k].folder_id),
                    title: page[k].title.clone(),
                    excerpt,
                    updated_at: page[k].updated_at,
                },
            );
            proof {
                lemma_take_succ(pv, k as int);
                assert(notes@.map_values(|s: NoteSummary| s@) =~= prev.push(
                    summary_of(pv[k as int]),
                ));
                assert(summaries_of(pv.take(k + 1)) =~= summaries_of(pv.take(k as int)).push(
                    summary_of(pv[k as int]),
                ));
            }
        }
        proof {
            assert(pv.take(page@.len() as int) =~= pv);
            assert(notes@.map_values(|s: NoteSummary| s@) == summaries_of(
                page_of(ord, offset as int, limit as int),
            ));
        }
        ListNotesResponse { notes, total }
    }
}

} // verus!
