//! The backlink graph: direct edge mutation, traversal in both directions,
//! and re-derivation of a note's outgoing edges from its content.

use vstd::prelude::*;
use crate::errors::AppError;
use crate::models::{
    clone_opt,
    excerpt_of,
    opt_view,
    summary_of,
    Backlink,
    BacklinkV,
    LinkEdge,
    LinkEdgeV,
    NoteSummary,
    NoteSummaryV,
    NoteV,
};
use crate::scan::{scan_content, scan_links, LinkMatchV};
use crate::seqs::{lemma_filter_pairwise, lemma_filter_push, lemma_take_succ};
use crate::store::{
    has_link,
    has_note,
    lemma_lookup_note,
    links_view,
    lookup_note,
    note_position,
    wf,
    Store,
    StoreV,
};
use crate::text::take_chars;

verus! {

/// Keeps the edges other than the given ordered pair.
pub open spec fn link_not_pair(source_id: Seq<char>, target_id: Seq<char>) -> spec_fn(
    LinkEdgeV,
) -> bool {
    |l: LinkEdgeV| !(l.source_id == source_id && l.target_id == target_id)
}

/// Keeps the edges not sourced at `source_id`.
pub open spec fn link_not_from(source_id: Seq<char>) -> spec_fn(LinkEdgeV) -> bool {
    |l: LinkEdgeV| l.source_id != source_id
}

/// The position of the edge for an ordered pair, where one exists.
pub open spec fn link_pos(links: Seq<LinkEdgeV>, source_id: Seq<char>, target_id: Seq<char>) -> int {
    choose|i: int|
        0 <= i < links.len() && (#[trigger] links[i]).source_id == source_id && links[i].target_id
            == target_id
}

/// Upserting an edge: at most one edge per ordered pair, so an existing edge
/// has its context replaced in place and a new pair is appended.
pub open spec fn upsert_link(links: Seq<LinkEdgeV>, e: LinkEdgeV) -> Seq<LinkEdgeV> {
    if has_link(links, e.source_id, e.target_id) {
        links.update(link_pos(links, e.source_id, e.target_id), e)
    } else {
        links.push(e)
    }
}

/// The edges left after replaying a scan: each discovered reference upserts
/// an edge from `source` to its target — so on repeated targets the last
/// match wins — and a self-reference is skipped.
pub open spec fn apply_matches(
    links: Seq<LinkEdgeV>,
    source: Seq<char>,
    ms: Seq<LinkMatchV>,
) -> Seq<LinkEdgeV>
    decreases ms.len(),
{
    if ms.len() == 0 {
        links
    } else {
        let m = ms[0];
        let next = if m.target == source {
            links
        } else {
            upsert_link(
                links,
                LinkEdgeV { source_id: source, target_id: m.target, context: Some(m.context) },
            )
        };
        apply_matches(next, source, ms.drop_first())
    }
}

/// Selects the edges into `target` whose source note still exists; a
/// dangling edge is skipped, never reported.
pub open spec fn into_target(notes: Seq<NoteV>, target_id: Seq<char>) -> spec_fn(
    LinkEdgeV,
) -> bool {
    |l: LinkEdgeV| l.target_id == target_id && has_note(notes, l.source_id)
}

/// Selects the edges out of `source` whose target note still exists; a
/// dangling edge is skipped, never reported.
pub open spec fn out_of_source(notes: Seq<NoteV>, source_id: Seq<char>) -> spec_fn(
    LinkEdgeV,
) -> bool {
    |l: LinkEdgeV| l.source_id == source_id && has_note(notes, l.target_id)
}

/// The title of the note carrying `id`, where it exists.
pub open spec fn title_of(notes: Seq<NoteV>, id: Seq<char>) -> Seq<char> {
    match lookup_note(notes, id) {
        Some(n) => n.title,
        None => Seq::empty(),
    }
}

/// The reported form of an inbound edge: joined with the source note's live
/// title.
pub open spec fn backlink_join(notes: Seq<NoteV>) -> spec_fn(LinkEdgeV) -> BacklinkV {
    |l: LinkEdgeV|
        BacklinkV {
            source_id: l.source_id,
            source_title: title_of(notes, l.source_id),
            context: l.context,
        }
}

/// The summary of the note an edge points to, where it exists.
pub open spec fn target_summary(notes: Seq<NoteV>) -> spec_fn(LinkEdgeV) -> NoteSummaryV {
    |l: LinkEdgeV|
        match lookup_note(notes, l.target_id) {
            Some(n) => summary_of(n),
            None => NoteSummaryV {
                id: l.target_id,
                folder_id: None,
                title: Seq::empty(),
                excerpt: Seq::empty(),
                updated_at: 0,
            },
        }
}

/// Every inbound edge of `target_id` as reported: resolved sources only,
/// each joined with its live title.
pub open spec fn backlinks_of(
    links: Seq<LinkEdgeV>,
    notes: Seq<NoteV>,
    target_id: Seq<char>,
) -> Seq<BacklinkV> {
    links.filter(into_target(notes, target_id)).map_values(backlink_join(notes))
}

/// Every outgoing edge of `source_id` as reported: resolved targets only,
/// each as a summary of the live note.
pub open spec fn outgoing_of(
    links: Seq<LinkEdgeV>,
    notes: Seq<NoteV>,
    source_id: Seq<char>,
) -> Seq<NoteSummaryV> {
    links.filter(out_of_source(notes, source_id)).map_values(target_summary(notes))
}

/// Index of the edge for the ordered pair, if any.
pub fn link_position(links: &Vec<LinkEdge>, source_id: &String, target_id: &String) -> (r: Option<
    usize,
>)
    ensures
        match r {
            Some(i) => i < links.len() && links_view(links@)[i as int].source_id == source_id@
                && links_view(links@)[i as int].target_id == target_id@,
            None => !has_link(links_view(links@), source_id@, target_id@),
        },
{
    let ghost v = links_view(links@);
    for i in 0..links.len()
        invariant
            v == links_view(links@),
            forall|j: int|
                0 <= j < i ==> !((#[trigger] v[j]).source_id == source_id@ && v[j].target_id
                    == target_id@),
    {
        if links[i].source_id == *source_id && links[i].target_id == *target_id {
            return Some(i);
        }
    }
    None
}

/// All edges except the given ordered pair.
pub fn retain_links_without_pair(
    links: &Vec<LinkEdge>,
    source_id: &String,
    target_id: &String,
) -> (r: Vec<LinkEdge>)
    ensures
        links_view(r@) == links_view(links@).filter(link_not_pair(source_id@, target_id@)),
{
    let ghost v = links_view(links@);
    let ghost p = link_not_pair(source_id@, target_id@);
    let mut out: Vec<LinkEdge> = Vec::new();
    for i in 0..links.len()
        invariant
            v == links_view(links@),
            p == link_not_pair(source_id@, target_id@),
            links_view(out@) == v.take(i as int).filter(p),
    {
        let ghost prev = links_view(out@);
        if !(links[i].source_id == *source_id && links[i].target_id == *target_id) {
            out.push(links[i].cloned());
        }
        proof {
            lemma_take_succ(v, i as int);
            lemma_filter_push(v.take(i as int), v[i as int], p);
            if p(v[i as int]) {
                assert(links_view(out@) =~= prev.push(v[i as int]));
            }
        }
    }
    proof {
        assert(v.take(links@.len() as int) =~= v);
    }
    out
}

/// All edges not sourced at `source_id`.
pub fn retain_links_not_from(links: &Vec<LinkEdge>, source_id: &String) -> (r: Vec<LinkEdge>)
    ensures
        links_view(r@) == links_view(links@).filter(link_not_from(source_id@)),
{
    let ghost v = links_view(links@);
    let ghost p = link_not_from(source_id@);
    let mut out: Vec<LinkEdge> = Vec::new();
    for i in 0..links.len()
        invariant
            v == links_view(links@),
            p == link_not_from(source_id@),
            links_view(out@) == v.take(i as int).filter(p),
    {
        let ghost prev = links_view(out@);
        if !(links[i].source_id == *source_id) {
            out.push(links[i].cloned());
        }
        proof {
            lemma_take_succ(v, i as int);
            lemma_filter_push(v.take(i as int), v[i as int], p);
            if p(v[i as int]) {
                assert(links_view(out@) =~= prev.push(v[i as int]));
            }
        }
    }
    proof {
        assert(v.take(links@.len() as int) =~= v);
    }
    out
}

/// Dropping edges by any filter preserves the store invariant: edges carry
/// no referential obligations — a dangling edge is tolerated on read.
pub proof fn lemma_wf_filter_links(o: StoreV, p: spec_fn(LinkEdgeV) -> bool)
    requires
        wf(o),
    ensures
        wf(StoreV { links: o.links.filter(p), ..o }),
{
    let nl = o.links.filter(p);
    let r = |a: LinkEdgeV, b: LinkEdgeV| !(a.source_id == b.source_id && a.target_id
        == b.target_id);
    assert forall|a: int, b: int|
        0 <= a < o.links.len() && 0 <= b < o.links.len() && a != b implies #[trigger] r(
        o.links[a],
        o.links[b],
    ) by {
        if a < b {
            assert(!(o.links[a].source_id == o.links[b].source_id && o.links[a].target_id
                == o.links[b].target_id));
        } else {
            assert(!(o.links[b].source_id == o.links[a].source_id && o.links[b].target_id
                == o.links[a].target_id));
        }
    }
    lemma_filter_pairwise(o.links, p, r);
    assert forall|a: int, b: int|
        0 <= a < b < nl.len() implies !((#[trigger] nl[a]).source_id == (
    #[trigger] nl[b]).source_id && nl[a].target_id == nl[b].target_id) by {
        assert(r(nl[a], nl[b]));
    }
}

impl Store {
    /// Upserts the directed edge `source_id -> target_id`, replacing the
    /// context of an existing edge for the same ordered pair. Direct edge
    /// mutation: nothing is scanned and the endpoints are taken as given.
    pub fn add_link(
        &mut self,
        source_id: String,
        target_id: String,
        context: Option<String>,
    ) -> (r: Result<(), AppError>)
        requires
            wf(old(self)@),
        ensures
            wf(final(self)@),
            r is Ok,
            final(self)@ == (StoreV {
                links: upsert_link(
                    old(self)@.links,
                    LinkEdgeV {
                        source_id: source_id@,
                        target_id: target_id@,
                        context: opt_view(context),
                    },
                ),
                ..old(self)@
            }),
    {
        let ghost e = LinkEdgeV {
            source_id: source_id@,
            target_id: target_id@,
            context: opt_view(context),
        };
        let stored = LinkEdge { source_id, target_id, context };
        match link_position(&self.links, &stored.source_id, &stored.target_id) {
            Some(i) => {
                let ghost o = old(self)@;
                proof {
                    let c = link_pos(o.links, e.source_id, e.target_id);
                    assert(0 <= c < o.links.len() && o.links[c].source_id == e.source_id
                        && o.links[c].target_id == e.target_id);
                    if c != i {
                        assert(false);
                    }
                }
                self.links.set(i, stored);
                proof {
                    assert(self@.links =~= o.links.update(i as int, e));
                    assert(self@ =~= (StoreV { links: upsert_link(o.links, e), ..o }));
                    let t = self@.links;
                    assert forall|a: int, b: int|
                        0 <= a < b < t.len() implies !((#[trigger] t[a]).source_id == (
                    #[trigger] t[b]).source_id && t[a].target_id == t[b].target_id) by {
                        assert(t[a].source_id == o.links[a].source_id && t[a].target_id
                            == o.links[a].target_id);
                        assert(t[b].source_id == o.links[b].source_id && t[b].target_id
                            == o.links[b].target_id);
                    }
                }
            },
            None => {
                let ghost o = old(self)@;
                self.links.push(stored);
                proof {
                    assert(self@.links =~= o.links.push(e));
                    assert(self@ =~= (StoreV { links: upsert_link(o.links, e), ..o }));
                    let t = self@.links;
                    assert forall|a: int, b: int|
                        0 <= a < b < t.len() implies !((#[trigger] t[a]).source_id == (
                    #[trigger] t[b]).source_id && t[a].target_id == t[b].target_id) by {
                        if b < o.links.len() {
                            assert(t[a] == o.links[a] && t[b] == o.links[b]);
                        } else {
                            assert(t[a] == o.links[a] && t[b] == e);
                        }
                    }
                }
            },
        }
        Ok(())
    }

    /// Removes the edge for the ordered pair. Removing an absent edge is a
    /// no-op, not an error.
    pub fn remove_link(&mut self, source_id: String, target_id: String) -> (r: Result<
        (),
        AppError,
    >)
        requires
            wf(old(self)@),
        ensures
            wf(final(self)@),
            r is Ok,
            final(self)@ == (StoreV {
                links: old(self)@.links.filter(link_not_pair(source_id@, target_id@)),
                ..old(self)@
            }),
    {
        let new_links = retain_links_without_pair(&self.links, &source_id, &target_id);
        self.links = new_links;
        proof {
            let o = old(self)@;
            assert(self@ =~= (StoreV {
                links: o.links.filter(link_not_pair(source_id@, target_id@)),
                ..o
            }));
            lemma_wf_filter_links(o, link_not_pair(source_id@, target_id@));
        }
        Ok(())
    }

    /// Removes every edge sourced at `source_id`: the first half of a
    /// re-scan, which treats the scan as an authoritative replacement.
    pub fn clear_outgoing_links(&mut self, source_id: String) -> (r: Result<(), AppError>)
        requires
            wf(old(self)@),
        ensures
            wf(final(self)@),
            r is Ok,
            final(self)@ == (StoreV {
                links: old(self)@.links.filter(link_not_from(source_id@)),
                ..old(self)@
            }),
    {
        let new_links = retain_links_not_from(&self.links, &source_id);
        self.links = new_links;
        proof {
            let o = old(self)@;
            assert(self@ =~= (StoreV {
                links: o.links.filter(link_not_from(source_id@)),
                ..o
            }));
            lemma_wf_filter_links(o, link_not_from(source_id@));
        }
        Ok(())
    }

    /// Reports every note that points to `target_id`: each resolved inbound
    /// edge joined with the source note's live title. A dangling edge is
    /// skipped.
    pub fn get_backlinks(&self, target_id: String) -> (r: Vec<Backlink>)
        requires
            wf(self@),
        ensures
            r@.map_values(|b: Backlink| b@) == backlinks_of(
                self@.links,
                self@.notes,
                target_id@,
            ),
    {
        let ghost lv = self@.links;
        let ghost p = into_target(self@.notes, target_id@);
        let ghost j = backlink_join(self@.notes);
        let mut out: Vec<Backlink> = Vec::new();
        for i in 0..self.links.len()
            invariant
                lv == self@.links,
                wf(self@),
                p == into_target(self@.notes, target_id@),
                j == backlink_join(self@.notes),
                out@.map_values(|b: Backlink| b@) == lv.take(i as int).filter(p).map_values(j),
        {
            let ghost prev = out@.map_values(|b: Backlink| b@);
            if self.links[i].target_id.eq(&target_id) {
                match note_position(&self.notes, &self.links[i].source_id) {
                    Some(k) => {
                        let b = Backlink {
                            source_id: self.links[i].source_id.clone(),
                            source_title: self.notes[k].title.clone(),
                            context: clone_opt(&self.links[i].context),
                        };
                        proof {
                            lemma_lookup_note(self@.notes, lv[i as int].source_id);
                            assert(lookup_note(self@.notes, lv[i as int].source_id) == Some(
                                self@.notes[k as int],
                            ));
                            assert(b@ == j(lv[i as int]));
                        }
                        out.push(b);
                    },
                    None => {
                        proof {
                            assert(!p(lv[i as int]));
                        }
                    },
                }
            }
            proof {
                lemma_take_succ(lv, i as int);
                lemma_filter_push(lv.take(i as int), lv[i as int], p);
                if p(lv[i as int]) {
                    assert(out@.map_values(|b: Backlink| b@) =~= prev.push(j(lv[i as int])));
                    assert(lv.take(i + 1).filter(p).map_values(j) =~= lv.take(
                        i as int,
                    ).filter(p).map_values(j).push(j(lv[i as int])));
                } else {
                    assert(lv.take(i + 1).filter(p).map_values(j) =~= lv.take(
                        i as int,
                    ).filter(p).map_values(j));
                }
            }
        }
        proof {
            assert(lv.take(self.links@.len() as int) =~= lv);
        }
        out
    }

    /// Reports every note that `source_id` points to, as summaries. A
    /// dangling edge is skipped.
    pub fn get_outgoing_links(&self, source_id: String) -> (r: Vec<NoteSummary>)
        requires
            wf(self@),
        ensures
            r@.map_values(|s: NoteSummary| s@) == outgoing_of(
                self@.links,
                self@.notes,
                source_id@,
            ),
    {
        let ghost lv = self@.links;
        let ghost p = out_of_source(self@.notes, source_id@);
        let ghost j = target_summary(self@.notes);
        let mut out: Vec<NoteSummary> = Vec::new();
        for i in 0..self.links.len()
            invariant
                lv == self@.links,
                wf(self@),
                p == out_of_source(self@.notes, source_id@),
                j == target_summary(self@.notes),
                out@.map_values(|s: NoteSummary| s@) == lv.take(i as int).filter(p).map_values(
                    j,
                ),
        {
            let ghost prev = out@.map_values(|s: NoteSummary| s@);
            if self.links[i].source_id.eq(&source_id) {
                match note_position(&self.notes, &self.links[i].target_id) {
                    Some(k) => {
                        let excerpt = take_chars(&self.notes[k].content, crate::models::EXCERPT_CHARS);
                        let s = NoteSummary {
                            id: self.notes[k].id.clone(),
                            folder_id: clone_opt(&self.notes[k].folder_id),
                            title: self.notes[k].title.clone(),
                            excerpt,
                            updated_at: self.notes[k].updated_at,
                        };
                        proof {
                            lemma_lookup_note(self@.notes, lv[i as int].target_id);
                            assert(lookup_note(self@.notes, lv[i as int].target_id) == Some(
                                self@.notes[k as int],
                            ));
                            assert(s@.excerpt == excerpt_of(self@.notes[k as int].content));
                            assert(s@ == j(lv[i as int]));
                        }
                        out.push(s);
                    },
                    None => {
                        proof {
                            assert(!p(lv[i as int]));
                        }
                    },
                }
            }
            proof {
                lemma_take_succ(lv, i as int);
                lemma_filter_push(lv.take(i as int), lv[i as int], p);
                if p(lv[i as int]) {
                    assert(out@.map_values(|s: NoteSummary| s@) =~= prev.push(j(lv[i as int])));
                    assert(lv.take(i + 1).filter(p).map_values(j) =~= lv.take(
                        i as int,
                    ).filter(p).map_values(j).push(j(lv[i as int])));
                } else {
                    assert(lv.take(i + 1).filter(p).map_values(j) =~= lv.take(
                        i as int,
                    ).filter(p).map_values(j));
                }
            }
        }
        proof {
            assert(lv.take(self.links@.len() as int) =~= lv);
        }
        out
    }

    /// Re-derives every outgoing edge of `source_id` from `content`: all
    /// prior outgoing edges are deleted, then every non-overlapping
    /// reference found in the content upserts an edge with its context
    /// window — so of several references to one target the last wins — and
    /// a self-reference is skipped.
    pub fn sync_backlinks(&mut self, source_id: String, content: String) -> (r: Result<
        (),
        AppError,
    >)
        requires
            wf(old(self)@),
        ensures
            wf(final(self)@),
            r is Ok,
            final(self)@ == (StoreV {
                links: apply_matches(
                    old(self)@.links.filter(link_not_from(source_id@)),
                    source_id@,
                    scan_links(content@),
                ),
                ..old(self)@
            }),
    {
        let cleared = retain_links_not_from(&self.links, &source_id);
        self.links = cleared;
        proof {
            let o = old(self)@;
            assert(self@ =~= (StoreV {
                links: o.links.filter(link_not_from(source_id@)),
                ..o
            }));
            lemma_wf_filter_links(o, link_not_from(source_id@));
        }
        let matches = scan_content(&content);
        let ghost base = self@;
        let ghost ms = crate::scan::matches_view(matches@);
        proof {
            assert(ms.skip(0) =~= ms);
        }
        for i in 0..matches.len()
            invariant
                wf(self@),
                ms == crate::scan::matches_view(matches@),
                apply_matches(base.links, source_id@, ms) == apply_matches(
                    self@.links,
                    source_id@,
                    ms.skip(i as int),
                ),
                self@ == (StoreV { links: self@.links, ..base }),
        {
            let ghost before = self@;
            if !(matches[i].target == source_id) {
                let res = self.add_link(
                    source_id.clone(),
                    matches[i].target.clone(),
                    Some(matches[i].context.clone()),
                );
                proof {
                    assert(res is Ok);
                }
            }
            proof {
                assert(ms.skip(i as int)[0] == ms[i as int]);
                assert(ms.skip(i as int).drop_first() =~= ms.skip(i + 1));
                assert(apply_matches(before.links, source_id@, ms.skip(i as int))
                    == apply_matches(self@.links, source_id@, ms.skip(i + 1)));
                assert(self@ =~= (StoreV { links: self@.links, ..base }));
            }
        }
        proof {
            assert(ms.skip(matches@.len() as int) =~= Seq::<LinkMatchV>::empty());
            assert(self@.links == apply_matches(base.links, source_id@, ms));
            assert(self@ =~= (StoreV {
                links: apply_matches(
                    old(self)@.links.filter(link_not_from(source_id@)),
                    source_id@,
                    scan_links(content@),
                ),
                ..old(self)@
            }));
        }
        Ok(())
    }
}

} // verus!
