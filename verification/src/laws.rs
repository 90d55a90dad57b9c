//! Laws relating the operations: what holds across calls, proved once and
//! for all over the models the contracts speak of.

use vstd::prelude::*;
use crate::folders::{count_in_folder, detach_from, in_folder};
use crate::links::{apply_matches, backlinks_of, outgoing_of, upsert_link};
use crate::listing::list_filter;
use crate::models::IndexEntryV;
use crate::search::{is_hit, result_map, search_hits};
use crate::models::{LinkEdgeV, NoteTagV, NoteV};
use crate::notes::{assoc_survives, entries_of, link_avoids, not_note, updated_note};
use crate::scan::LinkMatchV;
use crate::store::{distinct_note_ids, has_assoc, has_link, has_note, StoreV};

verus! {

/// Creating a note and fetching it by identifier returns that very note:
/// after the creation appends a fresh row, the row carrying its identifier
/// is unique and is the created one, so a fetch — whose contract pins the
/// returned note to some row carrying the identifier — can return nothing
/// else.
pub proof fn lemma_create_then_get(notes: Seq<NoteV>, n: NoteV)
    requires
        distinct_note_ids(notes.push(n)),
    ensures
        has_note(notes.push(n), n.id),
        forall|m: NoteV|
            ((exists|i: int|
                0 <= i < notes.push(n).len() && #[trigger] notes.push(n)[i] == m) && m.id == n.id)
                ==> m == n,
{
    let t = notes.push(n);
    assert(t[notes.len() as int] == n);
    assert forall|m: NoteV|
        ((exists|i: int| 0 <= i < t.len() && #[trigger] t[i] == m) && m.id
            == n.id) implies m == n by {
        let i = choose|i: int| 0 <= i < t.len() && #[trigger] t[i] == m;
        if i < notes.len() {
            assert(t[i].id != t[notes.len() as int].id);
        }
    }
}

/// Partial update touches only what was supplied: updating the title alone
/// leaves content and folder unchanged; a folder change given as
/// present-with-none clears the folder, while an absent folder change
/// leaves the prior value.
pub proof fn lemma_partial_update(n: NoteV, now: int, t: Seq<char>)
    ensures
        updated_note(n, now, Some(t), None, None).title == t,
        updated_note(n, now, Some(t), None, None).content == n.content,
        updated_note(n, now, Some(t), None, None).folder_id == n.folder_id,
        updated_note(n, now, Some(t), None, None).created_at == n.created_at,
        updated_note(n, now, None, None, Some(None)).folder_id is None,
        updated_note(n, now, None, None, None).folder_id == n.folder_id,
{
}

/// Detaching a folder's notes clears exactly their folder reference and
/// nothing else of any note, and the detachment count is the number of
/// notes that were filed there.
pub proof fn lemma_detach_semantics(notes: Seq<NoteV>, fid: Seq<char>)
    ensures
        notes.map_values(detach_from(fid)).len() == notes.len(),
        forall|i: int|
            0 <= i < notes.len() ==> {
                let d = #[trigger] notes.map_values(detach_from(fid))[i];
                &&& d.id == notes[i].id
                &&& d.title == notes[i].title
                &&& d.content == notes[i].content
                &&& d.updated_at == notes[i].updated_at
                &&& d.folder_id == (if notes[i].folder_id == Some(fid) {
                    None
                } else {
                    notes[i].folder_id
                })
            },
        count_in_folder(notes.map_values(detach_from(fid)), fid) == 0,
{
    let m = detach_from(fid);
    let t = notes.map_values(m);
    assert forall|i: int| 0 <= i < t.len() implies !(in_folder(fid)(#[trigger] t[i])) by {
        assert(t[i] == m(notes[i]));
    }
    assert(t.all(|x: NoteV| !(in_folder(fid)(x))));
    t.lemma_all_neg_filter_empty(in_folder(fid));
}

/// Deleting a note purges it from the link graph: afterwards no reported
/// backlink names it as a source, its own backlink and outgoing views are
/// empty, no association names it, and no index entry shadows it.
pub proof fn lemma_delete_note_purges(o: StoreV, id: Seq<char>)
    requires
        crate::store::wf(o),
    ensures
        ({
            let notes2 = o.notes.filter(not_note(id));
            let links2 = o.links.filter(link_avoids(id));
            let assocs2 = o.note_tags.filter(assoc_survives(id));
            &&& !has_note(notes2, id)
            &&& backlinks_of(links2, notes2, id).len() == 0
            &&& outgoing_of(links2, notes2, id).len() == 0
            &&& forall|t: Seq<char>, k: int|
                0 <= k < backlinks_of(links2, notes2, t).len() ==> (#[trigger] backlinks_of(
                    links2,
                    notes2,
                    t,
                )[k]).source_id != id
            &&& forall|s: Seq<char>, k: int|
                0 <= k < outgoing_of(links2, notes2, s).len() ==> (#[trigger] outgoing_of(
                    links2,
                    notes2,
                    s,
                )[k]).id != id
            &&& forall|k: int| 0 <= k < assocs2.len() ==> (#[trigger] assocs2[k]).note_id != id
            &&& forall|k: int|
                0 <= k < entries_of(notes2).len() ==> (#[trigger] entries_of(notes2)[k]).note_id
                    != id
        }),
{
    let notes2 = o.notes.filter(not_note(id));
    let links2 = o.links.filter(link_avoids(id));
    let assocs2 = o.note_tags.filter(assoc_survives(id));
    assert(!has_note(notes2, id)) by {
        if has_note(notes2, id) {
            let i = choose|i: int| 0 <= i < notes2.len() && (#[trigger] notes2[i]).id == id;
            o.notes.lemma_filter_pred(not_note(id), i);
        }
    }
    assert forall|k: int| 0 <= k < links2.len() implies (#[trigger] links2[k]).source_id != id
        && links2[k].target_id != id by {
        o.links.lemma_filter_pred(link_avoids(id), k);
    }
    assert forall|k: int| 0 <= k < assocs2.len() implies (#[trigger] assocs2[k]).note_id
        != id by {
        o.note_tags.lemma_filter_pred(assoc_survives(id), k);
    }
    assert(backlinks_of(links2, notes2, id).len() == 0) by {
        let p = crate::links::into_target(notes2, id);
        assert forall|k: int| 0 <= k < links2.len() implies !(p(#[trigger] links2[k])) by {}
        assert(links2.all(|x: LinkEdgeV| !(p(x))));
        links2.lemma_all_neg_filter_empty(p);
    }
    assert(outgoing_of(links2, notes2, id).len() == 0) by {
        let p = crate::links::out_of_source(notes2, id);
        assert forall|k: int| 0 <= k < links2.len() implies !(p(#[trigger] links2[k])) by {}
        assert(links2.all(|x: LinkEdgeV| !(p(x))));
        links2.lemma_all_neg_filter_empty(p);
    }
    assert forall|t: Seq<char>, k: int|
        0 <= k < backlinks_of(links2, notes2, t).len() implies (#[trigger] backlinks_of(
        links2,
        notes2,
        t,
    )[k]).source_id != id by {
        let p = crate::links::into_target(notes2, t);
        let kept = links2.filter(p);
        assert(backlinks_of(links2, notes2, t)[k] == crate::links::backlink_join(notes2)(
            kept[k],
        ));
        assert(kept.contains(kept[k]));
        links2.lemma_filter_contains_rev(p, kept[k]);
        let m = choose|m: int| 0 <= m < links2.len() && links2[m] == kept[k];
        assert(links2[m].source_id != id);
    }
    assert forall|s: Seq<char>, k: int|
        0 <= k < outgoing_of(links2, notes2, s).len() implies (#[trigger] outgoing_of(
        links2,
        notes2,
        s,
    )[k]).id != id by {
        let p = crate::links::out_of_source(notes2, s);
        let kept = links2.filter(p);
        assert(outgoing_of(links2, notes2, s)[k] == crate::links::target_summary(notes2)(
            kept[k],
        ));
        links2.lemma_filter_pred(p, k);
        assert(has_note(notes2, kept[k].target_id));
        crate::store::lemma_lookup_note(notes2, kept[k].target_id);
        let found = crate::store::lookup_note(notes2, kept[k].target_id)->Some_0;
        assert(found.id == kept[k].target_id);
        assert(kept.contains(kept[k]));
        links2.lemma_filter_contains_rev(p, kept[k]);
        let m = choose|m: int| 0 <= m < links2.len() && links2[m] == kept[k];
        assert(links2[m].target_id != id);
    }
    assert forall|k: int| 0 <= k < entries_of(notes2).len() implies (
    #[trigger] entries_of(notes2)[k]).note_id != id by {
        assert(entries_of(notes2)[k] == crate::models::entry_of(notes2[k]));
        o.notes.lemma_filter_pred(not_note(id), k);
    }
}

/// Upserting an edge adds exactly its ordered pair to the pairs present:
/// afterwards a pair is present exactly when it was before or is the
/// upserted one.
pub proof fn lemma_upsert_has_link(links: Seq<LinkEdgeV>, e: LinkEdgeV)
    ensures
        forall|s: Seq<char>, t: Seq<char>|
            #[trigger] has_link(upsert_link(links, e), s, t) <==> (has_link(links, s, t) || (s
                == e.source_id && t == e.target_id)),
{
    let after = upsert_link(links, e);
    assert forall|s: Seq<char>, t: Seq<char>| #[trigger]
        has_link(after, s, t) <==> (has_link(links, s, t) || (s == e.source_id && t
            == e.target_id)) by {
        if has_link(links, e.source_id, e.target_id) {
            let pos = crate::links::link_pos(links, e.source_id, e.target_id);
            assert(0 <= pos < links.len() && links[pos].source_id == e.source_id
                && links[pos].target_id == e.target_id);
            assert(after == links.update(pos, e));
            if has_link(links, s, t) {
                let i = choose|i: int|
                    0 <= i < links.len() && (#[trigger] links[i]).source_id == s
                        && links[i].target_id == t;
                if i == pos {
                    assert(after[pos] == e);
                } else {
                    assert(after[i] == links[i]);
                }
            }
            if s == e.source_id && t == e.target_id {
                assert(after[pos] == e);
            }
            if has_link(after, s, t) {
                let i = choose|i: int|
                    0 <= i < after.len() && (#[trigger] after[i]).source_id == s
                        && after[i].target_id == t;
                if i == pos {
                    assert(links[pos].source_id == s && links[pos].target_id == t);
                } else {
                    assert(links[i] == after[i]);
                }
            }
        } else {
            assert(after == links.push(e));
            if has_link(links, s, t) {
                let i = choose|i: int|
                    0 <= i < links.len() && (#[trigger] links[i]).source_id == s
                        && links[i].target_id == t;
                assert(after[i] == links[i]);
            }
            if s == e.source_id && t == e.target_id {
                assert(after[links.len() as int] == e);
            }
            if has_link(after, s, t) {
                let i = choose|i: int|
                    0 <= i < after.len() && (#[trigger] after[i]).source_id == s
                        && after[i].target_id == t;
                if i < links.len() {
                    assert(links[i] == after[i]);
                } else {
                    assert(after[i] == e);
                }
            }
        }
    }
}

/// Replaying a scan over cleared outgoing edges yields, for the source,
/// exactly the scanned non-self targets — a self-reference is never added —
/// and touches no edge of any other source.
pub proof fn lemma_sync_exact(
    cleared: Seq<LinkEdgeV>,
    src: Seq<char>,
    ms: Seq<LinkMatchV>,
)
    requires
        forall|k: int| 0 <= k < cleared.len() ==> (#[trigger] cleared[k]).source_id != src,
    ensures
        forall|t: Seq<char>|
            #[trigger] has_link(apply_matches(cleared, src, ms), src, t) <==> (t != src && exists|
                k: int,
            | 0 <= k < ms.len() && (#[trigger] ms[k]).target == t),
        forall|s: Seq<char>, t: Seq<char>|
            s != src ==> (#[trigger] has_link(apply_matches(cleared, src, ms), s, t) <==> has_link(
                cleared,
                s,
                t,
            )),
{
    lemma_sync_general(cleared, src, ms);
    assert forall|t: Seq<char>| !(#[trigger] has_link(cleared, src, t)) by {
        if has_link(cleared, src, t) {
            let i = choose|i: int|
                0 <= i < cleared.len() && (#[trigger] cleared[i]).source_id == src
                    && cleared[i].target_id == t;
        }
    }
    assert forall|t: Seq<char>|
        #[trigger] has_link(apply_matches(cleared, src, ms), src, t) <==> (t != src && exists|
            k: int,
        | 0 <= k < ms.len() && (#[trigger] ms[k]).target == t) by {
        if t != src && exists|k: int| 0 <= k < ms.len() && (#[trigger] ms[k]).target == t {
            let k = choose|k: int| 0 <= k < ms.len() && (#[trigger] ms[k]).target == t;
            assert(0 <= k < ms.len() && ms[k].target == t && t != src);
        }
    }
}

/// Replaying any scan over an edge set whose only `src` edges are non-self
/// yields, for `src`, its prior non-self targets or the scanned ones, and
/// touches no other source. Stated in the general form the induction needs.
proof fn lemma_sync_general(links: Seq<LinkEdgeV>, src: Seq<char>, ms: Seq<LinkMatchV>)
    requires
        forall|k: int|
            0 <= k < links.len() ==> ((#[trigger] links[k]).source_id != src
                || links[k].target_id != src),
    ensures
        forall|t: Seq<char>|
            #[trigger] has_link(apply_matches(links, src, ms), src, t) <==> ((has_link(
                links,
                src,
                t,
            ) || exists|k: int| 0 <= k < ms.len() && (#[trigger] ms[k]).target == t && t != src)
                && t != src),
        forall|s: Seq<char>, t: Seq<char>|
            s != src ==> (#[trigger] has_link(apply_matches(links, src, ms), s, t) <==> has_link(
                links,
                s,
                t,
            )),
    decreases ms.len(),
{
    assert forall|t: Seq<char>| has_link(links, src, t) implies t != src by {
        if has_link(links, src, t) {
            let i = choose|i: int|
                0 <= i < links.len() && (#[trigger] links[i]).source_id == src
                    && links[i].target_id == t;
        }
    }
    if ms.len() > 0 {
        let m = ms[0];
        let rest = ms.drop_first();
        if m.target == src {
            assert(apply_matches(links, src, ms) == apply_matches(links, src, rest));
            lemma_sync_general(links, src, rest);
            assert forall|t: Seq<char>|
                #[trigger] has_link(apply_matches(links, src, ms), src, t) <==> ((has_link(
                    links,
                    src,
                    t,
                ) || exists|k: int|
                    0 <= k < ms.len() && (#[trigger] ms[k]).target == t && t != src) && t
                    != src) by {
                if exists|k: int| 0 <= k < ms.len() && (#[trigger] ms[k]).target == t && t
                    != src {
                    let k = choose|k: int|
                        0 <= k < ms.len() && (#[trigger] ms[k]).target == t && t != src;
                    assert(k != 0);
                    assert(rest[k - 1] == ms[k]);
                }
                if exists|k: int| 0 <= k < rest.len() && (#[trigger] rest[k]).target == t && t
                    != src {
                    let k = choose|k: int|
                        0 <= k < rest.len() && (#[trigger] rest[k]).target == t && t != src;
                    assert(ms[k + 1] == rest[k]);
                }
            }
        } else {
            let e = LinkEdgeV { source_id: src, target_id: m.target, context: Some(m.context) };
            let next = upsert_link(links, e);
            assert(apply_matches(links, src, ms) == apply_matches(next, src, rest));
            lemma_upsert_has_link(links, e);
            assert forall|k: int| 0 <= k < next.len() implies ((#[trigger] next[k]).source_id
                != src || next[k].target_id != src) by {
                if has_link(links, e.source_id, e.target_id) {
                    let pos = crate::links::link_pos(links, e.source_id, e.target_id);
                    if k != pos {
                        assert(next[k] == links[k]);
                    }
                } else {
                    if k < links.len() {
                        assert(next[k] == links[k]);
                    } else {
                        assert(next[k] == e);
                    }
                }
            }
            lemma_sync_general(next, src, rest);
            assert forall|t: Seq<char>|
                #[trigger] has_link(apply_matches(links, src, ms), src, t) <==> ((has_link(
                    links,
                    src,
                    t,
                ) || exists|k: int|
                    0 <= k < ms.len() && (#[trigger] ms[k]).target == t && t != src) && t
                    != src) by {
                if has_link(apply_matches(next, src, rest), src, t) {
                    if has_link(next, src, t) && !(exists|k: int|
                        0 <= k < rest.len() && (#[trigger] rest[k]).target == t && t != src) {
                        if !has_link(links, src, t) {
                            assert(t == e.target_id);
                            assert(ms[0].target == t);
                        }
                    } else if exists|k: int|
                        0 <= k < rest.len() && (#[trigger] rest[k]).target == t && t != src {
                        let k = choose|k: int|
                            0 <= k < rest.len() && (#[trigger] rest[k]).target == t && t != src;
                        assert(ms[k + 1] == rest[k]);
                    }
                }
                if (has_link(links, src, t) || exists|k: int|
                    0 <= k < ms.len() && (#[trigger] ms[k]).target == t && t != src) && t != src {
                    if has_link(links, src, t) {
                        assert(has_link(next, src, t));
                    } else {
                        let k = choose|k: int|
                            0 <= k < ms.len() && (#[trigger] ms[k]).target == t && t != src;
                        if k == 0 {
                            assert(has_link(next, src, t));
                        } else {
                            assert(rest[k - 1] == ms[k]);
                        }
                    }
                }
            }
        }
    }
}

/// Re-adding an existing association is a no-op: once the pair is present,
/// appending is skipped — and the pair is present right after a first add.
pub proof fn lemma_assoc_idempotent(assocs: Seq<NoteTagV>, note_id: Seq<char>, tag_id: Seq<char>)
    ensures
        has_assoc(
            assocs.push(NoteTagV { note_id, tag_id }),
            note_id,
            tag_id,
        ),
{
    let t = assocs.push(NoteTagV { note_id, tag_id });
    assert(t[assocs.len() as int] == (NoteTagV { note_id, tag_id }));
}

/// The listing filter, case by case: no filters selects exactly the notes
/// with no folder; a tag filter alone selects exactly the notes bearing the
/// tag, in any folder; both filters together apply both constraints; a
/// folder filter alone selects exactly that folder's notes.
pub proof fn lemma_list_filter_cases(
    assocs: Seq<NoteTagV>,
    n: NoteV,
    f: Seq<char>,
    t: Seq<char>,
)
    ensures
        list_filter(None, None, assocs)(n) <==> n.folder_id is None,
        list_filter(None, Some(t), assocs)(n) <==> has_assoc(assocs, n.id, t),
        list_filter(Some(f), Some(t), assocs)(n) <==> (n.folder_id == Some(f) && has_assoc(
            assocs,
            n.id,
            t,
        )),
        list_filter(Some(f), None, assocs)(n) <==> n.folder_id == Some(f),
{
}

/// Search reports the hits and nothing else: the results are, in index
/// order, the reported forms of exactly the entries in which every term
/// occurs — an entry carrying no term is never reported — and every hit
/// entry is reported.
pub proof fn lemma_search_hits_exact(index: Seq<IndexEntryV>, ts: Seq<Seq<char>>)
    ensures
        search_hits(index, ts).len() == index.filter(crate::search::hit_pred(ts)).len(),
        forall|k: int|
            0 <= k < search_hits(index, ts).len() ==> (#[trigger] search_hits(index, ts)[k])
                == result_map(ts)(index.filter(crate::search::hit_pred(ts))[k]),
        forall|k: int|
            0 <= k < search_hits(index, ts).len() ==> is_hit(
                #[trigger] index.filter(crate::search::hit_pred(ts))[k],
                ts,
            ) && index.contains(index.filter(crate::search::hit_pred(ts))[k]),
        forall|i: int|
            0 <= i < index.len() && is_hit(#[trigger] index[i], ts) ==> search_hits(
                index,
                ts,
            ).contains(result_map(ts)(index[i])),
{
    let p = crate::search::hit_pred(ts);
    let kept = index.filter(p);
    assert forall|k: int|
        0 <= k < search_hits(index, ts).len() implies is_hit(#[trigger] kept[k], ts)
        && index.contains(kept[k]) by {
        index.lemma_filter_pred(p, k);
        assert(kept.contains(kept[k]));
        index.lemma_filter_contains_rev(p, kept[k]);
    }
    assert forall|i: int|
        0 <= i < index.len() && is_hit(#[trigger] index[i], ts) implies search_hits(
        index,
        ts,
    ).contains(result_map(ts)(index[i])) by {
        assert(p(index[i]));
        index.lemma_filter_contains(p, i);
        let j = choose|j: int| 0 <= j < kept.len() && kept[j] == index[i];
        assert(search_hits(index, ts)[j] == result_map(ts)(index[i]));
    }
}

} // verus!
