//! Ranked full-text search over the index, with marked snippets.
//!
//! A query is a sequence of terms: maximal runs of ASCII letters and digits;
//! everything else separates terms, and matching is case-insensitive over
//! ASCII. A note is a hit when every term occurs in its title or its
//! content. Hits are ranked by a relevance score — terms found in the title
//! weigh double — negated so that a smaller rank is more relevant, as in
//! engine-native scoring. The snippet marks the first matched term in the
//! content with a delimiter pair and an ellipsis for each truncated edge.

use vstd::prelude::*;
use vstd::multiset::Multiset;
use vstd::seq_lib::group_to_multiset_ensures;
use crate::errors::AppError;
use crate::models::{IndexEntryV, SearchResult, SearchResultV};
use crate::seqs::{lemma_filter_push, lemma_take_succ};
use crate::store::{wf, Store};
use crate::text::{append_str, chars_of, string_from_range};

verus! {

/// Characters of content shown when no term occurs in the content (the
/// match was in the title alone).
pub const LEAD_CHARS: usize = 64;

/// Characters of context kept on each side of the marked term.
pub const SIDE_CHARS: usize = 20;

/// A term character: an ASCII letter or digit.
pub open spec fn is_word_char(c: char) -> bool {
    ||| ('0' as u32) <= (c as u32) <= ('9' as u32)
    ||| ('a' as u32) <= (c as u32) <= ('z' as u32)
    ||| ('A' as u32) <= (c as u32) <= ('Z' as u32)
}

/// Case-insensitive character equality, folding ASCII letters only.
pub open spec fn ci_eq(a: char, b: char) -> bool {
    fold_u32(a as u32) == fold_u32(b as u32)
}

/// ASCII case folding on a code point.
pub open spec fn fold_u32(u: u32) -> u32 {
    if ('A' as u32) <= u <= ('Z' as u32) {
        (u + 32) as u32
    } else {
        u
    }
}

/// A term starts at `i`: a word character not preceded by one.
pub open spec fn token_start(q: Seq<char>, i: int) -> bool {
    &&& 0 <= i < q.len()
    &&& is_word_char(q[i])
    &&& (i == 0 || !is_word_char(q[i - 1]))
}

/// The end of the run of word characters beginning at `i`.
pub open spec fn run_end(q: Seq<char>, i: int) -> int
    decreases q.len() - i,
{
    if 0 <= i < q.len() && is_word_char(q[i]) {
        run_end(q, i + 1)
    } else {
        i
    }
}

/// The terms starting at or after position `i`, in order.
pub open spec fn tokenize_from(q: Seq<char>, i: int) -> Seq<Seq<char>>
    decreases q.len() - i,
{
    if i < 0 || i >= q.len() {
        Seq::empty()
    } else if token_start(q, i) {
        seq![q.subrange(i, run_end(q, i))] + tokenize_from(q, i + 1)
    } else {
        seq![] + tokenize_from(q, i + 1)
    }
}

/// The terms of a query, in order.
pub open spec fn tokenize(q: Seq<char>) -> Seq<Seq<char>> {
    tokenize_from(q, 0)
}

/// The term `n` occurs at position `i` of `h`, case-insensitively.
pub open spec fn occurs_at(h: Seq<char>, n: Seq<char>, i: int) -> bool {
    &&& 0 <= i
    &&& i + n.len() <= h.len()
    &&& forall|k: int| 0 <= k < n.len() ==> ci_eq(h[i + k], #[trigger] n[k])
}

/// The term `n` occurs somewhere in `h`.
pub open spec fn occurs(h: Seq<char>, n: Seq<char>) -> bool {
    exists|i: int| #[trigger] occurs_at(h, n, i)
}

/// Selects the terms occurring in `text`.
pub open spec fn occurring_in(text: Seq<char>) -> spec_fn(Seq<char>) -> bool {
    |t: Seq<char>| occurs(text, t)
}

/// A note is a hit when every term occurs in its title or its content.
pub open spec fn is_hit(e: IndexEntryV, ts: Seq<Seq<char>>) -> bool {
    forall|k: int| 0 <= k < ts.len() ==> occurs(e.title, #[trigger] ts[k]) || occurs(
        e.content,
        ts[k],
    )
}

/// Selects the index entries that are hits.
pub open spec fn hit_pred(ts: Seq<Seq<char>>) -> spec_fn(IndexEntryV) -> bool {
    |e: IndexEntryV| is_hit(e, ts)
}

/// Clamps a score to the signed range of a rank.
pub open spec fn clamp_score(x: int) -> int {
    if x > 0x7fff_ffff_ffff_ffff {
        0x7fff_ffff_ffff_ffff
    } else {
        x
    }
}

/// The rank of a hit: the negated relevance score, so that a smaller rank
/// is more relevant. A term found in the title scores two, one found only
/// in the content scores one.
pub open spec fn rank_of(e: IndexEntryV, ts: Seq<Seq<char>>) -> int {
    -clamp_score(
        2 * (ts.filter(occurring_in(e.title)).len() as int) + (ts.filter(
            occurring_in(e.content),
        ).len() as int),
    )
}

/// The first term of `ts` occurring at position `i` of `c`, by index.
pub open spec fn token_at_pos(c: Seq<char>, ts: Seq<Seq<char>>, i: int) -> Option<int>
    decreases ts.len(),
{
    if ts.len() == 0 {
        None
    } else if occurs_at(c, ts[0], i) {
        Some(0int)
    } else {
        match token_at_pos(c, ts.drop_first(), i) {
            Some(j) => Some(j + 1),
            None => None,
        }
    }
}

/// The first position of `c` where some term occurs, with that term's
/// length.
pub open spec fn first_hit_from(c: Seq<char>, ts: Seq<Seq<char>>, i: int) -> Option<(int, int)>
    decreases c.len() - i,
{
    if i < 0 || i >= c.len() {
        None
    } else {
        match token_at_pos(c, ts, i) {
            Some(j) => Some((i, ts[j].len() as int)),
            None => first_hit_from(c, ts, i + 1),
        }
    }
}

/// The snippet for a hit: a bounded window of the content around the first
/// matched term, the term wrapped in the marker pair, an ellipsis for each
/// truncated edge; or, when no term occurs in the content, the leading
/// characters of the content.
pub open spec fn snippet_of(c: Seq<char>, ts: Seq<Seq<char>>) -> Seq<char> {
    match first_hit_from(c, ts, 0) {
        None => if c.len() <= LEAD_CHARS {
            c
        } else {
            c.subrange(0, LEAD_CHARS as int) + "..."@
        },
        Some((pos, tlen)) => {
            let start = if pos >= SIDE_CHARS {
                pos - SIDE_CHARS
            } else {
                0
            };
            let stop = if pos + tlen + SIDE_CHARS <= c.len() {
                pos + tlen + SIDE_CHARS
            } else {
                c.len() as int
            };
            (if start > 0 {
                "..."@
            } else {
                Seq::empty()
            }) + c.subrange(start, pos) + "=="@ + c.subrange(pos, pos + tlen) + "=="@ + c.subrange(
                pos + tlen,
                stop,
            ) + (if stop < c.len() {
                "..."@
            } else {
                Seq::empty()
            })
        },
    }
}

/// The reported form of a hit.
pub open spec fn result_map(ts: Seq<Seq<char>>) -> spec_fn(IndexEntryV) -> SearchResultV {
    |e: IndexEntryV|
        SearchResultV {
            id: e.note_id,
            title: e.title,
            snippet: snippet_of(e.content, ts),
            rank: rank_of(e, ts),
        }
}

/// Every hit for the terms, in index order, as reported.
pub open spec fn search_hits(index: Seq<IndexEntryV>, ts: Seq<Seq<char>>) -> Seq<SearchResultV> {
    index.filter(hit_pred(ts)).map_values(result_map(ts))
}

/// Most relevant first: ranks ascending.
pub open spec fn sorted_by_rank(s: Seq<SearchResultV>) -> bool {
    forall|i: int, j: int| 0 <= i <= j < s.len() ==> (#[trigger] s[i]).rank <= (#[trigger] s[j]).rank
}

/// The models of a sequence of term vectors.
pub open spec fn tokens_view(v: Seq<Vec<char>>) -> Seq<Seq<char>> {
    v.map_values(|t: Vec<char>| t@)
}

/// The models of a sequence of results.
pub open spec fn results_view(v: Seq<SearchResult>) -> Seq<SearchResultV> {
    v.map_values(|x: SearchResult| x@)
}

// ---------------------------------------------------------------------------
// Executable pieces
// ---------------------------------------------------------------------------

/// Decides `is_word_char`.
fn word_char_check(c: char) -> (r: bool)
    ensures
        r == is_word_char(c),
{
    let u = c as u32;
    (48 <= u && u <= 57) || (97 <= u && u <= 122) || (65 <= u && u <= 90)
}

/// Decides `ci_eq`.
fn ci_eq_check(a: char, b: char) -> (r: bool)
    ensures
        r == ci_eq(a, b),
{
    let mut ua = a as u32;
    let mut ub = b as u32;
    if 65 <= ua && ua <= 90 {
        ua = ua + 32;
    }
    if 65 <= ub && ub <= 90 {
        ub = ub + 32;
    }
    ua == ub
}

/// A copy of the characters in `cs[from..to]`.
fn subrange_chars(cs: &Vec<char>, from: usize, to: usize) -> (r: Vec<char>)
    requires
        from <= to <= cs@.len(),
    ensures
        r@ == cs@.subrange(from as int, to as int),
{
    let mut out: Vec<char> = Vec::new();
    let mut i = from;
    while i < to
        invariant
            from <= i <= to <= cs@.len(),
            out@ == cs@.subrange(from as int, i as int),
        decreases to - i,
    {
        out.push(cs[i]);
        i = i + 1;
        proof {
            assert(cs@.subrange(from as int, i as int) =~= cs@.subrange(from as int, i - 1).push(
                cs@[i - 1],
            ));
        }
    }
    out
}

/// Splits a query into its terms.
pub fn tokenize_query(query: &String) -> (r: Vec<Vec<char>>)
    ensures
        tokens_view(r@) == tokenize(query@),
{
    let cs = chars_of(query.as_str());
    let ghost q = query@;
    let mut out: Vec<Vec<char>> = Vec::new();
    let n = cs.len();
    let mut i: usize = 0;
    while i < n
        invariant
            cs@ == q,
            n == q.len(),
            i <= n,
            tokenize(q) == tokens_view(out@) + tokenize_from(q, i as int),
        decreases n - i,
    {
        let ghost prev = tokens_view(out@);
        let starts = word_char_check(cs[i]) && (i == 0 || !word_char_check(cs[i - 1]));
        if starts {
            let mut j = i;
            while j < n && word_char_check(cs[j])
                invariant
                    cs@ == q,
                    n == q.len(),
                    i <= j <= n,
                    run_end(q, i as int) == run_end(q, j as int),
                decreases n - j,
            {
                j = j + 1;
            }
            proof {
                assert(run_end(q, j as int) == j as int);
            }
            let tok = subrange_chars(&cs, i, j);
            out.push(tok);
            proof {
                assert(tokens_view(out@) =~= prev.push(q.subrange(i as int, run_end(q, i as int))));
                assert(tokenize_from(q, i as int) =~= seq![
                    q.subrange(i as int, run_end(q, i as int)),
                ] + tokenize_from(q, i + 1));
                assert(tokens_view(out@) + tokenize_from(q, i + 1) =~= prev + tokenize_from(
                    q,
                    i as int,
                ));
            }
        } else {
            proof {
                assert(!token_start(q, i as int));
                assert(tokenize_from(q, i as int) =~= tokenize_from(q, i + 1));
            }
        }
        i = i + 1;
    }
    proof {
        assert(tokenize_from(q, i as int) =~= Seq::<Seq<char>>::empty());
        assert(tokens_view(out@) =~= tokens_view(out@) + tokenize_from(q, i as int));
    }
    out
}

/// Decides `occurs_at`.
fn occurs_at_check(h: &Vec<char>, n: &Vec<char>, i: usize) -> (r: bool)
    requires
        i + n@.len() <= h@.len(),
    ensures
        r == occurs_at(h@, n@, i as int),
{
    let hn = h.len();
    for k in 0..n.len()
        invariant
            hn == h@.len(),
            i + n@.len() <= h@.len(),
            forall|m: int| 0 <= m < k ==> ci_eq(h@[i + m], #[trigger] n@[m]),
    {
        if !ci_eq_check(h[i + k], n[k]) {
            return false;
        }
    }
    true
}

/// Decides `occurs`.
fn occurs_check(h: &Vec<char>, n: &Vec<char>) -> (r: bool)
    ensures
        r == occurs(h@, n@),
{
    if n.len() == 0 {
        proof {
            assert(occurs_at(h@, n@, 0));
        }
        return true;
    }
    if n.len() > h.len() {
        proof {
            assert forall|i: int| !occurs_at(h@, n@, i) by {}
        }
        return false;
    }
    let last = h.len() - n.len();
    let mut i: usize = 0;
    while i <= last
        invariant
            1 <= n@.len() <= h@.len(),
            h@.len() <= usize::MAX,
            last == h@.len() - n@.len(),
            i <= last + 1,
            forall|m: int| 0 <= m < i ==> !occurs_at(h@, n@, m),
        decreases last + 1 - i,
    {
        if occurs_at_check(h, n, i) {
            return true;
        }
        i = i + 1;
    }
    proof {
        assert forall|m: int| !occurs_at(h@, n@, m) by {
            if 0 <= m <= last {
                assert(!occurs_at(h@, n@, m));
            }
        }
    }
    false
}

/// `token_at_pos` agrees with a left-to-right scan over the terms.
proof fn lemma_token_at_pos(c: Seq<char>, ts: Seq<Seq<char>>, i: int)
    ensures
        (forall|j: int| 0 <= j < ts.len() ==> !occurs_at(c, #[trigger] ts[j], i)) ==> token_at_pos(
            c,
            ts,
            i,
        ) is None,
        forall|j: int|
            (0 <= j < ts.len() && occurs_at(c, #[trigger] ts[j], i) && (forall|m: int|
                0 <= m < j ==> !occurs_at(c, #[trigger] ts[m], i))) ==> token_at_pos(c, ts, i)
                == Some(j),
    decreases ts.len(),
{
    if ts.len() > 0 {
        let rest = ts.drop_first();
        lemma_token_at_pos(c, rest, i);
        assert forall|j: int|
            (0 <= j < ts.len() && occurs_at(c, #[trigger] ts[j], i) && (forall|m: int|
                0 <= m < j ==> !occurs_at(c, #[trigger] ts[m], i))) implies token_at_pos(c, ts, i)
            == Some(j) by {
            if j == 0 {
            } else {
                assert(!occurs_at(c, ts[0], i));
                assert(rest[j - 1] == ts[j]);
                assert forall|m: int| 0 <= m < j - 1 implies !occurs_at(
                    c,
                    #[trigger] rest[m],
                    i,
                ) by {
                    assert(rest[m] == ts[m + 1]);
                }
                assert(token_at_pos(c, rest, i) == Some(j - 1));
            }
        }
        if forall|j: int| 0 <= j < ts.len() ==> !occurs_at(c, #[trigger] ts[j], i) {
            assert forall|j: int| 0 <= j < rest.len() implies !occurs_at(
                c,
                #[trigger] rest[j],
                i,
            ) by {
                assert(rest[j] == ts[j + 1]);
            }
        }
    }
}

/// The first term occurring at a given position, by index.
fn token_match_at(cs: &Vec<char>, tokens: &Vec<Vec<char>>, pos: usize) -> (r: Option<usize>)
    requires
        pos < cs@.len(),
    ensures
        match r {
            Some(j) => j < tokens@.len() && token_at_pos(
                cs@,
                tokens_view(tokens@),
                pos as int,
            ) == Some(j as int) && pos + tokens@[j as int]@.len() <= cs@.len(),
            None => token_at_pos(cs@, tokens_view(tokens@), pos as int) is None,
        },
{
    let ghost c = cs@;
    let ghost ts = tokens_view(tokens@);
    let n = cs.len();
    for j in 0..tokens.len()
        invariant
            c == cs@,
            ts == tokens_view(tokens@),
            n == c.len(),
            pos < n,
            forall|m: int| 0 <= m < j ==> !occurs_at(c, #[trigger] ts[m], pos as int),
    {
        if tokens[j].len() <= n - pos {
            if occurs_at_check(cs, &tokens[j], pos) {
                proof {
                    assert(ts[j as int] == tokens@[j as int]@);
                    assert(occurs_at(c, ts[j as int], pos as int));
                    lemma_token_at_pos(c, ts, pos as int);
                    assert(token_at_pos(c, ts, pos as int) == Some(j as int));
                }
                return Some(j);
            }
        } else {
            proof {
                assert(!occurs_at(c, ts[j as int], pos as int));
            }
        }
    }
    proof {
        lemma_token_at_pos(c, ts, pos as int);
    }
    None
}

/// Builds the snippet for a content, marking the first matched term.
fn build_snippet(content: &String, tokens: &Vec<Vec<char>>) -> (r: String)
    ensures
        r@ == snippet_of(content@, tokens_view(tokens@)),
{
    let cs = chars_of(content.as_str());
    let ghost c = content@;
    let ghost ts = tokens_view(tokens@);
    let n = cs.len();
    let mut pos: usize = 0;
    while pos < n
        invariant
            cs@ == c,
            c == content@,
            n == c.len(),
            pos <= n,
            ts == tokens_view(tokens@),
            first_hit_from(c, ts, 0) == first_hit_from(c, ts, pos as int),
        decreases n - pos,
    {
        match token_match_at(&cs, tokens, pos) {
            Some(j) => {
                let l = tokens[j].len();
                proof {
                    assert(ts[j as int] == tokens@[j as int]@);
                    assert(ts[j as int].len() == l as int);
                    assert(first_hit_from(c, ts, pos as int) == Some((pos as int, l as int)));
                    assert(first_hit_from(c, ts, 0) == Some((pos as int, l as int)));
                }
                let p = pos;
                let start = if p >= SIDE_CHARS {
                    p - SIDE_CHARS
                } else {
                    0
                };
                let stop = if n - (p + l) >= SIDE_CHARS {
                    p + l + SIDE_CHARS
                } else {
                    n
                };
                let mut r = String::new();
                if start > 0 {
                    append_str(&mut r, "...");
                }
                let lead = string_from_range(&cs, start, p);
                append_str(&mut r, lead.as_str());
                append_str(&mut r, "==");
                let term = string_from_range(&cs, p, p + l);
                append_str(&mut r, term.as_str());
                append_str(&mut r, "==");
                let tail = string_from_range(&cs, p + l, stop);
                append_str(&mut r, tail.as_str());
                if stop < n {
                    append_str(&mut r, "...");
                }
                proof {
                    assert(r@ =~= snippet_of(c, ts));
                }
                return r;
            },
            None => {
                proof {
                    assert(first_hit_from(c, ts, pos as int) == first_hit_from(c, ts, pos + 1));
                }
                pos = pos + 1;
            },
        }
    }
    proof {
        assert(first_hit_from(c, ts, pos as int) is None);
    }
    if n <= LEAD_CHARS {
        let r = string_from_range(&cs, 0, n);
        proof {
            assert(r@ =~= snippet_of(c, ts));
        }
        r
    } else {
        let mut r = string_from_range(&cs, 0, LEAD_CHARS);
        append_str(&mut r, "...");
        proof {
            assert(r@ =~= snippet_of(c, ts));
        }
        r
    }
}

/// Computes the rank of an index entry for the terms.
fn compute_rank(title: &Vec<char>, content: &Vec<char>, tokens: &Vec<Vec<char>>, ghost_entry: Ghost<
    IndexEntryV,
>) -> (r: i64)
    requires
        title@ == ghost_entry@.title,
        content@ == ghost_entry@.content,
    ensures
        r as int == rank_of(ghost_entry@, tokens_view(tokens@)),
{
    let ghost ts = tokens_view(tokens@);
    let ghost pt = occurring_in(ghost_entry@.title);
    let ghost pc = occurring_in(ghost_entry@.content);
    let mut t_hits: usize = 0;
    let mut c_hits: usize = 0;
    for j in 0..tokens.len()
        invariant
            title@ == ghost_entry@.title,
            content@ == ghost_entry@.content,
            ts == tokens_view(tokens@),
            pt == occurring_in(ghost_entry@.title),
            pc == occurring_in(ghost_entry@.content),
            t_hits as int == ts.take(j as int).filter(pt).len(),
            c_hits as int == ts.take(j as int).filter(pc).len(),
            t_hits <= j && c_hits <= j,
    {
        if occurs_check(title, &tokens[j]) {
            t_hits = t_hits + 1;
        }
        if occurs_check(content, &tokens[j]) {
            c_hits = c_hits + 1;
        }
        proof {
            lemma_take_succ(ts, j as int);
            lemma_filter_push(ts.take(j as int), ts[j as int], pt);
            lemma_filter_push(ts.take(j as int), ts[j as int], pc);
        }
    }
    proof {
        assert(ts.take(tokens@.len() as int) =~= ts);
    }
    let score: u128 = 2 * (t_hits as u128) + (c_hits as u128);
    let clamped: i64 = if score > 0x7fff_ffff_ffff_ffff {
        0x7fff_ffff_ffff_ffff
    } else {
        score as i64
    };
    -clamped
}

/// Index of a result with the smallest rank.
fn min_rank_position(results: &Vec<SearchResult>) -> (r: usize)
    requires
        results@.len() > 0,
    ensures
        r < results@.len(),
        forall|j: int|
            0 <= j < results@.len() ==> results_view(results@)[r as int].rank <= (
            #[trigger] results_view(results@)[j]).rank,
{
    let ghost v = results_view(results@);
    let mut best: usize = 0;
    for i in 1..results.len()
        invariant
            v == results_view(results@),
            results@.len() > 0,
            best < i,
            forall|j: int| 0 <= j < i ==> v[best as int].rank <= (#[trigger] v[j]).rank,
    {
        if results[i].rank < results[best].rank {
            best = i;
        }
    }
    best
}

/// Sorts results by rank, most relevant first. The result is a permutation
/// of the input.
fn sort_results(v: Vec<SearchResult>) -> (r: Vec<SearchResult>)
    ensures
        sorted_by_rank(results_view(r@)),
        results_view(r@).to_multiset() == results_view(v@).to_multiset(),
{
    let ghost orig = results_view(v@);
    let mut input = v;
    let mut out: Vec<SearchResult> = Vec::new();
    proof {
        broadcast use vstd::multiset::group_multiset_axioms;
        broadcast use group_to_multiset_ensures;

        assert(results_view(out@).len() == 0);
        assert(results_view(out@).to_multiset() =~= Multiset::<SearchResultV>::empty());
        assert(results_view(out@).to_multiset().add(results_view(input@).to_multiset())
            =~= orig.to_multiset());
    }
    while input.len() > 0
        invariant
            sorted_by_rank(results_view(out@)),
            forall|a: int, b: int|
                0 <= a < out@.len() && 0 <= b < input@.len() ==> (#[trigger] results_view(
                    out@,
                )[a]).rank <= (#[trigger] results_view(input@)[b]).rank,
            results_view(out@).to_multiset().add(results_view(input@).to_multiset())
                =~= orig.to_multiset(),
        decreases input@.len(),
    {
        let ghost out_v = results_view(out@);
        let ghost in_v = results_view(input@);
        let m = min_rank_position(&input);
        let x = input.remove(m);
        let ghost xv = x@;
        out.push(x);
        proof {
            broadcast use vstd::multiset::group_multiset_axioms;
            broadcast use group_to_multiset_ensures;

            assert(in_v.contains(in_v[m as int]));
            assert(in_v.to_multiset().count(xv) > 0);
            assert(results_view(input@) =~= in_v.remove(m as int));
            assert(results_view(out@) =~= out_v.push(xv));
            assert(in_v[m as int] == xv);
            vstd::seq_lib::to_multiset_remove(in_v, m as int);
            vstd::seq_lib::to_multiset_build(out_v, xv);
            assert(out_v.to_multiset().insert(xv).add(in_v.to_multiset().remove(xv))
                =~= out_v.to_multiset().add(in_v.to_multiset()));
            assert forall|a: int, b: int|
                0 <= a < out@.len() && 0 <= b < input@.len() implies (#[trigger] results_view(
                out@,
            )[a]).rank <= (#[trigger] results_view(input@)[b]).rank by {
                let nb = results_view(input@)[b];
                if b < m {
                    assert(nb == in_v[b]);
                } else {
                    assert(nb == in_v[b + 1]);
                }
                if a < out_v.len() {
                    assert(results_view(out@)[a] == out_v[a]);
                } else {
                    assert(results_view(out@)[a] == xv);
                }
            }
            assert forall|a: int, b: int|
                0 <= a <= b < results_view(out@).len() implies (#[trigger] results_view(
                out@,
            )[a]).rank <= (#[trigger] results_view(out@)[b]).rank by {
                if b < out_v.len() {
                    assert(results_view(out@)[a] == out_v[a] && results_view(out@)[b] == out_v[b]);
                } else if a < out_v.len() {
                    assert(results_view(out@)[a] == out_v[a] && results_view(out@)[b] == xv);
                    assert(in_v[m as int] == xv);
                }
            }
        }
    }
    proof {
        broadcast use vstd::multiset::group_multiset_axioms;
        broadcast use group_to_multiset_ensures;

        assert(results_view(input@).len() == 0);
        assert(results_view(input@).to_multiset().len() == 0);
        assert(results_view(input@).to_multiset() =~= Multiset::<SearchResultV>::empty());
        assert(results_view(out@).to_multiset() =~= orig.to_multiset());
    }
    out
}

impl Store {
    /// Ranked search over the full-text index. A query with no terms is
    /// malformed and fails with a storage error, as an engine rejects a
    /// malformed match query. Otherwise every hit — a note in whose title
    /// or content every term occurs — is reported with its snippet and
    /// rank, most relevant first, cut to `limit`.
    pub fn search_notes(&self, query: String, limit: usize) -> (r: Result<
        Vec<SearchResult>,
        AppError,
    >)
        requires
            wf(self@),
        ensures
            r is Ok <==> tokenize(query@).len() > 0,
            r matches Err(e) ==> e is SqliteError,
            r matches Ok(results) ==> exists|ord: Seq<SearchResultV>|
                {
                    &&& #[trigger] ord.to_multiset() == search_hits(
                        self@.index,
                        tokenize(query@),
                    ).to_multiset()
                    &&& sorted_by_rank(ord)
                    &&& results@.map_values(|x: SearchResult| x@) == ord.take(
                        if limit as int <= ord.len() {
                            limit as int
                        } else {
                            ord.len() as int
                        },
                    )
                },
    {
        let tokens = tokenize_query(&query);
        if tokens.len() == 0 {
            return Err(AppError::SqliteError("fts5: syntax error in match expression".to_owned()));
        }
        let ghost ts = tokens_view(tokens@);
        let ghost iv = self@.index;
        let ghost hp = hit_pred(ts);
        let ghost rm = result_map(ts);
        let mut hits: Vec<SearchResult> = Vec::new();
        for i in 0..self.index.len()
            invariant
                iv == self@.index,
                ts == tokens_view(tokens@),
                hp == hit_pred(ts),
                rm == result_map(ts),
                results_view(hits@) == iv.take(i as int).filter(hp).map_values(rm),
        {
            let ghost prev = results_view(hits@);
            let title_cs = chars_of(self.index[i].title.as_str());
            let content_cs = chars_of(self.index[i].content.as_str());
            let mut all = true;
            let mut j: usize = 0;
            while j < tokens.len() && all
                invariant
                    iv == self@.index,
                    ts == tokens_view(tokens@),
                    title_cs@ == iv[i as int].title,
                    content_cs@ == iv[i as int].content,
                    i < iv.len(),
                    j <= tokens@.len(),
                    all ==> forall|m: int|
                        0 <= m < j ==> occurs(iv[i as int].title, #[trigger] ts[m]) || occurs(
                            iv[i as int].content,
                            ts[m],
                        ),
                    !all ==> !is_hit(iv[i as int], ts),
                decreases tokens@.len() - j,
            {
                if !occurs_check(&title_cs, &tokens[j]) && !occurs_check(&content_cs, &tokens[j]) {
                    all = false;
                    proof {
                        let jj = j as int;
                        assert(ts[jj] == tokens@[jj]@);
                        assert(!occurs(iv[i as int].title, ts[jj]) && !occurs(
                            iv[i as int].content,
                            ts[jj],
                        ));
                        assert(!is_hit(iv[i as int], ts));
                    }
                }
                j = j + 1;
            }
            if all {
                proof {
                    assert(is_hit(iv[i as int], ts));
                }
                let rank = compute_rank(
                    &title_cs,
                    &content_cs,
                    &tokens,
                    Ghost(iv[i as int]),
                );
                let snippet = build_snippet(&self.index[i].content, &tokens);
                let res = SearchResult {
                    id: self.index[i].note_id.clone(),
                    title: self.index[i].title.clone(),
                    snippet,
                    rank,
                };
                proof {
                    assert(res@ == rm(iv[i as int]));
                }
                hits.push(res);
            }
            proof {
                lemma_take_succ(iv, i as int);
                lemma_filter_push(iv.take(i as int), iv[i as int], hp);
                if hp(iv[i as int]) {
                    assert(results_view(hits@) =~= prev.push(rm(iv[i as int])));
                    assert(iv.take(i + 1).filter(hp).map_values(rm) =~= iv.take(
                        i as int,
                    ).filter(hp).map_values(rm).push(rm(iv[i as int])));
                } else {
                    assert(iv.take(i + 1).filter(hp).map_values(rm) =~= iv.take(
                        i as int,
                    ).filter(hp).map_values(rm));
                }
            }
        }
        proof {
            assert(iv.take(self.index@.len() as int) =~= iv);
        }
        let sorted = sort_results(hits);
        let ghost ord = results_view(sorted@);
        let mut out: Vec<SearchResult> = Vec::new();
        let mut k: usize = 0;
        while k < sorted.len() && k < limit
            invariant
                ord == results_view(sorted@),
                k <= sorted@.len(),
                k <= limit,
                results_view(out@) == ord.take(k as int),
            decreases sorted@.len() - k,
        {
            let ghost prev = results_view(out@);
            let x = SearchResult {
                id: sorted[k].id.clone(),
                title: sorted[k].title.clone(),
                snippet: sorted[k].snippet.clone(),
                rank: sorted[k].rank,
            };
            proof {
                assert(x@ == ord[k as int]);
            }
            out.push(x);
            k = k + 1;
            proof {
                assert(results_view(out@) =~= prev.push(ord[k - 1]));
                assert(ord.take(k as int) =~= ord.take(k - 1).push(ord[k - 1]));
            }
        }
        proof {
            let cut = if limit as int <= ord.len() {
                limit as int
            } else {
                ord.len() as int
            };
            assert(results_view(out@) =~= ord.take(cut));
        }
        Ok(out)
    }
}

} // verus!
