//! Query execution: normalize the query into terms, stream fuzzy and prefix
//! matches against the keyword transducer, accumulate saturating per-document
//! scores over the matched posting lists, rank, and rebuild the documents
//! from the column.

use vstd::prelude::*;
use vstd::relations::sorted_by;
use vstd::utf8::{decode_utf8, encode_utf8, valid_utf8};

use crate::column::FsstStrVec;
use crate::fst_map::{fst_fuzzy_hits, fst_parse, fst_prefix_hits, fst_safe, is_prefix,
    lev1_feasible, lev1_match, SearchError};
use crate::index::{Document, Index};
use crate::keywords::has_str;
use crate::order::{rank_le, sort_postings};
use crate::saturating_add_u8;
use crate::text::{lower_of, norm_token, normalize_token, split_whitespace_vec, split_ws,
    str_chars, str_lowercase};

verus! {

/// `s` with every element that already occurred (or is in `seen`) removed,
/// keeping first occurrences in order.
pub open spec fn dedup_from(s: Seq<Seq<char>>, seen: Seq<Seq<char>>) -> Seq<Seq<char>>
    decreases s.len(),
{
    if s.len() == 0 {
        Seq::empty()
    } else if has_str(seen, s[0]) {
        dedup_from(s.drop_first(), seen)
    } else {
        seq![s[0]] + dedup_from(s.drop_first(), seen.push(s[0]))
    }
}

/// The normalized forms of the raw tokens, empties dropped.
pub open spec fn norm_toks(ws: Seq<Seq<char>>) -> Seq<Seq<char>>
    decreases ws.len(),
{
    if ws.len() == 0 {
        Seq::empty()
    } else {
        (if norm_token(ws[0]).len() > 0 {
            seq![norm_token(ws[0])]
        } else {
            Seq::empty()
        }) + norm_toks(ws.drop_first())
    }
}

/// The query's distinct terms: each whitespace-separated token normalized,
/// empties dropped, plus the whole query lower-cased, first occurrences kept
/// in order.
pub open spec fn query_terms(q: Seq<char>) -> Seq<Seq<char>> {
    dedup_from(norm_toks(split_ws(q)).push(lower_of(q)), Seq::empty())
}

/// The posting-list indices hit by one term: every stored keyword within
/// edit distance one, then every stored keyword with the term as a prefix.
/// A keyword matching both ways is counted twice.
pub open spec fn term_hits(entries: Seq<(Seq<u8>, u64)>, term: Seq<char>) -> Seq<u64> {
    entries.filter(|e: (Seq<u8>, u64)| lev1_match(term, e.0)).map_values(
        |e: (Seq<u8>, u64)| e.1,
    ) + entries.filter(|e: (Seq<u8>, u64)| is_prefix(encode_utf8(term), e.0)).map_values(
        |e: (Seq<u8>, u64)| e.1,
    )
}

/// The hits of all terms, in term order.
pub open spec fn all_hits(entries: Seq<(Seq<u8>, u64)>, terms: Seq<Seq<char>>) -> Seq<u64>
    decreases terms.len(),
{
    if terms.len() == 0 {
        Seq::empty()
    } else {
        term_hits(entries, terms[0]) + all_hits(entries, terms.drop_first())
    }
}

/// Whether every hit references a posting list.
pub open spec fn hits_in_range(hits: Seq<u64>, n: nat) -> bool {
    forall|i: int| 0 <= i < hits.len() ==> (#[trigger] hits[i]) < n
}

/// The concatenated posting entries of the hit lists, in hit order.
pub open spec fn hit_pairs(postings: Seq<Seq<(usize, u8)>>, hits: Seq<u64>) -> Seq<(usize, u8)>
    decreases hits.len(),
{
    if hits.len() == 0 {
        Seq::empty()
    } else {
        postings[hits[0] as int] + hit_pairs(postings, hits.drop_first())
    }
}

/// The exact (unsaturated) score total of document `d` over `pairs`.
pub open spec fn list_total(pairs: Seq<(usize, u8)>, d: usize) -> int
    decreases pairs.len(),
{
    if pairs.len() == 0 {
        0
    } else {
        (if pairs[0].0 == d {
            pairs[0].1 as int
        } else {
            0
        }) + list_total(pairs.drop_first(), d)
    }
}

/// Clamp a non-negative total to a byte.
pub open spec fn sat255(x: int) -> u8 {
    if x >= 255 {
        255u8
    } else if x < 0 {
        0u8
    } else {
        x as u8
    }
}

/// Whether `seen` holds `d`.
pub open spec fn has_doc(seen: Seq<usize>, d: usize) -> bool {
    exists|i: int| 0 <= i < seen.len() && seen[i] == d
}

/// The distinct documents of `pairs`, in order of first appearance, those in
/// `seen` skipped.
pub open spec fn dedup_docs_from(pairs: Seq<(usize, u8)>, seen: Seq<usize>) -> Seq<usize>
    decreases pairs.len(),
{
    if pairs.len() == 0 {
        Seq::empty()
    } else if has_doc(seen, pairs[0].0) {
        dedup_docs_from(pairs.drop_first(), seen)
    } else {
        seq![pairs[0].0] + dedup_docs_from(pairs.drop_first(), seen.push(pairs[0].0))
    }
}

/// Every touched document with its saturated score total, in order of first
/// touch.
pub open spec fn candidates(pairs: Seq<(usize, u8)>) -> Seq<(usize, u8)> {
    dedup_docs_from(pairs, Seq::empty()).map_values(
        |d: usize| (d, sat255(list_total(pairs, d))),
    )
}

/// The scored documents of a query, best first: candidates sorted by score
/// descending, ties by document index ascending.
pub open spec fn spec_ranked(postings: Seq<Seq<(usize, u8)>>, hits: Seq<u64>) -> Seq<(usize, u8)> {
    candidates(hit_pairs(postings, hits)).sort_by(rank_le())
}

/// Whether some pair mentions document `d`.
pub open spec fn mentions(pairs: Seq<(usize, u8)>, d: usize) -> bool {
    exists|t: int| 0 <= t < pairs.len() && (#[trigger] pairs[t]).0 == d
}

/// The documents of a score table, in order.
pub open spec fn docs_of(s: Seq<(usize, u8)>) -> Seq<usize> {
    s.map_values(|p: (usize, u8)| p.0)
}

/// Deduplicated documents avoid `seen` and are pairwise distinct.
proof fn lemma_dedup_docs_distinct(pairs: Seq<(usize, u8)>, seen: Seq<usize>)
    ensures
        forall|i: int|
            0 <= i < dedup_docs_from(pairs, seen).len() ==> !has_doc(
                seen,
                #[trigger] dedup_docs_from(pairs, seen)[i],
            ),
        forall|p: int, q: int|
            0 <= p < q < dedup_docs_from(pairs, seen).len() ==> #[trigger] dedup_docs_from(
                pairs,
                seen,
            )[p] != #[trigger] dedup_docs_from(pairs, seen)[q],
    decreases pairs.len(),
{
    if pairs.len() > 0 {
        let dd = dedup_docs_from(pairs, seen);
        if has_doc(seen, pairs[0].0) {
            lemma_dedup_docs_distinct(pairs.drop_first(), seen);
            assert(dd == dedup_docs_from(pairs.drop_first(), seen));
            assert(forall|i: int|
                0 <= i < dd.len() ==> #[trigger] dd[i] == dedup_docs_from(
                    pairs.drop_first(),
                    seen,
                )[i]);
        } else {
            lemma_dedup_docs_distinct(pairs.drop_first(), seen.push(pairs[0].0));
            let rest = dedup_docs_from(pairs.drop_first(), seen.push(pairs[0].0));
            assert(dd == seq![pairs[0].0] + rest);
            assert forall|i: int| 0 <= i < dd.len() implies !has_doc(seen, #[trigger] dd[i]) by {
                if i > 0 {
                    assert(dd[i] == rest[i - 1]);
                    assert(!has_doc(seen.push(pairs[0].0), rest[i - 1]));
                    lemma_has_doc_push(seen, pairs[0].0, rest[i - 1]);
                }
            }
            assert forall|p: int, q: int| 0 <= p < q < dd.len() implies #[trigger] dd[p]
                != #[trigger] dd[q] by {
                if p == 0 {
                    assert(dd[q] == rest[q - 1]);
                    assert(!has_doc(seen.push(pairs[0].0), rest[q - 1]));
                    lemma_has_doc_push(seen, pairs[0].0, rest[q - 1]);
                } else {
                    assert(dd[p] == rest[p - 1] && dd[q] == rest[q - 1]);
                }
            }
        }
    }
}

proof fn lemma_has_doc_push(seen: Seq<usize>, h: usize, d: usize)
    ensures
        has_doc(seen.push(h), d) == (has_doc(seen, d) || h == d),
{
    if has_doc(seen.push(h), d) {
        let i = choose|i: int| 0 <= i < seen.push(h).len() && seen.push(h)[i] == d;
        if i < seen.len() {
            assert(seen[i] == d);
        }
    }
    if has_doc(seen, d) {
        let i = choose|i: int| 0 <= i < seen.len() && seen[i] == d;
        assert(seen.push(h)[i] == d);
    }
    if h == d {
        assert(seen.push(h)[seen.len() as int] == d);
    }
}

proof fn lemma_mentions_drop(pairs: Seq<(usize, u8)>, d: usize)
    requires
        pairs.len() > 0,
    ensures
        mentions(pairs, d) == (pairs[0].0 == d || mentions(pairs.drop_first(), d)),
{
    if mentions(pairs, d) {
        let t = choose|t: int| 0 <= t < pairs.len() && (#[trigger] pairs[t]).0 == d;
        if t > 0 {
            assert(pairs.drop_first()[t - 1].0 == d);
        }
    }
    if mentions(pairs.drop_first(), d) {
        let t = choose|t: int|
            0 <= t < pairs.drop_first().len() && (#[trigger] pairs.drop_first()[t]).0 == d;
        assert(pairs[t + 1].0 == d);
    }
}

/// Appending a pair extends a document total by its score when the document
/// matches.
proof fn lemma_list_total_push(pairs: Seq<(usize, u8)>, x: (usize, u8), d: usize)
    ensures
        list_total(pairs.push(x), d) == list_total(pairs, d) + (if x.0 == d {
            x.1 as int
        } else {
            0
        }),
    decreases pairs.len(),
{
    if pairs.len() == 0 {
        assert(pairs.push(x)[0] == x);
        assert(pairs.push(x).drop_first() =~= Seq::<(usize, u8)>::empty());
        assert(list_total(Seq::<(usize, u8)>::empty(), d) == 0);
        assert(list_total(pairs, d) == 0);
    } else {
        assert(pairs.push(x)[0] == pairs[0]);
        assert(pairs.push(x).drop_first() =~= pairs.drop_first().push(x));
        lemma_list_total_push(pairs.drop_first(), x, d);
        assert(list_total(pairs.push(x), d) == (if pairs[0].0 == d {
            pairs[0].1 as int
        } else {
            0
        }) + list_total(pairs.drop_first().push(x), d));
    }
}

/// Appending a pair adds its document to the end of the deduplicated list
/// exactly when the document is new.
proof fn lemma_dedup_docs_push(pairs: Seq<(usize, u8)>, seen: Seq<usize>, x: (usize, u8))
    ensures
        dedup_docs_from(pairs.push(x), seen) == if has_doc(seen, x.0) || mentions(pairs, x.0) {
            dedup_docs_from(pairs, seen)
        } else {
            dedup_docs_from(pairs, seen).push(x.0)
        },
    decreases pairs.len(),
{
    if pairs.len() == 0 {
        assert(pairs.push(x)[0] == x);
        assert(pairs.push(x).drop_first() =~= Seq::<(usize, u8)>::empty());
        assert(!mentions(pairs, x.0));
        if has_doc(seen, x.0) {
            assert(dedup_docs_from(pairs.push(x), seen) == dedup_docs_from(
                Seq::<(usize, u8)>::empty(),
                seen,
            ));
            assert(dedup_docs_from(pairs, seen) =~= Seq::<usize>::empty());
        } else {
            assert(dedup_docs_from(pairs.push(x), seen) == seq![x.0] + dedup_docs_from(
                Seq::<(usize, u8)>::empty(),
                seen.push(x.0),
            ));
            assert(dedup_docs_from(pairs.push(x), seen) =~= dedup_docs_from(pairs, seen).push(
                x.0,
            ));
        }
    } else {
        let head = pairs[0];
        assert(pairs.push(x)[0] == head);
        assert(pairs.push(x).drop_first() =~= pairs.drop_first().push(x));
        lemma_mentions_drop(pairs, x.0);
        if has_doc(seen, head.0) {
            assert(dedup_docs_from(pairs.push(x), seen) == dedup_docs_from(
                pairs.drop_first().push(x),
                seen,
            ));
            lemma_dedup_docs_push(pairs.drop_first(), seen, x);
            if head.0 == x.0 {
                assert(has_doc(seen, x.0));
            }
        } else {
            assert(dedup_docs_from(pairs.push(x), seen) == seq![head.0] + dedup_docs_from(
                pairs.drop_first().push(x),
                seen.push(head.0),
            ));
            lemma_dedup_docs_push(pairs.drop_first(), seen.push(head.0), x);
            lemma_has_doc_push(seen, head.0, x.0);
            let cond_inner = has_doc(seen.push(head.0), x.0) || mentions(
                pairs.drop_first(),
                x.0,
            );
            let cond_outer = has_doc(seen, x.0) || mentions(pairs, x.0);
            assert(cond_inner == cond_outer);
            if cond_outer {
                assert(dedup_docs_from(pairs.push(x), seen) == seq![head.0] + dedup_docs_from(
                    pairs.drop_first(),
                    seen.push(head.0),
                ));
            } else {
                assert(dedup_docs_from(pairs.push(x), seen) =~= (seq![head.0]
                    + dedup_docs_from(pairs.drop_first(), seen.push(head.0))).push(x.0));
            }
        }
    }
}

/// A document total over pairs is non-negative.
proof fn lemma_list_total_nonneg(pairs: Seq<(usize, u8)>, d: usize)
    ensures
        list_total(pairs, d) >= 0,
    decreases pairs.len(),
{
    if pairs.len() > 0 {
        lemma_list_total_nonneg(pairs.drop_first(), d);
    }
}

/// A document that no pair mentions has total zero.
proof fn lemma_list_total_untouched(pairs: Seq<(usize, u8)>, d: usize)
    requires
        !mentions(pairs, d),
    ensures
        list_total(pairs, d) == 0,
    decreases pairs.len(),
{
    if pairs.len() > 0 {
        lemma_mentions_drop(pairs, d);
        assert(pairs[0].0 != d);
        lemma_list_total_untouched(pairs.drop_first(), d);
    }
}

/// Every deduplicated document occurs in the pairs.
proof fn lemma_dedup_docs_sound(pairs: Seq<(usize, u8)>, seen: Seq<usize>)
    ensures
        forall|i: int|
            0 <= i < dedup_docs_from(pairs, seen).len() ==> mentions(
                pairs,
                #[trigger] dedup_docs_from(pairs, seen)[i],
            ),
    decreases pairs.len(),
{
    if pairs.len() > 0 {
        let dd = dedup_docs_from(pairs, seen);
        if has_doc(seen, pairs[0].0) {
            lemma_dedup_docs_sound(pairs.drop_first(), seen);
            assert forall|i: int| 0 <= i < dd.len() implies mentions(pairs, #[trigger] dd[i]) by {
                assert(dd[i] == dedup_docs_from(pairs.drop_first(), seen)[i]);
                assert(mentions(pairs.drop_first(), dd[i]));
                lemma_mentions_drop(pairs, dd[i]);
            }
        } else {
            lemma_dedup_docs_sound(pairs.drop_first(), seen.push(pairs[0].0));
            let rest = dedup_docs_from(pairs.drop_first(), seen.push(pairs[0].0));
            assert(dd == seq![pairs[0].0] + rest);
            assert forall|i: int| 0 <= i < dd.len() implies mentions(pairs, #[trigger] dd[i]) by {
                lemma_mentions_drop(pairs, dd[i]);
                if i > 0 {
                    assert(dd[i] == rest[i - 1]);
                    assert(rest[i - 1] == dedup_docs_from(pairs.drop_first(), seen.push(
                        pairs[0].0,
                    ))[i - 1]);
                    assert(mentions(pairs.drop_first(), rest[i - 1]));
                }
            }
        }
    }
}

/// Every document of the pairs not screened by `seen` occurs in the
/// deduplicated list.
proof fn lemma_dedup_docs_complete(pairs: Seq<(usize, u8)>, seen: Seq<usize>)
    ensures
        forall|t: int|
            0 <= t < pairs.len() && !has_doc(seen, (#[trigger] pairs[t]).0) ==> has_doc(
                dedup_docs_from(pairs, seen),
                pairs[t].0,
            ),
    decreases pairs.len(),
{
    if pairs.len() > 0 {
        let dd = dedup_docs_from(pairs, seen);
        if has_doc(seen, pairs[0].0) {
            lemma_dedup_docs_complete(pairs.drop_first(), seen);
            assert forall|t: int|
                0 <= t < pairs.len() && !has_doc(seen, (#[trigger] pairs[t]).0) implies has_doc(
                dd,
                pairs[t].0,
            ) by {
                assert(t >= 1);
                assert(pairs.drop_first()[t - 1] == pairs[t]);
            }
        } else {
            lemma_dedup_docs_complete(pairs.drop_first(), seen.push(pairs[0].0));
            let rest = dedup_docs_from(pairs.drop_first(), seen.push(pairs[0].0));
            assert(dd == seq![pairs[0].0] + rest);
            assert forall|t: int|
                0 <= t < pairs.len() && !has_doc(seen, (#[trigger] pairs[t]).0) implies has_doc(
                dd,
                pairs[t].0,
            ) by {
                if t == 0 || pairs[t].0 == pairs[0].0 {
                    assert(dd[0] == pairs[0].0);
                } else {
                    assert(pairs.drop_first()[t - 1] == pairs[t]);
                    lemma_has_doc_push(seen, pairs[0].0, pairs[t].0);
                    assert(has_doc(rest, pairs[t].0));
                    let i = choose|i: int| 0 <= i < rest.len() && rest[i] == pairs[t].0;
                    assert(dd[i + 1] == pairs[t].0);
                }
            }
        }
    }
}

/// Accumulate one posting pair into the running score table: a seen document
/// saturates upward, a new document is appended.
fn accumulate_pair(acc: &mut Vec<(usize, u8)>, d: usize, s: u8, Ghost(pairs): Ghost<Seq<(usize, u8)>>)
    requires
        docs_of(old(acc)@) == dedup_docs_from(pairs, Seq::empty()),
        forall|j: int|
            0 <= j < old(acc)@.len() ==> (#[trigger] old(acc)@[j]).1 == sat255(
                list_total(pairs, old(acc)@[j].0),
            ),
    ensures
        docs_of(final(acc)@) == dedup_docs_from(pairs.push((d, s)), Seq::empty()),
        forall|j: int|
            0 <= j < final(acc)@.len() ==> (#[trigger] final(acc)@[j]).1 == sat255(
                list_total(pairs.push((d, s)), final(acc)@[j].0),
            ),
{
    let mut j: usize = 0;
    while j < acc.len()
        invariant
            0 <= j <= acc@.len(),
            forall|t: int| 0 <= t < j ==> (#[trigger] acc@[t]).0 != d,
            acc@ == old(acc)@,
            docs_of(acc@) == dedup_docs_from(pairs, Seq::empty()),
            forall|t: int|
                0 <= t < acc@.len() ==> (#[trigger] acc@[t]).1 == sat255(
                    list_total(pairs, acc@[t].0),
                ),
        decreases acc@.len() - j,
    {
        if acc[j].0 == d {
            let ghost prev = acc@;
            let updated = saturating_add_u8(acc[j].1, s);
            let doc = acc[j].0;
            acc[j] = (doc, updated);
            proof {
                lemma_dedup_docs_push(pairs, Seq::empty(), (d, s));
                let dd = dedup_docs_from(pairs, Seq::empty());
                assert(acc@.map_values(|p: (usize, u8)| p.0) =~= prev.map_values(
                    |p: (usize, u8)| p.0,
                ));
                assert(docs_of(acc@) =~= docs_of(prev));
                assert(dd == docs_of(prev));
                assert(dd.len() == prev.len());
                assert(dd[j as int] == prev[j as int].0 == d);
                assert(mentions(pairs, d)) by {
                    lemma_dedup_docs_sound(pairs, Seq::empty());
                    assert(mentions(pairs, dd[j as int]));
                }
                lemma_dedup_docs_distinct(pairs, Seq::empty());
                assert forall|t: int| 0 <= t < acc@.len() implies (#[trigger] acc@[t]).1
                    == sat255(list_total(pairs.push((d, s)), acc@[t].0)) by {
                    lemma_list_total_push(pairs, (d, s), acc@[t].0);
                    lemma_list_total_nonneg(pairs, acc@[t].0);
                    if t == j {
                        assert(acc@[t].1 == updated);
                    } else {
                        assert(acc@[t] == prev[t]);
                        assert(acc@[t].0 == dd[t]);
                        assert(dd[t] != dd[j as int]);
                        assert(acc@[t].0 != d);
                    }
                }
            }
            return ;
        }
        j = j + 1;
    }
    let ghost prev = acc@;
    acc.push((d, s));
    proof {
        lemma_dedup_docs_push(pairs, Seq::empty(), (d, s));
        assert(forall|t: int| 0 <= t < prev.len() ==> (#[trigger] prev[t]).0 != d);
        assert(!mentions(pairs, d)) by {
            lemma_dedup_docs_complete(pairs, Seq::empty());
            if mentions(pairs, d) {
                let t = choose|t: int| 0 <= t < pairs.len() && (#[trigger] pairs[t]).0 == d;
                assert(!has_doc(Seq::<usize>::empty(), pairs[t].0));
                let dd = dedup_docs_from(pairs, Seq::empty());
                assert(has_doc(dd, d));
                let i = choose|i: int| 0 <= i < dd.len() && dd[i] == d;
                assert(dd == docs_of(prev));
                assert(docs_of(prev)[i] == prev[i].0);
                assert(prev[i].0 == d);
            }
        }
        assert(docs_of(acc@) =~= dedup_docs_from(pairs, Seq::empty()).push(d));
        assert forall|t: int| 0 <= t < acc@.len() implies (#[trigger] acc@[t]).1 == sat255(
            list_total(pairs.push((d, s)), acc@[t].0),
        ) by {
            lemma_list_total_push(pairs, (d, s), acc@[t].0);
            lemma_list_total_nonneg(pairs, acc@[t].0);
            if t < prev.len() {
                assert(acc@[t] == prev[t]);
                assert(acc@[t].0 != d);
            } else {
                assert(acc@[t] == (d, s));
                lemma_list_total_untouched(pairs, d);
            }
        }
    }
}

} // verus!

verus! {

proof fn lemma_norm_toks_push(ws: Seq<Seq<char>>, x: Seq<char>)
    ensures
        norm_toks(ws.push(x)) == norm_toks(ws) + (if norm_token(x).len() > 0 {
            seq![norm_token(x)]
        } else {
            Seq::<Seq<char>>::empty()
        }),
    decreases ws.len(),
{
    if ws.len() == 0 {
        assert(ws.push(x)[0] == x);
        assert(ws.push(x).drop_first() =~= Seq::<Seq<char>>::empty());
        assert(norm_toks(Seq::<Seq<char>>::empty()) == Seq::<Seq<char>>::empty());
        if norm_token(x).len() > 0 {
            assert(norm_toks(ws.push(x)) =~= norm_toks(ws) + seq![norm_token(x)]);
        } else {
            assert(norm_toks(ws.push(x)) =~= norm_toks(ws) + Seq::<Seq<char>>::empty());
        }
    } else {
        assert(ws.push(x)[0] == ws[0]);
        assert(ws.push(x).drop_first() =~= ws.drop_first().push(x));
        lemma_norm_toks_push(ws.drop_first(), x);
        if norm_token(x).len() > 0 {
            assert(norm_toks(ws.push(x)) =~= norm_toks(ws) + seq![norm_token(x)]);
        } else {
            assert(norm_toks(ws.push(x)) =~= norm_toks(ws) + Seq::<Seq<char>>::empty());
        }
    }
}

proof fn lemma_hit_pairs_push(postings: Seq<Seq<(usize, u8)>>, hits: Seq<u64>, x: u64)
    ensures
        hit_pairs(postings, hits.push(x)) == hit_pairs(postings, hits) + postings[x as int],
    decreases hits.len(),
{
    if hits.len() == 0 {
        assert(hits.push(x)[0] == x);
        assert(hits.push(x).drop_first() =~= Seq::<u64>::empty());
        assert(hit_pairs(postings, Seq::<u64>::empty()) == Seq::<(usize, u8)>::empty());
        assert(hit_pairs(postings, hits.push(x)) =~= hit_pairs(postings, hits) + postings[x as int]);
    } else {
        assert(hits.push(x)[0] == hits[0]);
        assert(hits.push(x).drop_first() =~= hits.drop_first().push(x));
        lemma_hit_pairs_push(postings, hits.drop_first(), x);
        assert(hit_pairs(postings, hits.push(x)) =~= hit_pairs(postings, hits) + postings[x as int]);
    }
}

/// Collect the query's distinct search terms.
fn collect_terms(query: &str) -> (r: Vec<String>)
    ensures
        r.deep_view() == query_terms(query@),
{
    let qchars = str_chars(query);
    let words = split_whitespace_vec(&qchars);
    let mut cands: Vec<String> = Vec::new();
    let ghost ws = words@.map_values(|t: Vec<char>| t@);
    proof {
        assert(ws.take(0) =~= Seq::<Seq<char>>::empty());
        assert(cands.deep_view() =~= norm_toks(ws.take(0)));
    }
    let mut i: usize = 0;
    while i < words.len()
        invariant
            0 <= i <= words@.len(),
            ws == words@.map_values(|t: Vec<char>| t@),
            ws.len() == words@.len(),
            cands.deep_view() == norm_toks(ws.take(i as int)),
        decreases words@.len() - i,
    {
        let w = normalize_token(&words[i]);
        let ghost prev = cands.deep_view();
        if !w.as_str().is_empty() {
            cands.push(w);
            proof {
                assert(cands.deep_view() =~= prev.push(norm_token(ws[i as int])));
            }
        }
        proof {
            assert(ws.take(i as int + 1) =~= ws.take(i as int).push(ws[i as int]));
            lemma_norm_toks_push(ws.take(i as int), ws[i as int]);
            if norm_token(ws[i as int]).len() > 0 {
                assert(cands.deep_view() =~= norm_toks(ws.take(i as int)) + seq![
                    norm_token(ws[i as int]),
                ]);
            } else {
                assert(cands.deep_view() =~= norm_toks(ws.take(i as int)));
                assert(norm_toks(ws.take(i as int)) =~= norm_toks(ws.take(i as int))
                    + Seq::<Seq<char>>::empty());
            }
        }
        i = i + 1;
    }
    proof {
        assert(ws.take(ws.len() as int) =~= ws);
    }
    let full = str_lowercase(query);
    cands.push(full);
    proof {
        assert(cands.deep_view() =~= norm_toks(ws).push(lower_of(query@)));
    }
    let ghost all = cands.deep_view();
    let mut out: Vec<String> = Vec::new();
    let mut i: usize = 0;
    proof {
        assert(all.skip(0) =~= all);
        assert(out.deep_view() =~= Seq::<Seq<char>>::empty());
        assert(out.deep_view() + dedup_from(all.skip(0), out.deep_view()) =~= dedup_from(
            all,
            Seq::empty(),
        ));
    }
    while i < cands.len()
        invariant
            0 <= i <= cands@.len(),
            all == cands.deep_view(),
            all.len() == cands@.len(),
            forall|j: int| 0 <= j < cands@.len() ==> all[j] == (#[trigger] cands@[j])@,
            out.deep_view() + dedup_from(all.skip(i as int), out.deep_view()) == dedup_from(
                all,
                Seq::empty(),
            ),
        decreases cands@.len() - i,
    {
        let ghost prev = out.deep_view();
        proof {
            assert(all.skip(i as int)[0] == all[i as int]);
            assert(all.skip(i as int).drop_first() =~= all.skip(i as int + 1));
        }
        if !crate::keywords::contains_string(&out, &cands[i]) {
            let c = cands[i].clone();
            out.push(c);
            proof {
                assert(out.deep_view() =~= prev.push(all[i as int]));
                assert(prev + (seq![all[i as int]] + dedup_from(
                    all.skip(i as int + 1),
                    prev.push(all[i as int]),
                )) =~= out.deep_view() + dedup_from(all.skip(i as int + 1), out.deep_view()));
            }
        }
        i = i + 1;
    }
    proof {
        assert(all.skip(all.len() as int) =~= Seq::<Seq<char>>::empty());
        assert(out.deep_view() + Seq::<Seq<char>>::empty() =~= out.deep_view());
    }
    out
}

/// Collect the posting-list hits of every term, fuzzy then prefix matches
/// per term, in term order.
fn collect_hits(fst_bytes: &Vec<u8>, terms: &Vec<String>) -> (r: Result<Vec<u64>, SearchError>)
    requires
        terms@.len() > 0,
    ensures
        fst_parse(fst_bytes@) is None ==> (r is Err && r->Err_0 == SearchError::CorruptIndex),
        r is Ok ==> (fst_parse(fst_bytes@) is Some && (forall|i: int|
            0 <= i < terms.deep_view().len() ==> lev1_feasible(#[trigger] terms.deep_view()[i]))),
        (fst_safe(fst_bytes@) && fst_parse(fst_bytes@) is Some && (forall|i: int|
            0 <= i < terms.deep_view().len() ==> lev1_feasible(
                #[trigger] terms.deep_view()[i],
            ))) ==> r is Ok,
        fst_safe(fst_bytes@) ==> (r matches Ok(hits) ==> hits@ == all_hits(
            fst_parse(fst_bytes@).unwrap(),
            terms.deep_view(),
        )),
        r matches Err(e) ==> (e == SearchError::QueryTooComplex <==> (fst_parse(fst_bytes@)
            is Some && (exists|i: int|
            0 <= i < terms.deep_view().len() && !lev1_feasible(
                #[trigger] terms.deep_view()[i],
            )))),
{
    let mut hits: Vec<u64> = Vec::new();
    let ghost ts = terms.deep_view();
    let mut i: usize = 0;
    proof {
        assert(hits@ =~= Seq::<u64>::empty());
    }
    while i < terms.len()
        invariant
            0 <= i <= terms@.len(),
            ts == terms.deep_view(),
            ts.len() == terms@.len(),
            forall|j: int| 0 <= j < terms@.len() ==> ts[j] == (#[trigger] terms@[j])@,
            i > 0 ==> fst_parse(fst_bytes@) is Some,
            fst_safe(fst_bytes@) && i > 0 ==> hits@ == all_hits(
                fst_parse(fst_bytes@).unwrap(),
                ts.take(i as int),
            ),
            i == 0 ==> hits@ == Seq::<u64>::empty(),
            forall|j: int| 0 <= j < i ==> lev1_feasible(#[trigger] ts[j]),
        decreases terms@.len() - i,
    {
        let fz = match fst_fuzzy_hits(fst_bytes, &terms[i]) {
            Ok(v) => v,
            Err(e) => {
                proof {
                    if e == SearchError::QueryTooComplex {
                        assert(!lev1_feasible(ts[i as int]));
                    }
                }
                return Err(e);
            },
        };
        let pf = match fst_prefix_hits(fst_bytes, &terms[i]) {
            Ok(v) => v,
            Err(e) => {
                proof {
                    assert(false);
                }
                return Err(e);
            },
        };
        let ghost entries = fst_parse(fst_bytes@).unwrap();
        let ghost before = hits@;
        proof {
            if fst_safe(fst_bytes@) {
                assert(fz.deep_view() == entries.filter(
                    |e: (Seq<u8>, u64)| lev1_match(ts[i as int], e.0),
                ));
                assert(pf.deep_view() == entries.filter(
                    |e: (Seq<u8>, u64)| is_prefix(encode_utf8(ts[i as int]), e.0),
                ));
            }
        }
        let mut j: usize = 0;
        while j < fz.len()
            invariant
                0 <= j <= fz@.len(),
                fz.deep_view().len() == fz@.len(),
                forall|t: int|
                    0 <= t < fz@.len() ==> fz.deep_view()[t] == ((#[trigger] fz@[t]).0@, fz@[t].1),
                hits@ == before + fz.deep_view().take(j as int).map_values(
                    |e: (Seq<u8>, u64)| e.1,
                ),
            decreases fz@.len() - j,
        {
            hits.push(fz[j].1);
            proof {
                assert(fz.deep_view().take(j as int + 1) =~= fz.deep_view().take(j as int).push(
                    fz.deep_view()[j as int],
                ));
                assert(fz.deep_view().take(j as int + 1).map_values(|e: (Seq<u8>, u64)| e.1)
                    =~= fz.deep_view().take(j as int).map_values(|e: (Seq<u8>, u64)| e.1).push(
                    fz@[j as int].1,
                ));
                assert(hits@ =~= before + fz.deep_view().take(j as int + 1).map_values(
                    |e: (Seq<u8>, u64)| e.1,
                ));
            }
            j = j + 1;
        }
        let ghost mid = hits@;
        let mut j: usize = 0;
        while j < pf.len()
            invariant
                0 <= j <= pf@.len(),
                pf.deep_view().len() == pf@.len(),
                forall|t: int|
                    0 <= t < pf@.len() ==> pf.deep_view()[t] == ((#[trigger] pf@[t]).0@, pf@[t].1),
                hits@ == mid + pf.deep_view().take(j as int).map_values(
                    |e: (Seq<u8>, u64)| e.1,
                ),
            decreases pf@.len() - j,
        {
            hits.push(pf[j].1);
            proof {
                assert(pf.deep_view().take(j as int + 1) =~= pf.deep_view().take(j as int).push(
                    pf.deep_view()[j as int],
                ));
                assert(pf.deep_view().take(j as int + 1).map_values(|e: (Seq<u8>, u64)| e.1)
                    =~= pf.deep_view().take(j as int).map_values(|e: (Seq<u8>, u64)| e.1).push(
                    pf@[j as int].1,
                ));
                assert(hits@ =~= mid + pf.deep_view().take(j as int + 1).map_values(
                    |e: (Seq<u8>, u64)| e.1,
                ));
            }
            j = j + 1;
        }
        proof {
            assert(fz.deep_view().take(fz.deep_view().len() as int) =~= fz.deep_view());
            assert(pf.deep_view().take(pf.deep_view().len() as int) =~= pf.deep_view());
            if fst_safe(fst_bytes@) {
                assert(hits@ =~= before + term_hits(entries, ts[i as int]));
                if i == 0 {
                    assert(before =~= all_hits(entries, ts.take(0)) + Seq::<u64>::empty());
                    assert(all_hits(entries, ts.take(0)) == Seq::<u64>::empty());
                }
                lemma_all_hits_push(entries, ts.take(i as int), ts[i as int]);
                assert(ts.take(i as int + 1) =~= ts.take(i as int).push(ts[i as int]));
                assert(hits@ =~= all_hits(entries, ts.take(i as int + 1)));
            }
        }
        i = i + 1;
    }
    proof {
        if fst_safe(fst_bytes@) {
            assert(ts.take(ts.len() as int) =~= ts);
        }
    }
    Ok(hits)
}

proof fn lemma_all_hits_push(entries: Seq<(Seq<u8>, u64)>, terms: Seq<Seq<char>>, x: Seq<char>)
    ensures
        all_hits(entries, terms.push(x)) == all_hits(entries, terms) + term_hits(entries, x),
    decreases terms.len(),
{
    if terms.len() == 0 {
        assert(terms.push(x)[0] == x);
        assert(terms.push(x).drop_first() =~= Seq::<Seq<char>>::empty());
        assert(all_hits(entries, Seq::<Seq<char>>::empty()) == Seq::<u64>::empty());
        assert(all_hits(entries, terms.push(x)) =~= all_hits(entries, terms) + term_hits(
            entries,
            x,
        ));
    } else {
        assert(terms.push(x)[0] == terms[0]);
        assert(terms.push(x).drop_first() =~= terms.drop_first().push(x));
        lemma_all_hits_push(entries, terms.drop_first(), x);
        assert(all_hits(entries, terms.push(x)) =~= all_hits(entries, terms) + term_hits(
            entries,
            x,
        ));
    }
}

} // verus!

verus! {

/// Whether the ranked prefix of length `n` can be rebuilt from the column:
/// all four slots of each document exist and hold valid text.
pub open spec fn fetch_ok(col: FsstStrVec, ranked: Seq<(usize, u8)>, n: int) -> bool {
    forall|j: int|
        0 <= j < n ==> {
            let d = (#[trigger] ranked[j]).0;
            &&& 4 * d + 3 < col.spec_len()
            &&& valid_utf8(col.str_at(4 * d))
            &&& valid_utf8(col.str_at(4 * d + 1))
            &&& valid_utf8(col.str_at(4 * d + 2))
            &&& valid_utf8(col.str_at(4 * d + 3))
        }
}

/// The number of ranked entries that survive truncation to `k`.
pub open spec fn ranked_take(ranked: Seq<(usize, u8)>, k: int) -> int {
    if ranked.len() <= k {
        ranked.len() as int
    } else {
        k
    }
}

/// Merge the hit posting lists into ranked scores and rebuild the surviving
/// documents from the column.
///
/// Succeeds exactly when every hit references a posting list and the column
/// can rebuild every surviving document; the result is then the ranked
/// prefix, scores descending with ties in document order, rebuilt field by
/// field.
pub fn rank_and_fetch(index: &Index, hits: &Vec<u64>, max_results: usize) -> (r: Result<
    Vec<Document>,
    SearchError,
>)
    ensures
        ({
            let postings = index.keyword_to_documents.deep_view();
            let ranked = spec_ranked(postings, hits@);
            let n = ranked_take(ranked, max_results as int);
            &&& (r is Ok <==> hits_in_range(hits@, postings.len()) && fetch_ok(
                index.document_strings,
                ranked,
                n,
            ))
            &&& (r is Err ==> r->Err_0 == SearchError::CorruptIndex)
            &&& (r matches Ok(docs) ==> {
                &&& docs@.len() == n <= max_results
                &&& vstd::relations::sorted_by(ranked, rank_le())
                &&& forall|j: int|
                    0 <= j < n ==> {
                        let d = (#[trigger] ranked[j]).0;
                        &&& docs@[j].title@ == decode_utf8(index.document_strings.str_at(4 * d))
                        &&& docs@[j].category@ == decode_utf8(
                            index.document_strings.str_at(4 * d + 1),
                        )
                        &&& docs@[j].href@ == decode_utf8(
                            index.document_strings.str_at(4 * d + 2),
                        )
                        &&& docs@[j].body@ == decode_utf8(
                            index.document_strings.str_at(4 * d + 3),
                        )
                        &&& docs@[j].keywords is None
                    }
            })
        }),
{
    broadcast use vstd::seq_lib::group_to_multiset_ensures;

    let ghost postings = index.keyword_to_documents.deep_view();
    let ghost ranked = spec_ranked(postings, hits@);
    proof {
        candidates(hit_pairs(postings, hits@)).lemma_sort_by_ensures(rank_le());
        crate::order::lemma_rank_total();
    }
    let nlists = index.keyword_to_documents.len();
    let mut i: usize = 0;
    while i < hits.len()
        invariant
            0 <= i <= hits@.len(),
            nlists == index.keyword_to_documents@.len(),
            postings == index.keyword_to_documents.deep_view(),
            postings.len() == nlists,
            forall|t: int| 0 <= t < i ==> (#[trigger] hits@[t]) < nlists,
        decreases hits@.len() - i,
    {
        if hits[i] >= nlists as u64 {
            proof {
                assert(hits@[i as int] >= nlists);
                assert(postings.len() == index.keyword_to_documents@.len());
                assert(!(hits@[i as int] < postings.len()));
                assert(!hits_in_range(hits@, postings.len()));
            }
            return Err(SearchError::CorruptIndex);
        }
        i = i + 1;
    }
    proof {
        assert(hits_in_range(hits@, postings.len()));
    }

    // Accumulate saturating per-document scores over the hit lists.
    let mut acc: Vec<(usize, u8)> = Vec::new();
    let ghost mut pp = Seq::<(usize, u8)>::empty();
    proof {
        assert(docs_of(acc@) =~= dedup_docs_from(pp, Seq::empty()));
        assert(hit_pairs(postings, hits@.take(0)) =~= Seq::<(usize, u8)>::empty());
    }
    let mut i: usize = 0;
    while i < hits.len()
        invariant
            0 <= i <= hits@.len(),
            nlists == index.keyword_to_documents@.len(),
            postings == index.keyword_to_documents.deep_view(),
            postings.len() == nlists,
            hits_in_range(hits@, postings.len()),
            pp == hit_pairs(postings, hits@.take(i as int)),
            docs_of(acc@) == dedup_docs_from(pp, Seq::empty()),
            forall|t: int|
                0 <= t < acc@.len() ==> (#[trigger] acc@[t]).1 == sat255(
                    list_total(pp, acc@[t].0),
                ),
        decreases hits@.len() - i,
    {
        let h = hits[i] as usize;
        proof {
            assert(hits@[i as int] < nlists);
            assert(postings[hits@[i as int] as int] == index.keyword_to_documents@[h as int]@);
        }
        let list_len = index.keyword_to_documents[h].len();
        let mut m: usize = 0;
        while m < list_len
            invariant
                0 <= m <= list_len,
                h < index.keyword_to_documents@.len(),
                list_len == index.keyword_to_documents@[h as int]@.len(),
                docs_of(acc@) == dedup_docs_from(pp, Seq::empty()),
                forall|t: int|
                    0 <= t < acc@.len() ==> (#[trigger] acc@[t]).1 == sat255(
                        list_total(pp, acc@[t].0),
                    ),
                pp == hit_pairs(postings, hits@.take(i as int))
                    + index.keyword_to_documents@[h as int]@.take(m as int),
                postings == index.keyword_to_documents.deep_view(),
            decreases list_len - m,
        {
            let (d, s) = index.keyword_to_documents[h][m];
            accumulate_pair(&mut acc, d, s, Ghost(pp));
            proof {
                pp = pp.push((d, s));
                assert(index.keyword_to_documents@[h as int]@.take(m as int + 1)
                    =~= index.keyword_to_documents@[h as int]@.take(m as int).push((d, s)));
                assert(pp =~= hit_pairs(postings, hits@.take(i as int))
                    + index.keyword_to_documents@[h as int]@.take(m as int + 1));
            }
            m = m + 1;
        }
        proof {
            assert(index.keyword_to_documents@[h as int]@.take(list_len as int)
                =~= index.keyword_to_documents@[h as int]@);
            assert(hits@.take(i as int + 1) =~= hits@.take(i as int).push(hits@[i as int]));
            lemma_hit_pairs_push(postings, hits@.take(i as int), hits@[i as int]);
            assert(postings[hits@[i as int] as int] =~= index.keyword_to_documents@[h as int]@);
            assert(pp =~= hit_pairs(postings, hits@.take(i as int + 1)));
        }
        i = i + 1;
    }
    proof {
        assert(hits@.take(hits@.len() as int) =~= hits@);
        assert(acc@ =~= candidates(pp)) by {
            assert(candidates(pp).len() == dedup_docs_from(pp, Seq::empty()).len());
            assert(docs_of(acc@).len() == acc@.len());
            assert(forall|j: int|
                0 <= j < acc@.len() ==> (#[trigger] acc@[j]).0 == docs_of(acc@)[j]);
            assert(forall|j: int|
                0 <= j < candidates(pp).len() ==> #[trigger] candidates(pp)[j] == (
                    dedup_docs_from(pp, Seq::empty())[j],
                    sat255(list_total(pp, dedup_docs_from(pp, Seq::empty())[j])),
                ));
        }
    }

    // Rank: scores descending, ties by document index ascending.
    let mut ranked_v = sort_postings(acc);
    proof {
        vstd::seq_lib::lemma_sorted_unique(ranked_v@, ranked, rank_le());
        assert(ranked_v@ == ranked);
    }
    if ranked_v.len() > max_results {
        ranked_v.truncate(max_results);
        proof {
            assert(ranked_v@ =~= ranked.take(ranked_take(ranked, max_results as int)));
        }
    }
    proof {
        assert(ranked_v@ =~= ranked.take(ranked_take(ranked, max_results as int)));
    }

    // Rebuild the surviving documents from the column.
    let mut docs: Vec<Document> = Vec::new();
    let ghost n = ranked_take(ranked, max_results as int);
    let collen = index.document_strings.len();
    let mut j: usize = 0;
    while j < ranked_v.len()
        invariant
            0 <= j <= ranked_v@.len(),
            ranked_v@ == ranked.take(n),
            n == ranked_take(ranked, max_results as int),
            ranked == spec_ranked(postings, hits@),
            postings == index.keyword_to_documents.deep_view(),
            hits_in_range(hits@, postings.len()),
            collen == index.document_strings.spec_len(),
            docs@.len() == j,
            forall|t: int|
                0 <= t < j ==> {
                    let d = (#[trigger] ranked[t]).0;
                    &&& 4 * d + 3 < index.document_strings.spec_len()
                    &&& valid_utf8(index.document_strings.str_at(4 * d))
                    &&& valid_utf8(index.document_strings.str_at(4 * d + 1))
                    &&& valid_utf8(index.document_strings.str_at(4 * d + 2))
                    &&& valid_utf8(index.document_strings.str_at(4 * d + 3))
                },
            forall|t: int|
                0 <= t < j ==> {
                    let d = (#[trigger] ranked[t]).0;
                    &&& docs@[t].title@ == decode_utf8(index.document_strings.str_at(4 * d))
                    &&& docs@[t].category@ == decode_utf8(
                        index.document_strings.str_at(4 * d + 1),
                    )
                    &&& docs@[t].href@ == decode_utf8(index.document_strings.str_at(4 * d + 2))
                    &&& docs@[t].body@ == decode_utf8(index.document_strings.str_at(4 * d + 3))
                    &&& docs@[t].keywords is None
                },
        decreases ranked_v@.len() - j,
    {
        let d = ranked_v[j].0;
        proof {
            assert(ranked_v@[j as int] == ranked[j as int]);
        }
        if d > (usize::MAX - 3) / 4 {
            proof {
                assert(4 * (ranked[j as int].0 as int) + 3 > usize::MAX);
                assert(index.document_strings.spec_len() <= usize::MAX);
                assert(!fetch_ok(index.document_strings, ranked, n));
            }
            return Err(SearchError::CorruptIndex);
        }
        let title = match index.document_strings.get(4 * d) {
            Some(s) => s,
            None => {
                proof {
                    assert(!fetch_ok(index.document_strings, ranked, n));
                }
                return Err(SearchError::CorruptIndex);
            },
        };
        let category = match index.document_strings.get(4 * d + 1) {
            Some(s) => s,
            None => {
                proof {
                    assert(!fetch_ok(index.document_strings, ranked, n));
                }
                return Err(SearchError::CorruptIndex);
            },
        };
        let href = match index.document_strings.get(4 * d + 2) {
            Some(s) => s,
            None => {
                proof {
                    assert(!fetch_ok(index.document_strings, ranked, n));
                }
                return Err(SearchError::CorruptIndex);
            },
        };
        let body = match index.document_strings.get(4 * d + 3) {
            Some(s) => s,
            None => {
                proof {
                    assert(!fetch_ok(index.document_strings, ranked, n));
                }
                return Err(SearchError::CorruptIndex);
            },
        };
        docs.push(Document { title, category, href, body, keywords: None });
        j = j + 1;
    }
    Ok(docs)
}

/// When a query succeeds: the transducer parses, every term's fuzzy
/// automaton fits the state limit, every hit references a posting list, and
/// the column can rebuild every surviving document.
pub open spec fn search_ok(index: Index, q: Seq<char>, k: int) -> bool {
    &&& fst_parse(index.fst@) is Some
    &&& (forall|i: int|
        0 <= i < query_terms(q).len() ==> lev1_feasible(#[trigger] query_terms(q)[i]))
    &&& {
        let entries = fst_parse(index.fst@).unwrap();
        let postings = index.keyword_to_documents.deep_view();
        let hits = all_hits(entries, query_terms(q));
        let ranked = spec_ranked(postings, hits);
        &&& hits_in_range(hits, postings.len())
        &&& fetch_ok(index.document_strings, ranked, ranked_take(ranked, k))
    }
}

/// What a successful query returns: the ranked prefix of the canonical
/// scoring, each surviving document rebuilt field by field from the column.
pub open spec fn search_result(index: Index, q: Seq<char>, k: int, docs: Seq<Document>) -> bool {
    &&& fst_parse(index.fst@) is Some
    &&& {
        let entries = fst_parse(index.fst@).unwrap();
        let postings = index.keyword_to_documents.deep_view();
        let hits = all_hits(entries, query_terms(q));
        let ranked = spec_ranked(postings, hits);
        let n = ranked_take(ranked, k);
        &&& docs.len() == n <= k
        &&& sorted_by(ranked, rank_le())
        &&& forall|j: int|
            0 <= j < n ==> {
                let d = (#[trigger] ranked[j]).0;
                &&& docs[j].title@ == decode_utf8(index.document_strings.str_at(4 * d))
                &&& docs[j].category@ == decode_utf8(index.document_strings.str_at(4 * d + 1))
                &&& docs[j].href@ == decode_utf8(index.document_strings.str_at(4 * d + 2))
                &&& docs[j].body@ == decode_utf8(index.document_strings.str_at(4 * d + 3))
                &&& docs[j].keywords is None
            }
    }
}

/// Search the index: normalize the query into terms, match them fuzzily and
/// by prefix against the stored keywords, merge the posting lists with
/// saturating scores, rank, truncate, and rebuild the documents.
///
/// Succeeds exactly when the index is sound for this query and the terms fit
/// the fuzzy automaton; a successful result holds at most `max_results`
/// documents, ordered by score descending with ties in document order.
#[verifier::rlimit(50)]
pub fn search(index: &Index, query: &str, max_results: usize) -> (r: Result<
    Vec<Document>,
    SearchError,
>)
    ensures
        r is Ok ==> (fst_parse(index.fst@) is Some && (forall|i: int|
            0 <= i < query_terms(query@).len() ==> lev1_feasible(
                #[trigger] query_terms(query@)[i],
            ))),
        fst_safe(index.fst@) ==> (r is Ok <==> search_ok(*index, query@, max_results as int)),
        fst_safe(index.fst@) ==> (r matches Ok(docs) ==> search_result(
            *index,
            query@,
            max_results as int,
            docs@,
        )),
        r matches Err(e) && e == SearchError::QueryTooComplex ==> (fst_parse(index.fst@) is Some
            && (exists|i: int|
            0 <= i < query_terms(query@).len() && !lev1_feasible(
                #[trigger] query_terms(query@)[i],
            ))),
        fst_safe(index.fst@) ==> (r matches Err(e) ==> (e == SearchError::QueryTooComplex <==> (
        fst_parse(index.fst@) is Some && (exists|i: int|
            0 <= i < query_terms(query@).len() && !lev1_feasible(
                #[trigger] query_terms(query@)[i],
            ))))),
{
    let terms = collect_terms(query);
    proof {
        assert(terms.deep_view().len() > 0) by {
            let all = norm_toks(split_ws(query@)).push(lower_of(query@));
            assert(all.len() > 0);
            if !has_str(Seq::<Seq<char>>::empty(), all[0]) {
                assert(query_terms(query@)[0] == all[0]);
            }
        }
        assert(terms@.len() == terms.deep_view().len());
    }
    let hits = match collect_hits(&index.fst, &terms) {
        Ok(h) => h,
        Err(e) => {
            proof {
                if e == SearchError::QueryTooComplex {
                    let i = choose|i: int|
                        0 <= i < terms.deep_view().len() && !lev1_feasible(
                            #[trigger] terms.deep_view()[i],
                        );
                    assert(!lev1_feasible(query_terms(query@)[i]));
                }
                if fst_safe(index.fst@) {
                    assert(!search_ok(*index, query@, max_results as int));
                    if fst_parse(index.fst@) is Some && (exists|i: int|
                        0 <= i < query_terms(query@).len() && !lev1_feasible(
                            #[trigger] query_terms(query@)[i],
                        )) {
                        assert(e == SearchError::QueryTooComplex);
                    }
                }
            }
            return Err(e);
        },
    };
    let r = rank_and_fetch(index, &hits, max_results);
    proof {
        assert(terms.deep_view() == query_terms(query@));
        if fst_safe(index.fst@) {
            assert(hits@ == all_hits(fst_parse(index.fst@).unwrap(), query_terms(query@)));
            if r is Err {
                assert(!search_ok(*index, query@, max_results as int));
                assert(r->Err_0 == SearchError::CorruptIndex);
            }
            if r is Ok {
                assert(search_ok(*index, query@, max_results as int));
                assert(search_result(*index, query@, max_results as int, r.unwrap()@));
            }
        }
    }
    r
}

} // verus!
