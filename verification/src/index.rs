//! The index and its construction: keyword extraction per document, a sorted
//! keyword-to-postings map behind a finite-state transducer, and the
//! compressed column of all document strings.

use vstd::prelude::*;
use vstd::relations::sorted_by;
use vstd::seq_lib::{to_multiset_build, to_multiset_insert, to_multiset_remove};
use vstd::utf8::encode_utf8;

use crate::column::FsstStrVec;
use crate::fst_map::{fst_builder_model, fst_builder_new, fst_finish, fst_insert, fst_parse,
    fst_safe, BuildError};
use crate::keywords::{extract_keywords, rake_keywords};
use crate::text::lower_of;
use crate::order::{bytes_eq, bytes_leq, lemma_lex_connected, lemma_lex_trans, lex_leq, lex_lt,
    rank_le, sort_postings};

verus! {

/// One searchable document.
#[derive(Debug, Clone)]
pub struct Document {
    pub title: String,
    pub category: String,
    pub href: String,
    pub body: String,
    pub keywords: Option<Vec<String>>,
}

/// The search index: serialized keyword transducer, compressed string
/// column, and one posting list per keyword.
#[derive(Debug)]
pub struct Index {
    /// Serialized transducer mapping each keyword to a posting-list index.
    pub fst: Vec<u8>,
    /// The four strings of each document, in document order.
    pub document_strings: FsstStrVec,
    /// Posting lists, each sorted by score descending then document index
    /// ascending.
    pub keyword_to_documents: Vec<Vec<(usize, u8)>>,
}

/// One keyword's entry while the index is being built: the keyword's bytes
/// and the documents it scored in.
type KeyEntry = (Vec<u8>, Vec<(usize, u8)>);

/// What the builder guarantees of a finished index over `ndocs` documents:
/// the transducer parses to one entry per posting list, its values are the
/// dense list positions, its keys strictly ascend, and every posting list is
/// non-empty, sorted, and within document range.
pub open spec fn index_postings_wf(idx: Index, ndocs: nat) -> bool {
    &&& fst_parse(idx.fst@) is Some
    &&& {
        let entries = fst_parse(idx.fst@).unwrap();
        &&& entries.len() == idx.keyword_to_documents@.len()
        &&& forall|k: int| 0 <= k < entries.len() ==> (#[trigger] entries[k].1) == k as u64
        &&& forall|k1: int, k2: int|
            0 <= k1 < k2 < entries.len() ==> lex_lt(
                #[trigger] entries[k1].0,
                #[trigger] entries[k2].0,
            )
    }
    &&& forall|k: int|
        0 <= k < idx.keyword_to_documents@.len() ==> (#[trigger] idx.keyword_to_documents@[k])@.len()
            > 0
    &&& forall|k: int|
        0 <= k < idx.keyword_to_documents@.len() ==> sorted_by(
            (#[trigger] idx.keyword_to_documents@[k])@,
            rank_le(),
        )
    &&& forall|k: int, m: int|
        0 <= k < idx.keyword_to_documents@.len() && 0 <= m
            < idx.keyword_to_documents@[k]@.len() ==> (#[trigger] idx.keyword_to_documents@[k]@[m]).0
            < ndocs
}

/// The extracted keyword list of document `d` under the given stop words
/// and phrase-scorer output.
pub open spec fn doc_kws(d: Document, stops: Seq<Seq<char>>, rake: Seq<(Seq<char>, u8)>) -> Seq<
    (Seq<char>, u8),
> {
    crate::keywords::spec_extract(
        d.title@,
        match d.keywords {
            Some(ks) => Some(ks.deep_view()),
            None => None,
        },
        stops,
        rake,
    )
}

/// Whether some transducer entry maps the keyword `w.0` to a posting list
/// scoring document `d` with `w.1`.
pub open spec fn indexed_has(
    entries: Seq<(Seq<u8>, u64)>,
    postings: Seq<Seq<(usize, u8)>>,
    d: int,
    w: (Seq<char>, u8),
) -> bool {
    exists|k: int|
        0 <= k < entries.len() && (#[trigger] entries[k]).0 == encode_utf8(w.0)
            && postings[k].contains((d as usize, w.1))
}

/// Whether document `d` has an extracted keyword with key `key` and score
/// `s` in the per-document keyword lists `exd`.
pub open spec fn from_doc(exd: Seq<Seq<(Seq<char>, u8)>>, key: Seq<u8>, d: usize, s: u8) -> bool {
    &&& (d as int) < exd.len()
    &&& exists|j: int|
        0 <= j < exd[d as int].len() && encode_utf8((#[trigger] exd[d as int][j]).0) == key
            && exd[d as int][j].1 == s
}

/// The keyword-level correspondence between the input documents and the
/// finished index: every extracted keyword of every document scores that
/// document in the posting list its transducer key points to, and every
/// posting entry is accounted for by an extracted keyword of its document.
pub open spec fn postings_match_extraction(
    docs: Seq<Document>,
    stops: Seq<Seq<char>>,
    rakes: Seq<Seq<(Seq<char>, u8)>>,
    entries: Seq<(Seq<u8>, u64)>,
    postings: Seq<Seq<(usize, u8)>>,
) -> bool {
    let exd = Seq::new(docs.len(), |d: int| doc_kws(docs[d], stops, rakes[d]));
    &&& rakes.len() == docs.len()
    &&& entries.len() == postings.len()
    &&& forall|d: int, j: int|
        0 <= d < exd.len() && 0 <= j < exd[d].len() ==> indexed_has(
            entries,
            postings,
            d,
            #[trigger] exd[d][j],
        )
    &&& forall|k: int, t: int|
        0 <= k < postings.len() && 0 <= t < postings[k].len() ==> from_doc(
            exd,
            entries[k].0,
            (#[trigger] postings[k][t]).0,
            postings[k][t].1,
        )
}

/// The first index at or after `i` holding a newline, or the length if
/// there is none.
pub open spec fn first_nl(s: Seq<char>, i: int) -> int
    decreases s.len() - i,
{
    if i < 0 || i >= s.len() {
        s.len() as int
    } else if s[i] == '\n' {
        i
    } else {
        first_nl(s, i + 1)
    }
}

proof fn lemma_first_nl(s: Seq<char>, i: int)
    requires
        0 <= i <= s.len(),
    ensures
        i <= first_nl(s, i) <= s.len(),
        forall|j: int| i <= j < first_nl(s, i) ==> s[j] != '\n',
        first_nl(s, i) < s.len() ==> s[first_nl(s, i)] == '\n',
    decreases s.len() - i,
{
    if i < s.len() && s[i] != '\n' {
        lemma_first_nl(s, i + 1);
    }
}

/// A line with one trailing carriage return removed.
pub open spec fn line_clean(l: Seq<char>) -> Seq<char> {
    if l.len() > 0 && l.last() == '\r' {
        l.drop_last()
    } else {
        l
    }
}

/// The stop words read from the text starting at `i`: one word per line,
/// blank lines and `#`-prefixed lines ignored, each word lower-cased.
pub open spec fn stops_from(s: Seq<char>, i: int) -> Seq<Seq<char>>
    decreases s.len() + 1 - i,
    when true
    via stops_from_decreases
{
    if i < 0 || i >= s.len() {
        Seq::empty()
    } else {
        let line = line_clean(s.subrange(i, first_nl(s, i)));
        (if line.len() > 0 && line[0] != '#' {
            seq![lower_of(line)]
        } else {
            Seq::empty()
        }) + stops_from(s, first_nl(s, i) + 1)
    }
}

#[via_fn]
proof fn stops_from_decreases(s: Seq<char>, i: int) {
    if 0 <= i < s.len() {
        lemma_first_nl(s, i);
    }
}

/// The stop words of a whole stop-word file.
pub open spec fn stops_of_text(s: Seq<char>) -> Seq<Seq<char>> {
    stops_from(s, 0)
}

/// Parse a stop-word file: one word per line, blank lines and `#`-prefixed
/// comment lines ignored, words lower-cased.
pub fn parse_stop_words(text: &str) -> (r: Vec<String>)
    ensures
        r.deep_view() == stops_of_text(text@),
{
    let cv = crate::text::str_chars(text);
    let n = cv.len();
    let mut out: Vec<String> = Vec::new();
    let mut i: usize = 0;
    while i < n
        invariant
            0 <= i <= n,
            n == cv@.len(),
            cv@ == text@,
            out.deep_view() + stops_from(cv@, i as int) == stops_of_text(cv@),
        decreases n - i,
    {
        let mut j = i;
        while j < n && cv[j] != '\n'
            invariant
                i <= j <= n == cv@.len(),
                forall|t: int| i <= t < j ==> cv@[t] != '\n',
            decreases n - j,
        {
            j = j + 1;
        }
        proof {
            lemma_first_nl(cv@, i as int);
            assert(first_nl(cv@, i as int) == j) by {
                if first_nl(cv@, i as int) < j {
                    assert(cv@[first_nl(cv@, i as int)] != '\n');
                }
                if j < first_nl(cv@, i as int) {
                    assert(j < cv@.len() && cv@[j as int] != '\n');
                }
            }
        }
        let mut line: Vec<char> = Vec::new();
        let mut t = i;
        while t < j
            invariant
                i <= t <= j <= cv@.len(),
                line@ =~= cv@.subrange(i as int, t as int),
            decreases j - t,
        {
            line.push(cv[t]);
            t = t + 1;
        }
        if line.len() > 0 && line[line.len() - 1] == '\r' {
            line.pop();
        }
        proof {
            assert(line@ =~= line_clean(cv@.subrange(i as int, j as int)));
        }
        let ghost prev = out.deep_view();
        if line.len() > 0 && line[0] != '#' {
            let w = crate::text::str_lowercase(
                crate::text::chars_to_string(&line).as_str(),
            );
            out.push(w);
            proof {
                assert(out.deep_view() =~= prev.push(
                    lower_of(line_clean(cv@.subrange(i as int, j as int))),
                ));
                assert(prev.push(lower_of(line_clean(cv@.subrange(i as int, j as int))))
                    + stops_from(cv@, j as int + 1) =~= prev + (seq![
                    lower_of(line_clean(cv@.subrange(i as int, j as int))),
                ] + stops_from(cv@, j as int + 1)));
            }
        }
        if j < n {
            i = j + 1;
        } else {
            proof {
                assert(stops_from(cv@, n as int) =~= stops_from(cv@, n as int + 1));
            }
            i = n;
        }
    }
    proof {
        assert(stops_from(cv@, i as int) =~= Seq::<Seq<char>>::empty());
        assert(out.deep_view() + Seq::<Seq<char>>::empty() =~= out.deep_view());
    }
    out
}

/// The built-in stop words, in order.
pub open spec fn stop_list() -> Seq<Seq<char>> {
    seq!["a"@, "about"@, "above"@, "after"@, "again"@, "against"@, "all"@, "am"@, "an"@, "and"@, "any"@, "are"@, "as"@, "at"@] + seq!["be"@, "because"@, "been"@, "before"@, "being"@, "below"@, "between"@, "both"@, "but"@, "by"@, "can"@, "cannot"@, "could"@, "did"@] + seq!["do"@, "does"@, "doing"@, "down"@, "during"@, "each"@, "few"@, "for"@, "from"@, "further"@, "had"@, "has"@, "have"@, "having"@] + seq!["he"@, "her"@, "here"@, "hers"@, "herself"@, "him"@, "himself"@, "his"@, "how"@, "i"@, "if"@, "in"@, "into"@, "is"@] + seq!["it"@, "its"@, "itself"@, "just"@, "me"@, "more"@, "most"@, "my"@, "myself"@, "no"@, "nor"@, "not"@, "now"@, "of"@] + seq!["off"@, "on"@, "once"@, "only"@, "or"@, "other"@, "our"@, "ours"@, "ourselves"@, "out"@, "over"@, "own"@, "same"@, "she"@] + seq!["should"@, "so"@, "some"@, "such"@, "than"@, "that"@, "the"@, "their"@, "theirs"@, "them"@, "themselves"@, "then"@, "there"@, "these"@] + seq!["they"@, "this"@, "those"@, "through"@, "to"@, "too"@, "under"@, "until"@, "up"@, "very"@, "was"@, "we"@, "were"@, "what"@] + seq!["when"@, "where"@, "which"@, "while"@, "who"@, "whom"@, "why"@, "will"@, "with"@, "would"@, "you"@, "your"@, "yours"@, "yourself"@] + seq!["yourselves"@]
}

/// The default English stop-word list for keyword extraction: exactly the
/// words of [`stop_list`], in order.
pub fn default_stop_words() -> (r: Vec<String>)
    ensures
        r.deep_view() == stop_list(),
{
    let raw: Vec<&str> = vec![
        "a", "about", "above", "after", "again", "against", "all", "am", "an", "and", "any",
        "are", "as", "at", "be", "because", "been", "before", "being", "below", "between", "both",
        "but", "by", "can", "cannot", "could", "did", "do", "does", "doing", "down", "during",
        "each", "few", "for", "from", "further", "had", "has", "have", "having", "he", "her",
        "here", "hers", "herself", "him", "himself", "his", "how", "i", "if", "in", "into",
        "is", "it", "its", "itself", "just", "me", "more", "most", "my", "myself", "no",
        "nor", "not", "now", "of", "off", "on", "once", "only", "or", "other", "our",
        "ours", "ourselves", "out", "over", "own", "same", "she", "should", "so", "some", "such",
        "than", "that", "the", "their", "theirs", "them", "themselves", "then", "there", "these", "they",
        "this", "those", "through", "to", "too", "under", "until", "up", "very", "was", "we",
        "were", "what", "when", "where", "which", "while", "who", "whom", "why", "will", "with",
        "would", "you", "your", "yours", "yourself", "yourselves",
    ];
    proof {
        assert(raw@.map_values(|s: &str| s@) =~= stop_list());
    }
    let mut out: Vec<String> = Vec::new();
    let mut i: usize = 0;
    while i < raw.len()
        invariant
            0 <= i <= raw@.len(),
            raw@.map_values(|s: &str| s@) == stop_list(),
            raw@.len() == stop_list().len(),
            out.deep_view() == stop_list().take(i as int),
        decreases raw@.len() - i,
    {
        let ghost prev = out.deep_view();
        out.push(raw[i].to_owned());
        proof {
            assert(out.deep_view() =~= prev.push(raw@[i as int]@));
            assert(raw@[i as int]@ == stop_list()[i as int]);
            assert(out.deep_view() =~= stop_list().take(i as int + 1));
        }
        i = i + 1;
    }
    proof {
        assert(stop_list().take(stop_list().len() as int) =~= stop_list());
    }
    out
}

/// Whether the keys of `m` are pairwise distinct byte strings.
pub open spec fn distinct_keys(m: Seq<KeyEntry>) -> bool {
    forall|p: int, q: int| 0 <= p < q < m.len() ==> (#[trigger] m[p]).0@ != (#[trigger] m[q]).0@
}

/// Whether every entry of `m` has a non-empty list whose document indices
/// lie below `ndocs`.
pub open spec fn entries_in_range(m: Seq<KeyEntry>, ndocs: nat) -> bool {
    forall|k: int|
        0 <= k < m.len() ==> ((#[trigger] m[k]).1@.len() > 0 && forall|j: int|
            0 <= j < m[k].1@.len() ==> (#[trigger] m[k].1@[j]).0 < ndocs)
}

/// The key comparison on keyword entries, as a relation value.
pub open spec fn entry_le() -> spec_fn(KeyEntry, KeyEntry) -> bool {
    |a: KeyEntry, b: KeyEntry| lex_leq(a.0@, b.0@)
}

/// Find the entry of `m` whose key equals `w`.
fn find_key(m: &Vec<KeyEntry>, w: &Vec<u8>) -> (r: Option<usize>)
    ensures
        match r {
            Some(k) => k < m@.len() && m@[k as int].0@ == w@,
            None => forall|k: int| 0 <= k < m@.len() ==> (#[trigger] m@[k]).0@ != w@,
        },
{
    let mut k: usize = 0;
    while k < m.len()
        invariant
            0 <= k <= m@.len(),
            forall|j: int| 0 <= j < k ==> (#[trigger] m@[j]).0@ != w@,
        decreases m@.len() - k,
    {
        if bytes_eq(&m[k].0, w) {
            return Some(k);
        }
        k = k + 1;
    }
    None
}

/// Copy a posting list; entries are plain pairs.
fn copy_posting_list(v: &Vec<(usize, u8)>) -> (r: Vec<(usize, u8)>)
    ensures
        r@ == v@,
{
    let mut r: Vec<(usize, u8)> = Vec::new();
    let mut i: usize = 0;
    while i < v.len()
        invariant
            0 <= i <= v@.len(),
            r@ =~= v@.take(i as int),
        decreases v@.len() - i,
    {
        r.push(v[i]);
        i = i + 1;
    }
    proof {
        assert(r@ =~= v@);
    }
    r
}

/// Sort keyword entries by key, byte-lexicographically.
fn sort_entries(v: Vec<KeyEntry>) -> (r: Vec<KeyEntry>)
    ensures
        sorted_by(r@, entry_le()),
        r@.to_multiset() == v@.to_multiset(),
{
    broadcast use vstd::multiset::group_multiset_axioms;

    let mut v = v;
    let mut r: Vec<KeyEntry> = Vec::new();
    let ghost orig = v@;
    proof {
        r@.to_multiset_ensures();
        orig.to_multiset_ensures();
        assert(r@.to_multiset().len() == 0);
        assert(r@.to_multiset().add(v@.to_multiset()) =~= orig.to_multiset());
    }
    while v.len() > 0
        invariant
            sorted_by(r@, entry_le()),
            r@.to_multiset().add(v@.to_multiset()) == orig.to_multiset(),
        decreases v@.len(),
    {
        let ghost old_v = v@;
        let x = v.remove(0);
        proof {
            to_multiset_remove(old_v, 0);
            old_v.to_multiset_ensures();
            assert(old_v.contains(x));
            assert(old_v.to_multiset().count(x) > 0);
        }
        let mut j: usize = 0;
        while j < r.len() && bytes_leq(&r[j].0, &x.0)
            invariant
                0 <= j <= r@.len(),
                forall|k: int| 0 <= k < j ==> entry_le()(#[trigger] r@[k], x),
            decreases r@.len() - j,
        {
            j = j + 1;
        }
        let ghost old_r = r@;
        proof {
            if j < old_r.len() {
                assert(!lex_leq(old_r[j as int].0@, x.0@));
                lemma_lex_connected(old_r[j as int].0@, x.0@);
                assert(lex_leq(x.0@, old_r[j as int].0@));
            }
        }
        r.insert(j, x);
        proof {
            assert forall|p: int, q: int| 0 <= p < q < r@.len() implies entry_le()(
                #[trigger] r@[p],
                #[trigger] r@[q],
            ) by {
                if q < j {
                    assert(r@[p] == old_r[p] && r@[q] == old_r[q]);
                } else if p > j {
                    assert(r@[p] == old_r[p - 1] && r@[q] == old_r[q - 1]);
                } else if p < j && q == j {
                    assert(r@[p] == old_r[p] && r@[q] == x);
                } else if p == j && q > j {
                    assert(r@[p] == x && r@[q] == old_r[q - 1]);
                    assert(lex_leq(x.0@, old_r[j as int].0@));
                    if q - 1 > j {
                        assert(entry_le()(old_r[j as int], old_r[q - 1]));
                        lemma_lex_trans(x.0@, old_r[j as int].0@, old_r[q - 1].0@);
                    }
                } else if p < j && q > j {
                    assert(r@[p] == old_r[p] && r@[q] == old_r[q - 1]);
                    assert(lex_leq(old_r[p].0@, x.0@));
                    assert(lex_leq(x.0@, old_r[j as int].0@));
                    if q - 1 > j {
                        assert(entry_le()(old_r[j as int], old_r[q - 1]));
                        lemma_lex_trans(x.0@, old_r[j as int].0@, old_r[q - 1].0@);
                    }
                    lemma_lex_trans(old_r[p].0@, x.0@, old_r[q - 1].0@);
                }
            }
            to_multiset_insert(old_r, j as int, x);
            assert(r@.to_multiset().add(v@.to_multiset()) =~= orig.to_multiset());
        }
    }
    proof {
        v@.to_multiset_ensures();
        assert(v@.to_multiset().len() == 0);
        assert(r@.to_multiset() =~= r@.to_multiset().add(v@.to_multiset()));
    }
    r
}

/// A permutation of keyword entries keeps keys distinct.
proof fn lemma_perm_distinct(a: Seq<KeyEntry>, b: Seq<KeyEntry>)
    requires
        a.to_multiset() == b.to_multiset(),
        distinct_keys(a),
    ensures
        distinct_keys(b),
{
    broadcast use vstd::multiset::group_multiset_axioms;

    a.to_multiset_ensures();
    b.to_multiset_ensures();
    assert forall|p: int, q: int| 0 <= p < q < b.len() implies (#[trigger] b[p]).0@ != (
    #[trigger] b[q]).0@ by {
        if b[p] == b[q] {
            let bp = b.remove(p);
            to_multiset_remove(b, p);
            bp.to_multiset_ensures();
            assert(bp[q - 1] == b[q]);
            assert(bp.contains(b[q]));
            assert(bp.to_multiset().count(b[q]) > 0);
            assert(b.to_multiset().count(b[q]) >= 2);
            assert(a.to_multiset().count(b[q]) >= 2);
            assert(a.contains(b[q]));
            let i1 = choose|i: int| 0 <= i < a.len() && a[i] == b[q];
            let ar = a.remove(i1);
            to_multiset_remove(a, i1);
            ar.to_multiset_ensures();
            assert(ar.to_multiset().count(b[q]) >= 1);
            assert(ar.contains(b[q]));
            let i2 = choose|i: int| 0 <= i < ar.len() && ar[i] == b[q];
            if i2 < i1 {
                assert(a[i2] == ar[i2]);
                assert(a[i2].0@ == a[i1].0@);
            } else {
                assert(a[i2 + 1] == ar[i2]);
                assert(a[i2 + 1].0@ == a[i1].0@);
            }
        } else {
            assert(b.contains(b[p]) && b.contains(b[q]));
            assert(a.to_multiset().count(b[p]) > 0 && a.to_multiset().count(b[q]) > 0);
            assert(a.contains(b[p]) && a.contains(b[q]));
            let i1 = choose|i: int| 0 <= i < a.len() && a[i] == b[p];
            let i2 = choose|i: int| 0 <= i < a.len() && a[i] == b[q];
            assert(i1 != i2);
            if b[p].0@ == b[q].0@ {
                assert(a[i1].0@ == a[i2].0@);
                assert(false);
            }
        }
    }
}

/// A permutation of keyword entries keeps every list non-empty and within
/// document range.
proof fn lemma_perm_range(a: Seq<KeyEntry>, b: Seq<KeyEntry>, ndocs: nat)
    requires
        a.to_multiset() == b.to_multiset(),
        entries_in_range(a, ndocs),
    ensures
        entries_in_range(b, ndocs),
{
    broadcast use vstd::multiset::group_multiset_axioms;

    a.to_multiset_ensures();
    b.to_multiset_ensures();
    assert forall|k: int| 0 <= k < b.len() implies ((#[trigger] b[k]).1@.len() > 0 && forall|j: int|
        0 <= j < b[k].1@.len() ==> (#[trigger] b[k].1@[j]).0 < ndocs) by {
        assert(b.contains(b[k]));
        assert(a.to_multiset().count(b[k]) > 0);
        assert(a.contains(b[k]));
        let i = choose|i: int| 0 <= i < a.len() && a[i] == b[k];
        assert(a[i].1@.len() > 0);
    }
}

/// A permutation of a posting list keeps its length and document range.
proof fn lemma_perm_postings(a: Seq<(usize, u8)>, b: Seq<(usize, u8)>, ndocs: nat)
    requires
        a.to_multiset() == b.to_multiset(),
        forall|j: int| 0 <= j < a.len() ==> (#[trigger] a[j]).0 < ndocs,
    ensures
        b.len() == a.len(),
        forall|j: int| 0 <= j < b.len() ==> (#[trigger] b[j]).0 < ndocs,
{
    broadcast use vstd::multiset::group_multiset_axioms;

    a.to_multiset_ensures();
    b.to_multiset_ensures();
    assert forall|j: int| 0 <= j < b.len() implies (#[trigger] b[j]).0 < ndocs by {
        assert(b.contains(b[j]));
        assert(a.to_multiset().count(b[j]) > 0);
        assert(a.contains(b[j]));
        let i = choose|i: int| 0 <= i < a.len() && a[i] == b[j];
        assert(a[i].0 < ndocs);
    }
}

/// Whether some accumulator entry holds the keyword `w.0` scoring document
/// `d` with `w.1`.
pub open spec fn map_has(m: Seq<KeyEntry>, d: int, w: (Seq<char>, u8)) -> bool {
    exists|k: int|
        0 <= k < m.len() && (#[trigger] m[k]).0@ == encode_utf8(w.0) && m[k].1@.contains(
            (d as usize, w.1),
        )
}

/// Completeness at the accumulator level: every extracted keyword of every
/// document so far has an entry whose list scores that document.
pub open spec fn map_complete(exd: Seq<Seq<(Seq<char>, u8)>>, m: Seq<KeyEntry>) -> bool {
    forall|d: int, j: int|
        0 <= d < exd.len() && 0 <= j < exd[d].len() ==> map_has(m, d, #[trigger] exd[d][j])
}

/// Soundness at the accumulator level: every accumulated posting pair comes
/// from an extracted keyword of its document, under the entry's key.
pub open spec fn map_sound(exd: Seq<Seq<(Seq<char>, u8)>>, m: Seq<KeyEntry>) -> bool {
    forall|k: int, t: int|
        0 <= k < m.len() && 0 <= t < m[k].1@.len() ==> from_doc(
            exd,
            m[k].0@,
            (#[trigger] m[k].1@[t]).0,
            m[k].1@[t].1,
        )
}

/// A permutation of a posting list holds the same pairs.
proof fn lemma_perm_contains(a: Seq<(usize, u8)>, b: Seq<(usize, u8)>)
    requires
        a.to_multiset() == b.to_multiset(),
    ensures
        forall|x: (usize, u8)| #[trigger] a.contains(x) <==> #[trigger] b.contains(x),
{
    broadcast use vstd::multiset::group_multiset_axioms;

    a.to_multiset_ensures();
    b.to_multiset_ensures();
    assert forall|x: (usize, u8)| #[trigger] a.contains(x) <==> #[trigger] b.contains(x) by {
        assert(a.contains(x) <==> a.to_multiset().count(x) > 0);
        assert(b.contains(x) <==> b.to_multiset().count(x) > 0);
    }
}

/// A permutation of keyword entries keeps both directions of the
/// keyword-to-posting correspondence.
proof fn lemma_perm_matches(exd: Seq<Seq<(Seq<char>, u8)>>, a: Seq<KeyEntry>, b: Seq<KeyEntry>)
    requires
        a.to_multiset() == b.to_multiset(),
        map_complete(exd, a),
        map_sound(exd, a),
    ensures
        map_complete(exd, b),
        map_sound(exd, b),
{
    broadcast use vstd::multiset::group_multiset_axioms;

    a.to_multiset_ensures();
    b.to_multiset_ensures();
    assert forall|d: int, j: int|
        0 <= d < exd.len() && 0 <= j < exd[d].len() implies map_has(
        b,
        d,
        #[trigger] exd[d][j],
    ) by {
        let w = exd[d][j];
        assert(map_has(a, d, w));
        let k0 = choose|k: int|
            0 <= k < a.len() && (#[trigger] a[k]).0@ == encode_utf8(w.0) && a[k].1@.contains(
                (d as usize, w.1),
            );
        assert(a.contains(a[k0]));
        assert(b.to_multiset().count(a[k0]) > 0);
        assert(b.contains(a[k0]));
        let k1 = choose|k: int| 0 <= k < b.len() && b[k] == a[k0];
        assert(0 <= k1 < b.len() && b[k1].0@ == encode_utf8(w.0) && b[k1].1@.contains(
            (d as usize, w.1),
        ));
    }
    assert forall|k: int, t: int|
        0 <= k < b.len() && 0 <= t < b[k].1@.len() implies from_doc(
        exd,
        b[k].0@,
        (#[trigger] b[k].1@[t]).0,
        b[k].1@[t].1,
    ) by {
        assert(b.contains(b[k]));
        assert(a.to_multiset().count(b[k]) > 0);
        assert(a.contains(b[k]));
        let k0 = choose|kk: int| 0 <= kk < a.len() && a[kk] == b[k];
        assert(0 <= t < a[k0].1@.len());
        assert(from_doc(exd, a[k0].0@, a[k0].1@[t].0, a[k0].1@[t].1));
    }
}

/// Build a search index over `documents` with the given stop words.
///
/// The column holds the four strings of each document in order; the
/// transducer maps each extracted keyword to a dense posting-list index, keys
/// strictly ascending; every posting list is non-empty, sorted by score
/// descending with ties broken by document index ascending, and references
/// only in-range documents; and the keywords are exactly those the
/// extraction rules produce under the given stop words.
pub fn build_index_with_stops(documents: Vec<Document>, stops: Vec<String>) -> (r: Result<
    Index,
    BuildError,
>)
    ensures
        r is Ok,
        r matches Ok(idx) ==> {
            &&& idx.document_strings.spec_len() == 4 * documents@.len()
            &&& forall|i: int|
                0 <= i < documents@.len() ==> #[trigger] idx.document_strings.str_at(4 * i)
                    == encode_utf8(documents@[i].title@)
            &&& forall|i: int|
                0 <= i < documents@.len() ==> #[trigger] idx.document_strings.str_at(4 * i + 1)
                    == encode_utf8(documents@[i].category@)
            &&& forall|i: int|
                0 <= i < documents@.len() ==> #[trigger] idx.document_strings.str_at(4 * i + 2)
                    == encode_utf8(documents@[i].href@)
            &&& forall|i: int|
                0 <= i < documents@.len() ==> #[trigger] idx.document_strings.str_at(4 * i + 3)
                    == encode_utf8(documents@[i].body@)
            &&& index_postings_wf(idx, documents@.len())
            &&& fst_safe(idx.fst@)
            &&& (exists|rakes: Seq<Seq<(Seq<char>, u8)>>|
                postings_match_extraction(
                    documents@,
                    stops.deep_view(),
                    rakes,
                    fst_parse(idx.fst@).unwrap(),
                    idx.keyword_to_documents.deep_view(),
                ))
        },
{
    let ghost stopsv = stops.deep_view();
    let ghost mut exd: Seq<Seq<(Seq<char>, u8)>> = Seq::empty();
    let ghost mut rks: Seq<Seq<(Seq<char>, u8)>> = Seq::empty();
    let ndocs = documents.len();

    // Flatten the four strings of each document, in order.
    let mut strings: Vec<String> = Vec::new();
    let mut i: usize = 0;
    while i < ndocs
        invariant
            ndocs == documents@.len(),
            strings@.len() == 4 * i,
            0 <= i <= ndocs,
            forall|j: int|
                0 <= j < i ==> (#[trigger] strings@[4 * j])@ == documents@[j].title@,
            forall|j: int|
                0 <= j < i ==> (#[trigger] strings@[4 * j + 1])@ == documents@[j].category@,
            forall|j: int|
                0 <= j < i ==> (#[trigger] strings@[4 * j + 2])@ == documents@[j].href@,
            forall|j: int|
                0 <= j < i ==> (#[trigger] strings@[4 * j + 3])@ == documents@[j].body@,
        decreases ndocs - i,
    {
        strings.push(documents[i].title.clone());
        strings.push(documents[i].category.clone());
        strings.push(documents[i].href.clone());
        strings.push(documents[i].body.clone());
        i = i + 1;
    }

    // Accumulate, per keyword, the documents it scored in.
    let mut map: Vec<KeyEntry> = Vec::new();
    let mut d: usize = 0;
    while d < ndocs
        invariant
            ndocs == documents@.len(),
            0 <= d <= ndocs,
            stopsv == stops.deep_view(),
            exd.len() == d,
            rks.len() == d,
            forall|dd: int|
                0 <= dd < d ==> #[trigger] exd[dd] == doc_kws(documents@[dd], stopsv, rks[dd]),
            distinct_keys(map@),
            entries_in_range(map@, d as nat),
            map_complete(exd, map@),
            map_sound(exd, map@),
        decreases ndocs - d,
    {
        let rp = rake_keywords(&documents[d].body, &stops);
        let kws = extract_keywords(&documents[d].title, &documents[d].keywords, &stops, &rp);
        let ghost kdv = kws.deep_view();
        proof {
            assert(kdv == doc_kws(documents@[d as int], stopsv, rp.deep_view()));
            assert(kdv.take(0) =~= Seq::<(Seq<char>, u8)>::empty());
            assert(map_complete(exd.push(kdv.take(0)), map@)) by {
                assert forall|dd: int, j: int|
                    0 <= dd < exd.push(kdv.take(0)).len() && 0 <= j < exd.push(kdv.take(0))[dd].len()
                    implies map_has(map@, dd, #[trigger] exd.push(kdv.take(0))[dd][j]) by {
                    assert(dd < exd.len());
                    assert(exd.push(kdv.take(0))[dd] == exd[dd]);
                }
            }
            assert(map_sound(exd.push(kdv.take(0)), map@)) by {
                assert forall|k: int, t: int|
                    0 <= k < map@.len() && 0 <= t < map@[k].1@.len() implies from_doc(
                    exd.push(kdv.take(0)),
                    map@[k].0@,
                    (#[trigger] map@[k].1@[t]).0,
                    map@[k].1@[t].1,
                ) by {
                    assert(from_doc(exd, map@[k].0@, map@[k].1@[t].0, map@[k].1@[t].1));
                    let dd = map@[k].1@[t].0;
                    assert(exd.push(kdv.take(0))[dd as int] == exd[dd as int]);
                }
            }
        }
        let mut t: usize = 0;
        while t < kws.len()
            invariant
                d < ndocs == documents@.len(),
                0 <= t <= kws@.len(),
                kdv == kws.deep_view(),
                kdv.len() == kws@.len(),
                forall|j: int| 0 <= j < kws@.len() ==> kdv[j] == ((#[trigger] kws@[j]).0@, kws@[j].1),
                exd.len() == d,
                distinct_keys(map@),
                entries_in_range(map@, (d + 1) as nat),
                map_complete(exd.push(kdv.take(t as int)), map@),
                map_sound(exd.push(kdv.take(t as int)), map@),
            decreases kws@.len() - t,
        {
            let wb = vstd::slice::slice_to_vec(kws[t].0.as_str().as_bytes());
            let s = kws[t].1;
            let ghost old_map = map@;
            let ghost exd_t = exd.push(kdv.take(t as int));
            let ghost exd_t1 = exd.push(kdv.take(t as int + 1));
            proof {
                assert(kdv.take(t as int + 1) =~= kdv.take(t as int).push(kdv[t as int]));
                assert(wb@ == encode_utf8(kdv[t as int].0));
                assert(kdv[t as int].1 == s);
                assert(forall|dd: int| 0 <= dd < exd.len() ==> #[trigger] exd_t1[dd] == exd_t[dd]);
                assert(exd_t1[d as int] == kdv.take(t as int + 1));
                assert(forall|j: int|
                    0 <= j < t ==> #[trigger] kdv.take(t as int + 1)[j] == kdv.take(t as int)[j]);
            }
            match find_key(&map, &wb) {
                Some(k) => {
                    let newkey = vstd::slice::slice_to_vec(map[k].0.as_slice());
                    let mut newlst = copy_posting_list(&map[k].1);
                    newlst.push((d, s));
                    map[k] = (newkey, newlst);
                    proof {
                        assert(map@[k as int].0@ == old_map[k as int].0@);
                        assert(map@[k as int].1@ =~= old_map[k as int].1@.push((d as usize, s)));
                        assert(forall|j: int|
                            0 <= j < map@.len() && j != k ==> map@[j] == old_map[j]);
                        assert(map_complete(exd_t1, map@)) by {
                            assert forall|dd: int, j: int|
                                0 <= dd < exd_t1.len() && 0 <= j < exd_t1[dd].len() implies map_has(
                                map@,
                                dd,
                                #[trigger] exd_t1[dd][j],
                            ) by {
                                let w = exd_t1[dd][j];
                                if dd == d as int && j == t {
                                    assert(w == kdv[t as int]);
                                    assert(map@[k as int].0@ == encode_utf8(w.0));
                                    assert(map@[k as int].1@.last() == (d as usize, s));
                                    assert(map@[k as int].1@.contains((dd as usize, w.1)));
                                } else {
                                    assert(exd_t[dd][j] == w);
                                    assert(map_has(old_map, dd, w));
                                    let k0 = choose|kk: int|
                                        0 <= kk < old_map.len() && (#[trigger] old_map[kk]).0@
                                            == encode_utf8(w.0) && old_map[kk].1@.contains(
                                            (dd as usize, w.1),
                                        );
                                    let t0 = choose|tt: int|
                                        0 <= tt < old_map[k0].1@.len() && old_map[k0].1@[tt] == (
                                        dd as usize,
                                        w.1,
                                        );
                                    assert(map@[k0].0@ == old_map[k0].0@);
                                    assert(map@[k0].1@[t0] == (dd as usize, w.1));
                                    assert(map@[k0].1@.contains((dd as usize, w.1)));
                                }
                            }
                        }
                        assert(map_sound(exd_t1, map@)) by {
                            assert forall|kk: int, tt: int|
                                0 <= kk < map@.len() && 0 <= tt < map@[kk].1@.len() implies from_doc(
                                exd_t1,
                                map@[kk].0@,
                                (#[trigger] map@[kk].1@[tt]).0,
                                map@[kk].1@[tt].1,
                            ) by {
                                if kk == k && tt == map@[kk].1@.len() - 1 {
                                    assert(map@[kk].1@[tt] == (d as usize, s));
                                    assert(encode_utf8(kdv.take(t as int + 1)[t as int].0)
                                        == map@[kk].0@);
                                } else {
                                    assert(old_map[kk].1@[tt] == map@[kk].1@[tt]);
                                    assert(from_doc(
                                        exd_t,
                                        old_map[kk].0@,
                                        old_map[kk].1@[tt].0,
                                        old_map[kk].1@[tt].1,
                                    ));
                                    let dd = map@[kk].1@[tt].0;
                                    let j0 = choose|j: int|
                                        0 <= j < exd_t[dd as int].len() && encode_utf8(
                                            (#[trigger] exd_t[dd as int][j]).0,
                                        ) == old_map[kk].0@ && exd_t[dd as int][j].1
                                            == old_map[kk].1@[tt].1;
                                    assert(exd_t1[dd as int][j0] == exd_t[dd as int][j0]);
                                }
                            }
                        }
                    }
                },
                None => {
                    let mut lst: Vec<(usize, u8)> = Vec::new();
                    lst.push((d, s));
                    map.push((wb, lst));
                    proof {
                        assert(map@ =~= old_map.push((wb, lst)));
                        assert(map@.last().0@ == wb@ && map@.last().1@ =~= seq![(d as usize, s)]);
                        assert(map_complete(exd_t1, map@)) by {
                            assert forall|dd: int, j: int|
                                0 <= dd < exd_t1.len() && 0 <= j < exd_t1[dd].len() implies map_has(
                                map@,
                                dd,
                                #[trigger] exd_t1[dd][j],
                            ) by {
                                let w = exd_t1[dd][j];
                                if dd == d as int && j == t {
                                    assert(w == kdv[t as int]);
                                    let kn = map@.len() - 1;
                                    assert(map@[kn].0@ == encode_utf8(w.0));
                                    assert(map@[kn].1@[0] == (dd as usize, w.1));
                                    assert(map@[kn].1@.contains((dd as usize, w.1)));
                                } else {
                                    assert(exd_t[dd][j] == w);
                                    assert(map_has(old_map, dd, w));
                                    let k0 = choose|kk: int|
                                        0 <= kk < old_map.len() && (#[trigger] old_map[kk]).0@
                                            == encode_utf8(w.0) && old_map[kk].1@.contains(
                                            (dd as usize, w.1),
                                        );
                                    assert(map@[k0] == old_map[k0]);
                                }
                            }
                        }
                        assert(map_sound(exd_t1, map@)) by {
                            assert forall|kk: int, tt: int|
                                0 <= kk < map@.len() && 0 <= tt < map@[kk].1@.len() implies from_doc(
                                exd_t1,
                                map@[kk].0@,
                                (#[trigger] map@[kk].1@[tt]).0,
                                map@[kk].1@[tt].1,
                            ) by {
                                if kk == map@.len() - 1 {
                                    assert(map@[kk].1@[tt] == (d as usize, s));
                                    assert(encode_utf8(kdv.take(t as int + 1)[t as int].0)
                                        == map@[kk].0@);
                                } else {
                                    assert(map@[kk] == old_map[kk]);
                                    assert(from_doc(
                                        exd_t,
                                        old_map[kk].0@,
                                        old_map[kk].1@[tt].0,
                                        old_map[kk].1@[tt].1,
                                    ));
                                    let dd = map@[kk].1@[tt].0;
                                    let j0 = choose|j: int|
                                        0 <= j < exd_t[dd as int].len() && encode_utf8(
                                            (#[trigger] exd_t[dd as int][j]).0,
                                        ) == old_map[kk].0@ && exd_t[dd as int][j].1
                                            == old_map[kk].1@[tt].1;
                                    assert(exd_t1[dd as int][j0] == exd_t[dd as int][j0]);
                                }
                            }
                        }
                    }
                },
            }
            t = t + 1;
        }
        proof {
            assert(entries_in_range(map@, (d + 1) as nat));
            assert(kdv.take(kdv.len() as int) =~= kdv);
            exd = exd.push(kdv);
            rks = rks.push(rp.deep_view());
        }
        d = d + 1;
    }

    // Sort keywords and materialise the transducer and the posting lists.
    let ghost map0 = map@;
    let sorted = sort_entries(map);
    proof {
        lemma_perm_distinct(map0, sorted@);
        lemma_perm_range(map0, sorted@, ndocs as nat);
        lemma_perm_matches(exd, map0, sorted@);
    }
    let mut builder = fst_builder_new();
    let mut postings: Vec<Vec<(usize, u8)>> = Vec::new();
    let mut k: usize = 0;
    while k < sorted.len()
        invariant
            ndocs == documents@.len(),
            0 <= k <= sorted@.len(),
            sorted_by(sorted@, entry_le()),
            distinct_keys(sorted@),
            entries_in_range(sorted@, ndocs as nat),
            postings@.len() == k,
            fst_builder_model(builder).len() == k,
            forall|j: int|
                0 <= j < k ==> (#[trigger] fst_builder_model(builder)[j]) == (
                    sorted@[j].0@,
                    j as u64,
                ),
            forall|j: int| 0 <= j < k ==> (#[trigger] postings@[j])@.len() > 0,
            forall|j: int| 0 <= j < k ==> sorted_by((#[trigger] postings@[j])@, rank_le()),
            forall|j: int, m: int|
                0 <= j < k && 0 <= m < postings@[j]@.len() ==> (#[trigger] postings@[j]@[m]).0
                    < ndocs,
            forall|j: int|
                0 <= j < k ==> (#[trigger] postings@[j])@.to_multiset()
                    == sorted@[j].1@.to_multiset(),
        decreases sorted@.len() - k,
    {
        proof {
            if k > 0 {
                assert(entry_le()(sorted@[k - 1], sorted@[k as int]));
                assert(sorted@[k - 1].0@ != sorted@[k as int].0@);
                assert(lex_lt(sorted@[k - 1].0@, sorted@[k as int].0@));
                assert(fst_builder_model(builder).last() == (sorted@[k - 1].0@, (k - 1) as u64));
            }
        }
        match fst_insert(&mut builder, &sorted[k].0, k as u64) {
            Ok(()) => {},
            Err(e) => {
                proof {
                    assert(false);
                }
                return Err(e);
            },
        }
        let lst = copy_posting_list(&sorted[k].1);
        let ghost lst0 = lst@;
        let lst = sort_postings(lst);
        proof {
            lemma_perm_postings(lst0, lst@, ndocs as nat);
        }
        postings.push(lst);
        k = k + 1;
    }
    let fst_bytes = fst_finish(builder);
    let column = FsstStrVec::from_strings(&strings);
    proof {
        assert(fst_parse(fst_bytes@) is Some);
        assert(fst_parse(fst_bytes@).unwrap().len() == postings@.len());
    }
    let idx = Index { fst: fst_bytes, document_strings: column, keyword_to_documents: postings };
    proof {
        let entries = fst_parse(idx.fst@).unwrap();
        let pdv = idx.keyword_to_documents.deep_view();
        let exd_c = Seq::new(
            documents@.len(),
            |dd: int| doc_kws(documents@[dd], stopsv, rks[dd]),
        );
        assert(exd =~= exd_c);
        assert(pdv.len() == postings@.len());
        assert(forall|j: int| 0 <= j < pdv.len() ==> #[trigger] pdv[j] == postings@[j]@);
        assert forall|dd: int, j: int|
            0 <= dd < exd_c.len() && 0 <= j < exd_c[dd].len() implies indexed_has(
            entries,
            pdv,
            dd,
            #[trigger] exd_c[dd][j],
        ) by {
            let w = exd_c[dd][j];
            assert(exd[dd][j] == w);
            assert(map_has(sorted@, dd, w));
            let k0 = choose|kk: int|
                0 <= kk < sorted@.len() && (#[trigger] sorted@[kk]).0@ == encode_utf8(w.0)
                    && sorted@[kk].1@.contains((dd as usize, w.1));
            assert(entries[k0].0 == sorted@[k0].0@);
            lemma_perm_contains(sorted@[k0].1@, postings@[k0]@);
            assert(postings@[k0]@.contains((dd as usize, w.1)));
            assert(pdv[k0].contains((dd as usize, w.1)));
        }
        assert forall|k2: int, t2: int|
            0 <= k2 < pdv.len() && 0 <= t2 < pdv[k2].len() implies from_doc(
            exd_c,
            entries[k2].0,
            (#[trigger] pdv[k2][t2]).0,
            pdv[k2][t2].1,
        ) by {
            assert(pdv[k2][t2] == postings@[k2]@[t2]);
            lemma_perm_contains(sorted@[k2].1@, postings@[k2]@);
            assert(postings@[k2]@.contains(postings@[k2]@[t2]));
            assert(sorted@[k2].1@.contains(pdv[k2][t2]));
            let t0 = choose|tt: int|
                0 <= tt < sorted@[k2].1@.len() && sorted@[k2].1@[tt] == pdv[k2][t2];
            assert(from_doc(exd, sorted@[k2].0@, sorted@[k2].1@[t0].0, sorted@[k2].1@[t0].1));
            assert(entries[k2].0 == sorted@[k2].0@);
        }
        assert(postings_match_extraction(documents@, stopsv, rks, entries, pdv));
        let entries = fst_parse(idx.fst@).unwrap();
        assert forall|k1: int, k2: int| 0 <= k1 < k2 < entries.len() implies lex_lt(
            #[trigger] entries[k1].0,
            #[trigger] entries[k2].0,
        ) by {
            assert(entries[k1].0 == sorted@[k1].0@);
            assert(entries[k2].0 == sorted@[k2].0@);
            assert(entry_le()(sorted@[k1], sorted@[k2]));
            assert(sorted@[k1].0@ != sorted@[k2].0@);
        }
        assert forall|i: int| 0 <= i < documents@.len() implies #[trigger] idx.document_strings.str_at(
            4 * i,
        ) == encode_utf8(documents@[i].title@) && idx.document_strings.str_at(4 * i + 1)
            == encode_utf8(documents@[i].category@) && idx.document_strings.str_at(4 * i + 2)
            == encode_utf8(documents@[i].href@) && idx.document_strings.str_at(4 * i + 3)
            == encode_utf8(documents@[i].body@) by {
            assert(strings@[4 * i]@ == documents@[i].title@);
            assert(strings@[4 * i + 1]@ == documents@[i].category@);
            assert(strings@[4 * i + 2]@ == documents@[i].href@);
            assert(strings@[4 * i + 3]@ == documents@[i].body@);
        }
    }
    Ok(idx)
}

/// Build a search index over `documents` with the built-in stop-word list.
///
/// The column holds the four strings of each document in order; the
/// transducer maps each extracted keyword to a dense posting-list index, keys
/// strictly ascending; every posting list is non-empty, sorted by score
/// descending with ties broken by document index ascending, and references
/// only in-range documents; and the keywords are exactly those the
/// extraction rules produce under [`stop_list`].
pub fn build_index(documents: Vec<Document>) -> (r: Result<Index, BuildError>)
    ensures
        r is Ok,
        r matches Ok(idx) ==> {
            &&& idx.document_strings.spec_len() == 4 * documents@.len()
            &&& forall|i: int|
                0 <= i < documents@.len() ==> #[trigger] idx.document_strings.str_at(4 * i)
                    == encode_utf8(documents@[i].title@)
            &&& forall|i: int|
                0 <= i < documents@.len() ==> #[trigger] idx.document_strings.str_at(4 * i + 1)
                    == encode_utf8(documents@[i].category@)
            &&& forall|i: int|
                0 <= i < documents@.len() ==> #[trigger] idx.document_strings.str_at(4 * i + 2)
                    == encode_utf8(documents@[i].href@)
            &&& forall|i: int|
                0 <= i < documents@.len() ==> #[trigger] idx.document_strings.str_at(4 * i + 3)
                    == encode_utf8(documents@[i].body@)
            &&& index_postings_wf(idx, documents@.len())
            &&& fst_safe(idx.fst@)
            &&& (exists|rakes: Seq<Seq<(Seq<char>, u8)>>|
                postings_match_extraction(
                    documents@,
                    stop_list(),
                    rakes,
                    fst_parse(idx.fst@).unwrap(),
                    idx.keyword_to_documents.deep_view(),
                ))
        },
{
    build_index_with_stops(documents, default_stop_words())
}

} // verus!
