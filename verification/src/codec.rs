//! A deterministic binary encoding of the index with a proved round trip:
//! every section is length-prefixed, integers are fixed-width little-endian,
//! and decoding an encoded index restores it exactly.

use vstd::prelude::*;

use crate::column::FsstStrVec;
use crate::fst_map::{fst_parse, SearchError};
use crate::index::{Document, Index};
use crate::search::{all_hits, fetch_ok, query_terms, ranked_take, search_ok, search_result,
    spec_ranked};
use crate::leb::{le64, le64_at, le64_read, le64_write, lemma_le64_roundtrip};

verus! {

broadcast use crate::leb::lemma_le64_len;

/// A byte section: its length, then its bytes.
pub open spec fn enc_bytes(s: Seq<u8>) -> Seq<u8> {
    le64(s.len()) + s
}

/// The concatenated encodings of a list of 64-bit values.
pub open spec fn cat_u64s(s: Seq<u64>) -> Seq<u8>
    decreases s.len(),
{
    if s.len() == 0 {
        Seq::empty()
    } else {
        le64(s[0] as nat) + cat_u64s(s.drop_first())
    }
}

/// A 64-bit value section: its count, then the values.
pub open spec fn enc_u64s(s: Seq<u64>) -> Seq<u8> {
    le64(s.len()) + cat_u64s(s)
}

/// The concatenated encodings of a list of offsets.
pub open spec fn cat_usizes(s: Seq<usize>) -> Seq<u8>
    decreases s.len(),
{
    if s.len() == 0 {
        Seq::empty()
    } else {
        le64(s[0] as nat) + cat_usizes(s.drop_first())
    }
}

/// An offset section: its count, then the offsets.
pub open spec fn enc_usizes(s: Seq<usize>) -> Seq<u8> {
    le64(s.len()) + cat_usizes(s)
}

/// The concatenated encodings of one posting list's entries.
pub open spec fn cat_postings(l: Seq<(usize, u8)>) -> Seq<u8>
    decreases l.len(),
{
    if l.len() == 0 {
        Seq::empty()
    } else {
        le64(l[0].0 as nat) + seq![l[0].1] + cat_postings(l.drop_first())
    }
}

/// One posting list: its length, then its entries.
pub open spec fn enc_plist(l: Seq<(usize, u8)>) -> Seq<u8> {
    le64(l.len()) + cat_postings(l)
}

/// The concatenated encodings of all posting lists.
pub open spec fn cat_plists(ls: Seq<Seq<(usize, u8)>>) -> Seq<u8>
    decreases ls.len(),
{
    if ls.len() == 0 {
        Seq::empty()
    } else {
        enc_plist(ls[0]) + cat_plists(ls.drop_first())
    }
}

/// The posting section: the number of lists, then each list.
pub open spec fn enc_plists(ls: Seq<Seq<(usize, u8)>>) -> Seq<u8> {
    le64(ls.len()) + cat_plists(ls)
}

/// The stored parts of an index: transducer bytes, dictionary symbols and
/// lengths, column offsets and data, and the posting lists.
pub open spec fn index_parts(idx: Index) -> (
    Seq<u8>,
    Seq<u64>,
    Seq<u8>,
    Seq<usize>,
    Seq<u8>,
    Seq<Seq<(usize, u8)>>,
) {
    (
        idx.fst@,
        idx.document_strings.spec_syms(),
        idx.document_strings.spec_lens(),
        idx.document_strings.spec_offsets(),
        idx.document_strings.spec_data(),
        idx.keyword_to_documents.deep_view(),
    )
}

/// The serialized form of an index with the given parts.
pub open spec fn spec_encode(
    fst: Seq<u8>,
    syms: Seq<u64>,
    lens: Seq<u8>,
    offsets: Seq<usize>,
    data: Seq<u8>,
    postings: Seq<Seq<(usize, u8)>>,
) -> Seq<u8> {
    enc_bytes(fst) + enc_u64s(syms) + enc_bytes(lens) + enc_usizes(offsets) + enc_bytes(data)
        + enc_plists(postings)
}

/// Parse a 64-bit length or value at `p`.
pub open spec fn dec_u64(b: Seq<u8>, p: int) -> Option<(nat, int)> {
    if 0 <= p && p + 8 <= b.len() {
        Some((le64_at(b, p), p + 8))
    } else {
        None
    }
}

/// Parse a byte section at `p`.
pub open spec fn dec_bytes(b: Seq<u8>, p: int) -> Option<(Seq<u8>, int)> {
    match dec_u64(b, p) {
        None => None,
        Some((n, q)) => if q + n <= b.len() {
            Some((b.subrange(q, q + n), q + n))
        } else {
            None
        },
    }
}

/// Parse `n` 64-bit values at `p`.
pub open spec fn dec_cat_u64s(b: Seq<u8>, p: int, n: nat) -> Option<(Seq<u64>, int)>
    decreases n,
{
    if n == 0 {
        Some((Seq::empty(), p))
    } else {
        match dec_u64(b, p) {
            None => None,
            Some((v, q)) => match dec_cat_u64s(b, q, (n - 1) as nat) {
                None => None,
                Some((rest, end)) => Some((seq![v as u64] + rest, end)),
            },
        }
    }
}

/// Parse a 64-bit value section at `p`.
pub open spec fn dec_u64s(b: Seq<u8>, p: int) -> Option<(Seq<u64>, int)> {
    match dec_u64(b, p) {
        None => None,
        Some((n, q)) => dec_cat_u64s(b, q, n),
    }
}

/// Parse `n` offsets at `p`; an offset that does not fit `usize` fails.
pub open spec fn dec_cat_usizes(b: Seq<u8>, p: int, n: nat) -> Option<(Seq<usize>, int)>
    decreases n,
{
    if n == 0 {
        Some((Seq::empty(), p))
    } else {
        match dec_u64(b, p) {
            None => None,
            Some((v, q)) => if v > usize::MAX {
                None
            } else {
                match dec_cat_usizes(b, q, (n - 1) as nat) {
                    None => None,
                    Some((rest, end)) => Some((seq![v as usize] + rest, end)),
                }
            },
        }
    }
}

/// Parse an offset section at `p`.
pub open spec fn dec_usizes(b: Seq<u8>, p: int) -> Option<(Seq<usize>, int)> {
    match dec_u64(b, p) {
        None => None,
        Some((n, q)) => dec_cat_usizes(b, q, n),
    }
}

/// Parse `n` posting entries at `p`.
pub open spec fn dec_cat_postings(b: Seq<u8>, p: int, n: nat) -> Option<(Seq<(usize, u8)>, int)>
    decreases n,
{
    if n == 0 {
        Some((Seq::empty(), p))
    } else {
        match dec_u64(b, p) {
            None => None,
            Some((v, q)) => if v > usize::MAX || q + 1 > b.len() {
                None
            } else {
                match dec_cat_postings(b, q + 1, (n - 1) as nat) {
                    None => None,
                    Some((rest, end)) => Some((seq![(v as usize, b[q])] + rest, end)),
                }
            },
        }
    }
}

/// Parse one posting list at `p`.
pub open spec fn dec_plist(b: Seq<u8>, p: int) -> Option<(Seq<(usize, u8)>, int)> {
    match dec_u64(b, p) {
        None => None,
        Some((n, q)) => dec_cat_postings(b, q, n),
    }
}

/// Parse `n` posting lists at `p`.
pub open spec fn dec_cat_plists(b: Seq<u8>, p: int, n: nat) -> Option<(Seq<Seq<(usize, u8)>>, int)>
    decreases n,
{
    if n == 0 {
        Some((Seq::empty(), p))
    } else {
        match dec_plist(b, p) {
            None => None,
            Some((l, q)) => match dec_cat_plists(b, q, (n - 1) as nat) {
                None => None,
                Some((rest, end)) => Some((seq![l] + rest, end)),
            },
        }
    }
}

/// Parse the posting section at `p`.
pub open spec fn dec_plists(b: Seq<u8>, p: int) -> Option<(Seq<Seq<(usize, u8)>>, int)> {
    match dec_u64(b, p) {
        None => None,
        Some((n, q)) => dec_cat_plists(b, q, n),
    }
}

/// Parse a whole serialized index; the bytes must be consumed exactly.
pub open spec fn spec_decode(b: Seq<u8>) -> Option<
    (Seq<u8>, Seq<u64>, Seq<u8>, Seq<usize>, Seq<u8>, Seq<Seq<(usize, u8)>>),
> {
    match dec_bytes(b, 0) {
        None => None,
        Some((fst, p1)) => match dec_u64s(b, p1) {
            None => None,
            Some((syms, p2)) => match dec_bytes(b, p2) {
                None => None,
                Some((lens, p3)) => match dec_usizes(b, p3) {
                    None => None,
                    Some((offsets, p4)) => match dec_bytes(b, p4) {
                        None => None,
                        Some((data, p5)) => match dec_plists(b, p5) {
                            None => None,
                            Some((postings, p6)) => if p6 == b.len() {
                                Some((fst, syms, lens, offsets, data, postings))
                            } else {
                                None
                            },
                        },
                    },
                },
            },
        },
    }
}

} // verus!

verus! {

proof fn lemma_cat_u64s_len(s: Seq<u64>)
    ensures
        cat_u64s(s).len() == 8 * s.len(),
    decreases s.len(),
{
    if s.len() > 0 {
        lemma_cat_u64s_len(s.drop_first());
    }
}

proof fn lemma_cat_usizes_len(s: Seq<usize>)
    ensures
        cat_usizes(s).len() == 8 * s.len(),
    decreases s.len(),
{
    if s.len() > 0 {
        lemma_cat_usizes_len(s.drop_first());
    }
}

proof fn lemma_cat_postings_len(l: Seq<(usize, u8)>)
    ensures
        cat_postings(l).len() == 9 * l.len(),
    decreases l.len(),
{
    if l.len() > 0 {
        lemma_cat_postings_len(l.drop_first());
    }
}

pub proof fn lemma_cat_u64s_push(s: Seq<u64>, x: u64)
    ensures
        cat_u64s(s.push(x)) == cat_u64s(s) + le64(x as nat),
    decreases s.len(),
{
    if s.len() == 0 {
        assert(s.push(x)[0] == x);
        assert(s.push(x).drop_first() =~= Seq::<u64>::empty());
        assert(cat_u64s(s.push(x)) == le64(x as nat) + cat_u64s(s.push(x).drop_first()));
        assert(cat_u64s(Seq::<u64>::empty()) == Seq::<u8>::empty());
        assert(cat_u64s(s) == Seq::<u8>::empty());
        assert(cat_u64s(s.push(x)) =~= cat_u64s(s) + le64(x as nat));
    } else {
        assert(s.push(x)[0] == s[0]);
        assert(s.push(x).drop_first() =~= s.drop_first().push(x));
        lemma_cat_u64s_push(s.drop_first(), x);
        assert(cat_u64s(s.push(x)) == le64(s[0] as nat) + cat_u64s(s.drop_first().push(x)));
        assert(cat_u64s(s.push(x)) =~= cat_u64s(s) + le64(x as nat));
    }
}

pub proof fn lemma_cat_usizes_push(s: Seq<usize>, x: usize)
    ensures
        cat_usizes(s.push(x)) == cat_usizes(s) + le64(x as nat),
    decreases s.len(),
{
    if s.len() == 0 {
        assert(s.push(x)[0] == x);
        assert(s.push(x).drop_first() =~= Seq::<usize>::empty());
        assert(cat_usizes(s.push(x)) == le64(x as nat) + cat_usizes(s.push(x).drop_first()));
        assert(cat_usizes(Seq::<usize>::empty()) == Seq::<u8>::empty());
        assert(cat_usizes(s) == Seq::<u8>::empty());
        assert(cat_usizes(s.push(x)) =~= cat_usizes(s) + le64(x as nat));
    } else {
        assert(s.push(x)[0] == s[0]);
        assert(s.push(x).drop_first() =~= s.drop_first().push(x));
        lemma_cat_usizes_push(s.drop_first(), x);
        assert(cat_usizes(s.push(x)) == le64(s[0] as nat) + cat_usizes(s.drop_first().push(x)));
        assert(cat_usizes(s.push(x)) =~= cat_usizes(s) + le64(x as nat));
    }
}

pub proof fn lemma_cat_postings_push(l: Seq<(usize, u8)>, x: (usize, u8))
    ensures
        cat_postings(l.push(x)) == cat_postings(l) + le64(x.0 as nat) + seq![x.1],
    decreases l.len(),
{
    if l.len() == 0 {
        assert(l.push(x)[0] == x);
        assert(l.push(x).drop_first() =~= Seq::<(usize, u8)>::empty());
        assert(cat_postings(l.push(x)) == le64(x.0 as nat) + seq![x.1] + cat_postings(
            l.push(x).drop_first(),
        ));
        assert(cat_postings(Seq::<(usize, u8)>::empty()) == Seq::<u8>::empty());
        assert(cat_postings(l) == Seq::<u8>::empty());
        assert(cat_postings(l.push(x)) =~= cat_postings(l) + le64(x.0 as nat) + seq![x.1]);
    } else {
        assert(l.push(x)[0] == l[0]);
        assert(l.push(x).drop_first() =~= l.drop_first().push(x));
        lemma_cat_postings_push(l.drop_first(), x);
        assert(cat_postings(l.push(x)) == le64(l[0].0 as nat) + seq![l[0].1] + cat_postings(
            l.drop_first().push(x),
        ));
        assert(cat_postings(l.push(x)) =~= cat_postings(l) + le64(x.0 as nat) + seq![x.1]);
    }
}

pub proof fn lemma_cat_plists_push(ls: Seq<Seq<(usize, u8)>>, x: Seq<(usize, u8)>)
    ensures
        cat_plists(ls.push(x)) == cat_plists(ls) + enc_plist(x),
    decreases ls.len(),
{
    if ls.len() == 0 {
        assert(ls.push(x)[0] == x);
        assert(ls.push(x).drop_first() =~= Seq::<Seq<(usize, u8)>>::empty());
        assert(cat_plists(ls.push(x)) == enc_plist(x) + cat_plists(ls.push(x).drop_first()));
        assert(cat_plists(Seq::<Seq<(usize, u8)>>::empty()) == Seq::<u8>::empty());
        assert(cat_plists(ls) == Seq::<u8>::empty());
        assert(cat_plists(ls.push(x)) =~= cat_plists(ls) + enc_plist(x));
    } else {
        assert(ls.push(x)[0] == ls[0]);
        assert(ls.push(x).drop_first() =~= ls.drop_first().push(x));
        lemma_cat_plists_push(ls.drop_first(), x);
        assert(cat_plists(ls.push(x)) == enc_plist(ls[0]) + cat_plists(ls.drop_first().push(x)));
        assert(cat_plists(ls.push(x)) =~= cat_plists(ls) + enc_plist(x));
    }
}

/// A slice of a matched region of `b` equals the same slice of the region's
/// own bytes.
proof fn lemma_sub_of_sub(b: Seq<u8>, p: int, off: int, n: int, whole: Seq<u8>)
    requires
        0 <= p,
        p + whole.len() <= b.len(),
        b.subrange(p, p + whole.len()) == whole,
        0 <= off,
        n >= 0,
        off + n <= whole.len(),
    ensures
        b.subrange(p + off, p + off + n) == whole.subrange(off, off + n),
{
    assert forall|i: int| 0 <= i < n implies #[trigger] b.subrange(p + off, p + off + n)[i]
        == whole.subrange(off, off + n)[i] by {
        assert(b.subrange(p + off, p + off + n)[i] == b[p + off + i]);
        assert(b[p + (off + i)] == b.subrange(p, p + whole.len() as int)[off + i]);
    }
    assert(b.subrange(p + off, p + off + n) =~= whole.subrange(off, off + n));
}

/// A byte section parses back to the bytes it was made from.
proof fn lemma_dec_bytes_of(b: Seq<u8>, p: int, s: Seq<u8>)
    requires
        s.len() <= u64::MAX,
        0 <= p,
        p + 8 + s.len() <= b.len(),
        b.subrange(p, p + 8 + s.len()) == enc_bytes(s),
    ensures
        dec_bytes(b, p) == Some((s, p + 8 + s.len())),
{
    let e = enc_bytes(s);
    lemma_sub_of_sub(b, p, 0, 8, e);
    assert(e.subrange(0, 8) =~= le64(s.len()));
    lemma_le64_roundtrip(b, p, s.len());
    lemma_sub_of_sub(b, p, 8, s.len() as int, e);
    assert(e.subrange(8, 8 + s.len() as int) =~= s);
}

/// Encoded 64-bit values parse back to themselves.
proof fn lemma_dec_cat_u64s_of(b: Seq<u8>, p: int, s: Seq<u64>)
    requires
        0 <= p,
        p + 8 * s.len() <= b.len(),
        b.subrange(p, p + 8 * s.len()) == cat_u64s(s),
    ensures
        dec_cat_u64s(b, p, s.len()) == Some((s, p + 8 * s.len())),
    decreases s.len(),
{
    lemma_cat_u64s_len(s);
    if s.len() > 0 {
        lemma_cat_u64s_len(s.drop_first());
        let e = cat_u64s(s);
        lemma_sub_of_sub(b, p, 0, 8, e);
        assert(e.subrange(0, 8) =~= le64(s[0] as nat));
        lemma_le64_roundtrip(b, p, s[0] as nat);
        lemma_sub_of_sub(b, p, 8, 8 * s.drop_first().len() as int, e);
        assert(e.subrange(8, 8 + 8 * s.drop_first().len() as int) =~= cat_u64s(s.drop_first()));
        lemma_dec_cat_u64s_of(b, p + 8, s.drop_first());
        assert(seq![s[0]] + s.drop_first() =~= s);
    }
}

/// Encoded offsets parse back to themselves.
proof fn lemma_dec_cat_usizes_of(b: Seq<u8>, p: int, s: Seq<usize>)
    requires
        0 <= p,
        p + 8 * s.len() <= b.len(),
        b.subrange(p, p + 8 * s.len()) == cat_usizes(s),
    ensures
        dec_cat_usizes(b, p, s.len()) == Some((s, p + 8 * s.len())),
    decreases s.len(),
{
    lemma_cat_usizes_len(s);
    if s.len() > 0 {
        lemma_cat_usizes_len(s.drop_first());
        let e = cat_usizes(s);
        lemma_sub_of_sub(b, p, 0, 8, e);
        assert(e.subrange(0, 8) =~= le64(s[0] as nat));
        lemma_le64_roundtrip(b, p, s[0] as nat);
        lemma_sub_of_sub(b, p, 8, 8 * s.drop_first().len() as int, e);
        assert(e.subrange(8, 8 + 8 * s.drop_first().len() as int) =~= cat_usizes(s.drop_first()));
        lemma_dec_cat_usizes_of(b, p + 8, s.drop_first());
        assert(seq![s[0]] + s.drop_first() =~= s);
    }
}

/// Encoded posting entries parse back to themselves.
proof fn lemma_dec_cat_postings_of(b: Seq<u8>, p: int, l: Seq<(usize, u8)>)
    requires
        0 <= p,
        p + 9 * l.len() <= b.len(),
        b.subrange(p, p + 9 * l.len()) == cat_postings(l),
    ensures
        dec_cat_postings(b, p, l.len()) == Some((l, p + 9 * l.len())),
    decreases l.len(),
{
    lemma_cat_postings_len(l);
    if l.len() > 0 {
        lemma_cat_postings_len(l.drop_first());
        let e = cat_postings(l);
        lemma_sub_of_sub(b, p, 0, 8, e);
        assert(e.subrange(0, 8) =~= le64(l[0].0 as nat));
        lemma_le64_roundtrip(b, p, l[0].0 as nat);
        assert(b[p + 8] == l[0].1) by {
            assert(b.subrange(p, p + e.len() as int)[8] == b[p + 8]);
            assert(e[8] == l[0].1);
        }
        lemma_sub_of_sub(b, p, 9, 9 * l.drop_first().len() as int, e);
        assert(e.subrange(9, 9 + 9 * l.drop_first().len() as int) =~= cat_postings(l.drop_first()));
        lemma_dec_cat_postings_of(b, p + 9, l.drop_first());
        assert(seq![(l[0].0, b[p + 8])] + l.drop_first() =~= l);
    }
}

/// Encoded posting lists parse back to themselves.
proof fn lemma_dec_cat_plists_of(b: Seq<u8>, p: int, ls: Seq<Seq<(usize, u8)>>)
    requires
        0 <= p,
        forall|i: int| 0 <= i < ls.len() ==> (#[trigger] ls[i]).len() <= u64::MAX,
        p + cat_plists(ls).len() <= b.len(),
        b.subrange(p, p + cat_plists(ls).len()) == cat_plists(ls),
    ensures
        dec_cat_plists(b, p, ls.len()) == Some((ls, p + cat_plists(ls).len())),
    decreases ls.len(),
{
    if ls.len() > 0 {
        let head = ls[0];
        let hlen = 8 + 9 * head.len() as int;
        lemma_cat_postings_len(head);
        let e = cat_plists(ls);
        assert(e == enc_plist(head) + cat_plists(ls.drop_first()));
        lemma_sub_of_sub(b, p, 0, 8, e);
        assert(e.subrange(0, 8) =~= le64(head.len()));
        lemma_le64_roundtrip(b, p, head.len());
        lemma_sub_of_sub(b, p, 8, 9 * head.len() as int, e);
        assert(e.subrange(8, 8 + 9 * head.len() as int) =~= cat_postings(head));
        lemma_dec_cat_postings_of(b, p + 8, head);
        assert(dec_plist(b, p) == Some((head, p + hlen)));
        lemma_sub_of_sub(b, p, hlen, cat_plists(ls.drop_first()).len() as int, e);
        assert(e.subrange(hlen, hlen + cat_plists(ls.drop_first()).len() as int) =~= cat_plists(
            ls.drop_first(),
        ));
        lemma_dec_cat_plists_of(b, p + hlen, ls.drop_first());
        assert(seq![head] + ls.drop_first() =~= ls);
    }
}

/// Splitting a two-part concatenation recovers both parts.
proof fn lemma_concat_split(x: Seq<u8>, y: Seq<u8>)
    ensures
        (x + y).subrange(0, x.len() as int) == x,
        (x + y).subrange(x.len() as int, (x + y).len() as int) == y,
{
    assert((x + y).subrange(0, x.len() as int) =~= x);
    assert((x + y).subrange(x.len() as int, (x + y).len() as int) =~= y);
}

/// The six sections of an encoded index stand at their computed offsets.
#[verifier::rlimit(60)]
proof fn lemma_encode_sections(
    fst: Seq<u8>,
    syms: Seq<u64>,
    lens: Seq<u8>,
    offsets: Seq<usize>,
    data: Seq<u8>,
    postings: Seq<Seq<(usize, u8)>>,
)
    ensures
        ({
            let b = spec_encode(fst, syms, lens, offsets, data, postings);
            let e1 = enc_bytes(fst);
            let e2 = enc_u64s(syms);
            let e3 = enc_bytes(lens);
            let e4 = enc_usizes(offsets);
            let e5 = enc_bytes(data);
            let e6 = enc_plists(postings);
            let p1 = e1.len() as int;
            let p2 = p1 + e2.len();
            let p3 = p2 + e3.len();
            let p4 = p3 + e4.len();
            let p5 = p4 + e5.len();
            let p6 = p5 + e6.len();
            &&& b.len() == p6
            &&& b.subrange(0, p1) == e1
            &&& b.subrange(p1, p2) == e2
            &&& b.subrange(p2, p3) == e3
            &&& b.subrange(p3, p4) == e4
            &&& b.subrange(p4, p5) == e5
            &&& b.subrange(p5, p6) == e6
        }),
{
    let b = spec_encode(fst, syms, lens, offsets, data, postings);
    let e1 = enc_bytes(fst);
    let e2 = enc_u64s(syms);
    let e3 = enc_bytes(lens);
    let e4 = enc_usizes(offsets);
    let e5 = enc_bytes(data);
    let e6 = enc_plists(postings);
    let c2 = e1 + e2;
    let c3 = c2 + e3;
    let c4 = c3 + e4;
    let c5 = c4 + e5;
    assert(b =~= c5 + e6);
    lemma_concat_split(c5, e6);
    lemma_concat_split(c4, e5);
    lemma_concat_split(c3, e4);
    lemma_concat_split(c2, e3);
    lemma_concat_split(e1, e2);
    lemma_sub_of_sub(b, 0, 0, c4.len() as int, c5);
    assert(b.subrange(0, c4.len() as int) == c4) by {
        assert(c5.subrange(0, c4.len() as int) == c4);
    }
    lemma_sub_of_sub(b, 0, c4.len() as int, e5.len() as int, c5);
    assert(b.subrange(c4.len() as int, c5.len() as int) == e5) by {
        assert(c5.subrange(c4.len() as int, c5.len() as int) == e5);
    }
    lemma_sub_of_sub(b, 0, 0, c3.len() as int, c4);
    lemma_sub_of_sub(b, 0, c3.len() as int, e4.len() as int, c4);
    lemma_sub_of_sub(b, 0, 0, c2.len() as int, c3);
    lemma_sub_of_sub(b, 0, c2.len() as int, e3.len() as int, c3);
    lemma_sub_of_sub(b, 0, 0, e1.len() as int, c2);
    lemma_sub_of_sub(b, 0, e1.len() as int, e2.len() as int, c2);
}

/// A 64-bit value section parses back to its values.
proof fn lemma_dec_u64s_of(b: Seq<u8>, p: int, s: Seq<u64>)
    requires
        s.len() <= u64::MAX,
        0 <= p,
        p + enc_u64s(s).len() <= b.len(),
        b.subrange(p, p + enc_u64s(s).len()) == enc_u64s(s),
    ensures
        dec_u64s(b, p) == Some((s, p + enc_u64s(s).len())),
{
    let e = enc_u64s(s);
    lemma_cat_u64s_len(s);
    lemma_sub_of_sub(b, p, 0, 8, e);
    assert(e.subrange(0, 8) =~= le64(s.len()));
    lemma_le64_roundtrip(b, p, s.len());
    lemma_sub_of_sub(b, p, 8, 8 * s.len() as int, e);
    assert(e.subrange(8, 8 + 8 * s.len() as int) =~= cat_u64s(s));
    lemma_dec_cat_u64s_of(b, p + 8, s);
}

/// An offset section parses back to its offsets.
proof fn lemma_dec_usizes_of(b: Seq<u8>, p: int, s: Seq<usize>)
    requires
        s.len() <= u64::MAX,
        0 <= p,
        p + enc_usizes(s).len() <= b.len(),
        b.subrange(p, p + enc_usizes(s).len()) == enc_usizes(s),
    ensures
        dec_usizes(b, p) == Some((s, p + enc_usizes(s).len())),
{
    let e = enc_usizes(s);
    lemma_cat_usizes_len(s);
    lemma_sub_of_sub(b, p, 0, 8, e);
    assert(e.subrange(0, 8) =~= le64(s.len()));
    lemma_le64_roundtrip(b, p, s.len());
    lemma_sub_of_sub(b, p, 8, 8 * s.len() as int, e);
    assert(e.subrange(8, 8 + 8 * s.len() as int) =~= cat_usizes(s));
    lemma_dec_cat_usizes_of(b, p + 8, s);
}

/// The posting section parses back to its lists.
proof fn lemma_dec_plists_of(b: Seq<u8>, p: int, ls: Seq<Seq<(usize, u8)>>)
    requires
        ls.len() <= u64::MAX,
        forall|i: int| 0 <= i < ls.len() ==> (#[trigger] ls[i]).len() <= u64::MAX,
        0 <= p,
        p + enc_plists(ls).len() <= b.len(),
        b.subrange(p, p + enc_plists(ls).len()) == enc_plists(ls),
    ensures
        dec_plists(b, p) == Some((ls, p + enc_plists(ls).len())),
{
    let e = enc_plists(ls);
    lemma_sub_of_sub(b, p, 0, 8, e);
    assert(e.subrange(0, 8) =~= le64(ls.len()));
    lemma_le64_roundtrip(b, p, ls.len());
    lemma_sub_of_sub(b, p, 8, cat_plists(ls).len() as int, e);
    assert(e.subrange(8, 8 + cat_plists(ls).len() as int) =~= cat_plists(ls));
    lemma_dec_cat_plists_of(b, p + 8, ls);
}

/// Composing the six section parses yields the whole-index parse.
proof fn lemma_compose_decode(
    b: Seq<u8>,
    fst: Seq<u8>,
    syms: Seq<u64>,
    lens: Seq<u8>,
    offsets: Seq<usize>,
    data: Seq<u8>,
    postings: Seq<Seq<(usize, u8)>>,
    p1: int,
    p2: int,
    p3: int,
    p4: int,
    p5: int,
)
    requires
        dec_bytes(b, 0) == Some((fst, p1)),
        dec_u64s(b, p1) == Some((syms, p2)),
        dec_bytes(b, p2) == Some((lens, p3)),
        dec_usizes(b, p3) == Some((offsets, p4)),
        dec_bytes(b, p4) == Some((data, p5)),
        dec_plists(b, p5) == Some((postings, b.len() as int)),
    ensures
        spec_decode(b) == Some((fst, syms, lens, offsets, data, postings)),
{
}

/// The requires shared by the per-section round-trip lemmas: the parts fit
/// their length prefixes.
pub open spec fn parts_bounded(
    fst: Seq<u8>,
    syms: Seq<u64>,
    lens: Seq<u8>,
    offsets: Seq<usize>,
    data: Seq<u8>,
    postings: Seq<Seq<(usize, u8)>>,
) -> bool {
    &&& fst.len() <= u64::MAX
    &&& syms.len() <= u64::MAX
    &&& lens.len() <= u64::MAX
    &&& offsets.len() <= u64::MAX
    &&& data.len() <= u64::MAX
    &&& postings.len() <= u64::MAX
    &&& forall|i: int| 0 <= i < postings.len() ==> (#[trigger] postings[i]).len() <= u64::MAX
}

/// The positions of the six sections inside an encoded index.
pub open spec fn section_ends(
    fst: Seq<u8>,
    syms: Seq<u64>,
    lens: Seq<u8>,
    offsets: Seq<usize>,
    data: Seq<u8>,
    postings: Seq<Seq<(usize, u8)>>,
) -> (int, int, int, int, int, int) {
    let p1 = enc_bytes(fst).len() as int;
    let p2 = p1 + enc_u64s(syms).len();
    let p3 = p2 + enc_bytes(lens).len();
    let p4 = p3 + enc_usizes(offsets).len();
    let p5 = p4 + enc_bytes(data).len();
    let p6 = p5 + enc_plists(postings).len();
    (p1, p2, p3, p4, p5, p6)
}

#[verifier::rlimit(100)]
proof fn lemma_rt_fst(
    fst: Seq<u8>,
    syms: Seq<u64>,
    lens: Seq<u8>,
    offsets: Seq<usize>,
    data: Seq<u8>,
    postings: Seq<Seq<(usize, u8)>>,
)
    requires
        parts_bounded(fst, syms, lens, offsets, data, postings),
    ensures
        ({
            let b = spec_encode(fst, syms, lens, offsets, data, postings);
            let (p1, p2, p3, p4, p5, p6) = section_ends(fst, syms, lens, offsets, data, postings);
            dec_bytes(b, 0) == Some((fst, p1)) && b.len() == p6
        }),
{
    let b = spec_encode(fst, syms, lens, offsets, data, postings);
    lemma_encode_sections(fst, syms, lens, offsets, data, postings);
    lemma_dec_bytes_of(b, 0, fst);
}

#[verifier::rlimit(100)]
proof fn lemma_rt_lens(
    fst: Seq<u8>,
    syms: Seq<u64>,
    lens: Seq<u8>,
    offsets: Seq<usize>,
    data: Seq<u8>,
    postings: Seq<Seq<(usize, u8)>>,
)
    requires
        parts_bounded(fst, syms, lens, offsets, data, postings),
    ensures
        ({
            let b = spec_encode(fst, syms, lens, offsets, data, postings);
            let (p1, p2, p3, p4, p5, p6) = section_ends(fst, syms, lens, offsets, data, postings);
            dec_bytes(b, p2) == Some((lens, p3))
        }),
{
    let b = spec_encode(fst, syms, lens, offsets, data, postings);
    let (p1, p2, p3, p4, p5, p6) = section_ends(fst, syms, lens, offsets, data, postings);
    lemma_encode_sections(fst, syms, lens, offsets, data, postings);
    lemma_dec_bytes_of(b, p2, lens);
}

#[verifier::rlimit(100)]
proof fn lemma_rt_data(
    fst: Seq<u8>,
    syms: Seq<u64>,
    lens: Seq<u8>,
    offsets: Seq<usize>,
    data: Seq<u8>,
    postings: Seq<Seq<(usize, u8)>>,
)
    requires
        parts_bounded(fst, syms, lens, offsets, data, postings),
    ensures
        ({
            let b = spec_encode(fst, syms, lens, offsets, data, postings);
            let (p1, p2, p3, p4, p5, p6) = section_ends(fst, syms, lens, offsets, data, postings);
            dec_bytes(b, p4) == Some((data, p5))
        }),
{
    let b = spec_encode(fst, syms, lens, offsets, data, postings);
    let (p1, p2, p3, p4, p5, p6) = section_ends(fst, syms, lens, offsets, data, postings);
    lemma_encode_sections(fst, syms, lens, offsets, data, postings);
    lemma_dec_bytes_of(b, p4, data);
}

#[verifier::rlimit(100)]
proof fn lemma_rt_values(
    fst: Seq<u8>,
    syms: Seq<u64>,
    lens: Seq<u8>,
    offsets: Seq<usize>,
    data: Seq<u8>,
    postings: Seq<Seq<(usize, u8)>>,
)
    requires
        parts_bounded(fst, syms, lens, offsets, data, postings),
    ensures
        ({
            let b = spec_encode(fst, syms, lens, offsets, data, postings);
            let (p1, p2, p3, p4, p5, p6) = section_ends(fst, syms, lens, offsets, data, postings);
            dec_u64s(b, p1) == Some((syms, p2)) && dec_usizes(b, p3) == Some((offsets, p4))
        }),
{
    let b = spec_encode(fst, syms, lens, offsets, data, postings);
    let (p1, p2, p3, p4, p5, p6) = section_ends(fst, syms, lens, offsets, data, postings);
    lemma_encode_sections(fst, syms, lens, offsets, data, postings);
    lemma_dec_u64s_of(b, p1, syms);
    lemma_dec_usizes_of(b, p3, offsets);
}

#[verifier::rlimit(100)]
proof fn lemma_rt_postings(
    fst: Seq<u8>,
    syms: Seq<u64>,
    lens: Seq<u8>,
    offsets: Seq<usize>,
    data: Seq<u8>,
    postings: Seq<Seq<(usize, u8)>>,
)
    requires
        parts_bounded(fst, syms, lens, offsets, data, postings),
    ensures
        ({
            let b = spec_encode(fst, syms, lens, offsets, data, postings);
            let (p1, p2, p3, p4, p5, p6) = section_ends(fst, syms, lens, offsets, data, postings);
            dec_plists(b, p5) == Some((postings, p6))
        }),
{
    let b = spec_encode(fst, syms, lens, offsets, data, postings);
    let (p1, p2, p3, p4, p5, p6) = section_ends(fst, syms, lens, offsets, data, postings);
    lemma_encode_sections(fst, syms, lens, offsets, data, postings);
    lemma_dec_plists_of(b, p5, postings);
}

/// Two indexes with the same stored parts are indistinguishable to search:
/// same transducer bytes, same posting lists, the same column strings, and
/// hence the same success condition and the same results for every query.
pub proof fn lemma_parts_preserve_search(a: Index, b: Index)
    requires
        index_parts(a) == index_parts(b),
    ensures
        a.fst@ == b.fst@,
        a.keyword_to_documents.deep_view() == b.keyword_to_documents.deep_view(),
        a.document_strings.spec_len() == b.document_strings.spec_len(),
        forall|i: int| #[trigger] a.document_strings.str_at(i) == b.document_strings.str_at(i),
        forall|q: Seq<char>, k: int| #[trigger] search_ok(a, q, k) == search_ok(b, q, k),
        forall|q: Seq<char>, k: int, docs: Seq<Document>|
            #[trigger] search_result(a, q, k, docs) == search_result(b, q, k, docs),
{
    FsstStrVec::lemma_parts_determine(a.document_strings, b.document_strings);
    assert forall|q: Seq<char>, k: int| #[trigger] search_ok(a, q, k) == search_ok(b, q, k) by {
        lemma_same_parts_same_fetch(a, b, q, k);
    }
    assert forall|q: Seq<char>, k: int, docs: Seq<Document>|
        #[trigger] search_result(a, q, k, docs) == search_result(b, q, k, docs) by {
        lemma_same_parts_same_fetch(a, b, q, k);
    }
}

/// The query-level ingredients of two part-equal indexes coincide.
proof fn lemma_same_parts_same_fetch(a: Index, b: Index, q: Seq<char>, k: int)
    requires
        index_parts(a) == index_parts(b),
    ensures
        search_ok(a, q, k) == search_ok(b, q, k),
        forall|docs: Seq<Document>|
            #[trigger] search_result(a, q, k, docs) == search_result(b, q, k, docs),
{
    FsstStrVec::lemma_parts_determine(a.document_strings, b.document_strings);
    let entries = fst_parse(a.fst@);
    if entries is Some {
        let hits = all_hits(entries.unwrap(), query_terms(q));
        let postings = a.keyword_to_documents.deep_view();
        let ranked = spec_ranked(postings, hits);
        assert(fetch_ok(a.document_strings, ranked, ranked_take(ranked, k)) == fetch_ok(
            b.document_strings,
            ranked,
            ranked_take(ranked, k),
        ));
        assert forall|docs: Seq<Document>|
            #[trigger] search_result(a, q, k, docs) == search_result(b, q, k, docs) by {
            let n = ranked_take(ranked, k);
            assert(forall|j: int|
                0 <= j < n ==> {
                    let d = (#[trigger] ranked[j]).0;
                    a.document_strings.str_at(4 * d) == b.document_strings.str_at(4 * d)
                        && a.document_strings.str_at(4 * d + 1) == b.document_strings.str_at(
                        4 * d + 1,
                    ) && a.document_strings.str_at(4 * d + 2) == b.document_strings.str_at(
                        4 * d + 2,
                    ) && a.document_strings.str_at(4 * d + 3) == b.document_strings.str_at(
                        4 * d + 3,
                    )
                });
        }
    }
}

/// Serialization preserves search: an index holding the parts decoded from
/// another index's serialization presents the same transducer bytes, posting
/// lists, and column strings, so every query succeeds on one exactly when it
/// succeeds on the other, with the same results.
pub proof fn lemma_decode_of_encode_preserves_search(a: Index, b: Index)
    requires
        parts_bounded(
            a.fst@,
            a.document_strings.spec_syms(),
            a.document_strings.spec_lens(),
            a.document_strings.spec_offsets(),
            a.document_strings.spec_data(),
            a.keyword_to_documents.deep_view(),
        ),
        spec_decode(
            spec_encode(
                a.fst@,
                a.document_strings.spec_syms(),
                a.document_strings.spec_lens(),
                a.document_strings.spec_offsets(),
                a.document_strings.spec_data(),
                a.keyword_to_documents.deep_view(),
            ),
        ) == Some(index_parts(b)),
    ensures
        a.fst@ == b.fst@,
        a.keyword_to_documents.deep_view() == b.keyword_to_documents.deep_view(),
        a.document_strings.spec_len() == b.document_strings.spec_len(),
        forall|i: int| #[trigger] a.document_strings.str_at(i) == b.document_strings.str_at(i),
        forall|q: Seq<char>, k: int| #[trigger] search_ok(a, q, k) == search_ok(b, q, k),
        forall|q: Seq<char>, k: int, docs: Seq<Document>|
            #[trigger] search_result(a, q, k, docs) == search_result(b, q, k, docs),
{
    lemma_roundtrip(
        a.fst@,
        a.document_strings.spec_syms(),
        a.document_strings.spec_lens(),
        a.document_strings.spec_offsets(),
        a.document_strings.spec_data(),
        a.keyword_to_documents.deep_view(),
    );
    lemma_parts_preserve_search(a, b);
}

/// Decoding an encoded index restores its parts exactly.
pub proof fn lemma_roundtrip(
    fst: Seq<u8>,
    syms: Seq<u64>,
    lens: Seq<u8>,
    offsets: Seq<usize>,
    data: Seq<u8>,
    postings: Seq<Seq<(usize, u8)>>,
)
    requires
        parts_bounded(fst, syms, lens, offsets, data, postings),
    ensures
        spec_decode(spec_encode(fst, syms, lens, offsets, data, postings)) == Some(
            (fst, syms, lens, offsets, data, postings),
        ),
{
    let b = spec_encode(fst, syms, lens, offsets, data, postings);
    let (p1, p2, p3, p4, p5, p6) = section_ends(fst, syms, lens, offsets, data, postings);
    lemma_rt_fst(fst, syms, lens, offsets, data, postings);
    lemma_rt_lens(fst, syms, lens, offsets, data, postings);
    lemma_rt_data(fst, syms, lens, offsets, data, postings);
    lemma_rt_values(fst, syms, lens, offsets, data, postings);
    lemma_rt_postings(fst, syms, lens, offsets, data, postings);
    lemma_compose_decode(b, fst, syms, lens, offsets, data, postings, p1, p2, p3, p4, p5);
}

} // verus!
verus! {

/// Append a byte section.
fn write_bytes(s: &Vec<u8>, out: &mut Vec<u8>)
    ensures
        final(out)@ == old(out)@ + enc_bytes(s@),
{
    le64_write(s.len() as u64, out);
    out.extend_from_slice(s.as_slice());
    assert(out@ =~= old(out)@ + enc_bytes(s@));
}

/// Append a 64-bit value section.
fn write_u64s(s: &Vec<u64>, out: &mut Vec<u8>)
    ensures
        final(out)@ == old(out)@ + enc_u64s(s@),
{
    le64_write(s.len() as u64, out);
    let mut i: usize = 0;
    proof {
        assert(cat_u64s(s@.take(0)) =~= Seq::<u8>::empty());
        assert(out@ =~= old(out)@ + le64(s@.len()) + cat_u64s(s@.take(0)));
    }
    while i < s.len()
        invariant
            0 <= i <= s@.len(),
            out@ == old(out)@ + le64(s@.len()) + cat_u64s(s@.take(i as int)),
        decreases s@.len() - i,
    {
        le64_write(s[i], out);
        proof {
            assert(s@.take(i as int + 1) =~= s@.take(i as int).push(s@[i as int]));
            lemma_cat_u64s_push(s@.take(i as int), s@[i as int]);
            assert(out@ =~= old(out)@ + le64(s@.len()) + cat_u64s(s@.take(i as int + 1)));
        }
        i = i + 1;
    }
    proof {
        assert(s@.take(s@.len() as int) =~= s@);
        assert(out@ =~= old(out)@ + enc_u64s(s@));
    }
}

/// Append an offset section.
fn write_usizes(s: &Vec<usize>, out: &mut Vec<u8>)
    ensures
        final(out)@ == old(out)@ + enc_usizes(s@),
{
    le64_write(s.len() as u64, out);
    let mut i: usize = 0;
    proof {
        assert(cat_usizes(s@.take(0)) =~= Seq::<u8>::empty());
        assert(out@ =~= old(out)@ + le64(s@.len()) + cat_usizes(s@.take(0)));
    }
    while i < s.len()
        invariant
            0 <= i <= s@.len(),
            out@ == old(out)@ + le64(s@.len()) + cat_usizes(s@.take(i as int)),
        decreases s@.len() - i,
    {
        le64_write(s[i] as u64, out);
        proof {
            assert(s@.take(i as int + 1) =~= s@.take(i as int).push(s@[i as int]));
            lemma_cat_usizes_push(s@.take(i as int), s@[i as int]);
            assert(out@ =~= old(out)@ + le64(s@.len()) + cat_usizes(s@.take(i as int + 1)));
        }
        i = i + 1;
    }
    proof {
        assert(s@.take(s@.len() as int) =~= s@);
        assert(out@ =~= old(out)@ + enc_usizes(s@));
    }
}

/// Append one posting list.
fn write_plist(l: &Vec<(usize, u8)>, out: &mut Vec<u8>)
    ensures
        final(out)@ == old(out)@ + enc_plist(l@),
{
    le64_write(l.len() as u64, out);
    let mut i: usize = 0;
    proof {
        assert(cat_postings(l@.take(0)) =~= Seq::<u8>::empty());
        assert(out@ =~= old(out)@ + le64(l@.len()) + cat_postings(l@.take(0)));
    }
    while i < l.len()
        invariant
            0 <= i <= l@.len(),
            out@ == old(out)@ + le64(l@.len()) + cat_postings(l@.take(i as int)),
        decreases l@.len() - i,
    {
        le64_write(l[i].0 as u64, out);
        out.push(l[i].1);
        proof {
            assert(l@.take(i as int + 1) =~= l@.take(i as int).push(l@[i as int]));
            lemma_cat_postings_push(l@.take(i as int), l@[i as int]);
            assert(out@ =~= old(out)@ + le64(l@.len()) + cat_postings(l@.take(i as int + 1)));
        }
        i = i + 1;
    }
    proof {
        assert(l@.take(l@.len() as int) =~= l@);
        assert(out@ =~= old(out)@ + enc_plist(l@));
    }
}

/// Append the posting section.
fn write_plists(ls: &Vec<Vec<(usize, u8)>>, out: &mut Vec<u8>)
    ensures
        final(out)@ == old(out)@ + enc_plists(ls.deep_view()),
{
    le64_write(ls.len() as u64, out);
    let mut i: usize = 0;
    proof {
        assert(ls.deep_view().len() == ls@.len());
        assert(cat_plists(ls.deep_view().take(0)) =~= Seq::<u8>::empty());
        assert(out@ =~= old(out)@ + le64(ls.deep_view().len()) + cat_plists(
            ls.deep_view().take(0),
        ));
    }
    while i < ls.len()
        invariant
            0 <= i <= ls@.len(),
            ls.deep_view().len() == ls@.len(),
            forall|j: int| 0 <= j < ls@.len() ==> ls.deep_view()[j] == (#[trigger] ls@[j])@,
            out@ == old(out)@ + le64(ls.deep_view().len()) + cat_plists(
                ls.deep_view().take(i as int),
            ),
        decreases ls@.len() - i,
    {
        write_plist(&ls[i], out);
        proof {
            assert(ls.deep_view().take(i as int + 1) =~= ls.deep_view().take(i as int).push(
                ls@[i as int]@,
            ));
            lemma_cat_plists_push(ls.deep_view().take(i as int), ls@[i as int]@);
            assert(out@ =~= old(out)@ + le64(ls.deep_view().len()) + cat_plists(
                ls.deep_view().take(i as int + 1),
            ));
        }
        i = i + 1;
    }
    proof {
        assert(ls.deep_view().take(ls.deep_view().len() as int) =~= ls.deep_view());
        assert(out@ =~= old(out)@ + enc_plists(ls.deep_view()));
    }
}

impl Index {
    /// Serialize the index.  The output is a deterministic function of the
    /// index's stored parts, and decoding it restores them exactly.
    pub fn to_bytes(&self) -> (r: Result<Vec<u8>, SearchError>)
        ensures
            r is Ok,
            r matches Ok(b) ==> b@ == spec_encode(
                self.fst@,
                self.document_strings.spec_syms(),
                self.document_strings.spec_lens(),
                self.document_strings.spec_offsets(),
                self.document_strings.spec_data(),
                self.keyword_to_documents.deep_view(),
            ) && spec_decode(b@) == Some(index_parts(*self)) && FsstStrVec::parts_wf(
                self.document_strings.spec_syms(),
                self.document_strings.spec_lens(),
                self.document_strings.spec_offsets(),
                self.document_strings.spec_data(),
            ),
    {
        let nf: usize = self.fst.len();
        let ns: usize = self.document_strings.syms().len();
        let nl: usize = self.document_strings.lens().len();
        let no: usize = self.document_strings.offsets().len();
        let nd: usize = self.document_strings.data().len();
        let np: usize = self.keyword_to_documents.len();
        proof {
            use_type_invariant(&self.document_strings);
            FsstStrVec::lemma_inv_parts_wf(self.document_strings);
        }
        let mut out: Vec<u8> = Vec::new();
        write_bytes(&self.fst, &mut out);
        write_u64s(self.document_strings.syms(), &mut out);
        write_bytes(self.document_strings.lens(), &mut out);
        write_usizes(self.document_strings.offsets(), &mut out);
        write_bytes(self.document_strings.data(), &mut out);
        write_plists(&self.keyword_to_documents, &mut out);
        proof {
            assert(out@ =~= spec_encode(
                self.fst@,
                self.document_strings.spec_syms(),
                self.document_strings.spec_lens(),
                self.document_strings.spec_offsets(),
                self.document_strings.spec_data(),
                self.keyword_to_documents.deep_view(),
            ));
            assert forall|j: int|
                0 <= j < self.keyword_to_documents.deep_view().len() implies (
            #[trigger] self.keyword_to_documents.deep_view()[j]).len() <= u64::MAX by {
                vstd::std_specs::vec::axiom_spec_len(&self.keyword_to_documents@[j]);
                assert(self.keyword_to_documents.deep_view()[j].len()
                    == self.keyword_to_documents@[j]@.len());
            }
            lemma_roundtrip(
                self.fst@,
                self.document_strings.spec_syms(),
                self.document_strings.spec_lens(),
                self.document_strings.spec_offsets(),
                self.document_strings.spec_data(),
                self.keyword_to_documents.deep_view(),
            );
        }
        Ok(out)
    }
}

} // verus!

verus! {

/// Read a byte section at `p`.
fn read_bytes(b: &Vec<u8>, p: usize) -> (r: Option<(Vec<u8>, usize)>)
    ensures
        match r {
            Some((v, np)) => dec_bytes(b@, p as int) == Some((v@, np as int)) && np <= b@.len(),
            None => dec_bytes(b@, p as int) is None,
        },
{
    let blen: usize = b.len();
    let n = match le64_read(b, p) {
        Some(v) => v,
        None => {
            return None;
        },
    };
    let q = p + 8;
    if n > (b.len() - q) as u64 {
        return None;
    }
    let v = vstd::slice::slice_to_vec(
        vstd::slice::slice_subrange(b.as_slice(), q, q + n as usize),
    );
    Some((v, q + n as usize))
}

/// Read a 64-bit value section at `p`.
fn read_u64s(b: &Vec<u8>, p: usize) -> (r: Option<(Vec<u64>, usize)>)
    ensures
        match r {
            Some((v, np)) => dec_u64s(b@, p as int) == Some((v@, np as int)) && np <= b@.len(),
            None => dec_u64s(b@, p as int) is None,
        },
{
    let blen: usize = b.len();
    let n = match le64_read(b, p) {
        Some(v) => v,
        None => {
            return None;
        },
    };
    let mut cur: usize = p + 8;
    let mut acc: Vec<u64> = Vec::new();
    let mut i: u64 = 0;
    proof {
        if dec_cat_u64s(b@, cur as int, n as nat) is Some {
            let (rest, end) = dec_cat_u64s(b@, cur as int, n as nat).unwrap();
            assert(acc@ + rest =~= rest);
        }
    }
    while i < n
        invariant
            0 <= i <= n,
            cur <= b@.len() <= usize::MAX,
            dec_u64s(b@, p as int) == (match dec_cat_u64s(b@, cur as int, (n - i) as nat) {
                Some((rest, end)) => Some((acc@ + rest, end)),
                None => None::<(Seq<u64>, int)>,
            }),
        decreases n - i,
    {
        let v = match le64_read(b, cur) {
            Some(v) => v,
            None => {
                return None;
            },
        };
        let ghost prev = acc@;
        acc.push(v);
        proof {
            let rest_opt = dec_cat_u64s(b@, cur as int + 8, (n - i - 1) as nat);
            if rest_opt is Some {
                let (rest, end) = rest_opt.unwrap();
                assert(prev + (seq![v] + rest) =~= acc@ + rest);
            }
        }
        cur = cur + 8;
        i = i + 1;
    }
    proof {
        assert(dec_cat_u64s(b@, cur as int, 0) == Some((Seq::<u64>::empty(), cur as int)));
        assert(acc@ + Seq::<u64>::empty() =~= acc@);
    }
    Some((acc, cur))
}

/// Read an offset section at `p`.
fn read_usizes(b: &Vec<u8>, p: usize) -> (r: Option<(Vec<usize>, usize)>)
    ensures
        match r {
            Some((v, np)) => dec_usizes(b@, p as int) == Some((v@, np as int)) && np <= b@.len(),
            None => dec_usizes(b@, p as int) is None,
        },
{
    let blen: usize = b.len();
    let n = match le64_read(b, p) {
        Some(v) => v,
        None => {
            return None;
        },
    };
    let mut cur: usize = p + 8;
    let mut acc: Vec<usize> = Vec::new();
    let mut i: u64 = 0;
    proof {
        if dec_cat_usizes(b@, cur as int, n as nat) is Some {
            let (rest, end) = dec_cat_usizes(b@, cur as int, n as nat).unwrap();
            assert(acc@ + rest =~= rest);
        }
    }
    while i < n
        invariant
            0 <= i <= n,
            cur <= b@.len() <= usize::MAX,
            dec_usizes(b@, p as int) == (match dec_cat_usizes(b@, cur as int, (n - i) as nat) {
                Some((rest, end)) => Some((acc@ + rest, end)),
                None => None::<(Seq<usize>, int)>,
            }),
        decreases n - i,
    {
        let v = match le64_read(b, cur) {
            Some(v) => v,
            None => {
                return None;
            },
        };
        if v > usize::MAX as u64 {
            return None;
        }
        let ghost prev = acc@;
        acc.push(v as usize);
        proof {
            let rest_opt = dec_cat_usizes(b@, cur as int + 8, (n - i - 1) as nat);
            if rest_opt is Some {
                let (rest, end) = rest_opt.unwrap();
                assert(prev + (seq![v as usize] + rest) =~= acc@ + rest);
            }
        }
        cur = cur + 8;
        i = i + 1;
    }
    proof {
        assert(dec_cat_usizes(b@, cur as int, 0) == Some((Seq::<usize>::empty(), cur as int)));
        assert(acc@ + Seq::<usize>::empty() =~= acc@);
    }
    Some((acc, cur))
}

/// Read one posting list at `p`.
fn read_plist(b: &Vec<u8>, p: usize) -> (r: Option<(Vec<(usize, u8)>, usize)>)
    ensures
        match r {
            Some((v, np)) => dec_plist(b@, p as int) == Some((v@, np as int)) && np <= b@.len(),
            None => dec_plist(b@, p as int) is None,
        },
{
    let blen: usize = b.len();
    let n = match le64_read(b, p) {
        Some(v) => v,
        None => {
            return None;
        },
    };
    let mut cur: usize = p + 8;
    let mut acc: Vec<(usize, u8)> = Vec::new();
    let mut i: u64 = 0;
    proof {
        if dec_cat_postings(b@, cur as int, n as nat) is Some {
            let (rest, end) = dec_cat_postings(b@, cur as int, n as nat).unwrap();
            assert(acc@ + rest =~= rest);
        }
    }
    while i < n
        invariant
            0 <= i <= n,
            cur <= b@.len() <= usize::MAX,
            dec_plist(b@, p as int) == (match dec_cat_postings(b@, cur as int, (n - i) as nat) {
                Some((rest, end)) => Some((acc@ + rest, end)),
                None => None::<(Seq<(usize, u8)>, int)>,
            }),
        decreases n - i,
    {
        let v = match le64_read(b, cur) {
            Some(v) => v,
            None => {
                return None;
            },
        };
        if v > usize::MAX as u64 {
            return None;
        }
        if cur + 8 >= b.len() {
            return None;
        }
        let s = b[cur + 8];
        let ghost prev = acc@;
        acc.push((v as usize, s));
        proof {
            let rest_opt = dec_cat_postings(b@, cur as int + 9, (n - i - 1) as nat);
            if rest_opt is Some {
                let (rest, end) = rest_opt.unwrap();
                assert(prev + (seq![(v as usize, s)] + rest) =~= acc@ + rest);
            }
        }
        cur = cur + 9;
        i = i + 1;
    }
    proof {
        assert(dec_cat_postings(b@, cur as int, 0) == Some(
            (Seq::<(usize, u8)>::empty(), cur as int),
        ));
        assert(acc@ + Seq::<(usize, u8)>::empty() =~= acc@);
    }
    Some((acc, cur))
}

/// Read the posting section at `p`.
fn read_plists(b: &Vec<u8>, p: usize) -> (r: Option<(Vec<Vec<(usize, u8)>>, usize)>)
    ensures
        match r {
            Some((v, np)) => dec_plists(b@, p as int) == Some((v.deep_view(), np as int)) && np
                <= b@.len(),
            None => dec_plists(b@, p as int) is None,
        },
{
    let blen: usize = b.len();
    let n = match le64_read(b, p) {
        Some(v) => v,
        None => {
            return None;
        },
    };
    let mut cur: usize = p + 8;
    let mut acc: Vec<Vec<(usize, u8)>> = Vec::new();
    let mut i: u64 = 0;
    proof {
        assert(acc.deep_view() =~= Seq::<Seq<(usize, u8)>>::empty());
        if dec_cat_plists(b@, cur as int, n as nat) is Some {
            let (rest, end) = dec_cat_plists(b@, cur as int, n as nat).unwrap();
            assert(acc.deep_view() + rest =~= rest);
        }
    }
    while i < n
        invariant
            0 <= i <= n,
            cur <= b@.len() <= usize::MAX,
            dec_plists(b@, p as int) == (match dec_cat_plists(b@, cur as int, (n - i) as nat) {
                Some((rest, end)) => Some((acc.deep_view() + rest, end)),
                None => None::<(Seq<Seq<(usize, u8)>>, int)>,
            }),
        decreases n - i,
    {
        let (l, np) = match read_plist(b, cur) {
            Some(x) => x,
            None => {
                return None;
            },
        };
        let ghost prev = acc.deep_view();
        let ghost lv = l@;
        proof {
            assert(l.deep_view() =~= lv);
        }
        acc.push(l);
        proof {
            assert(acc.deep_view() =~= prev.push(lv));
            let rest_opt = dec_cat_plists(b@, np as int, (n - i - 1) as nat);
            if rest_opt is Some {
                let (rest, end) = rest_opt.unwrap();
                assert(prev + (seq![lv] + rest) =~= acc.deep_view() + rest);
            }
        }
        cur = np;
        i = i + 1;
    }
    proof {
        assert(dec_cat_plists(b@, cur as int, 0) == Some(
            (Seq::<Seq<(usize, u8)>>::empty(), cur as int),
        ));
        assert(acc.deep_view() + Seq::<Seq<(usize, u8)>>::empty() =~= acc.deep_view());
    }
    Some((acc, cur))
}

impl Index {
    /// Deserialize an index.  Succeeds exactly when the bytes parse as one
    /// whole serialized index whose column parts are valid, and then restores
    /// the stored parts exactly.
    pub fn from_bytes(bytes: &[u8]) -> (r: Result<Index, SearchError>)
        ensures
            r is Ok <==> (spec_decode(bytes@) matches Some(parts) && FsstStrVec::parts_wf(
                parts.1,
                parts.2,
                parts.3,
                parts.4,
            )),
            r matches Ok(idx) ==> spec_decode(bytes@) == Some(index_parts(idx)),
    {
        let b = vstd::slice::slice_to_vec(bytes);
        let (fst, p1) = match read_bytes(&b, 0) {
            Some(x) => x,
            None => {
                return Err(SearchError::CorruptIndex);
            },
        };
        let (syms, p2) = match read_u64s(&b, p1) {
            Some(x) => x,
            None => {
                return Err(SearchError::CorruptIndex);
            },
        };
        let (lens, p3) = match read_bytes(&b, p2) {
            Some(x) => x,
            None => {
                return Err(SearchError::CorruptIndex);
            },
        };
        let (offsets, p4) = match read_usizes(&b, p3) {
            Some(x) => x,
            None => {
                return Err(SearchError::CorruptIndex);
            },
        };
        let (data, p5) = match read_bytes(&b, p4) {
            Some(x) => x,
            None => {
                return Err(SearchError::CorruptIndex);
            },
        };
        let (postings, p6) = match read_plists(&b, p5) {
            Some(x) => x,
            None => {
                return Err(SearchError::CorruptIndex);
            },
        };
        if p6 != b.len() {
            return Err(SearchError::CorruptIndex);
        }
        let column = match FsstStrVec::from_parts(syms, lens, offsets, data) {
            Some(c) => c,
            None => {
                return Err(SearchError::CorruptIndex);
            },
        };
        Ok(Index { fst, document_strings: column, keyword_to_documents: postings })
    }
}

} // verus!
