//! Text primitives: Unicode character classes and case folding (taken on
//! trust from std), and verified token normalization, whitespace splitting,
//! and stop-word list parsing on top of them.

use vstd::prelude::*;

verus! {

/// Whether `c` counts as alphanumeric; names the result of
/// `char::is_alphanumeric`.
pub uninterp spec fn is_alnum(c: char) -> bool;

/// Whether `c` counts as whitespace; names the result of
/// `char::is_whitespace`.
pub uninterp spec fn is_wspace(c: char) -> bool;

/// The lower-case form of a character sequence; names the result of
/// `str::to_lowercase`.
pub uninterp spec fn lower_of(s: Seq<char>) -> Seq<char>;

/// Relies on char::is_alphanumeric: a pure predicate on the character.
#[verifier::external_body]
pub fn char_is_alnum(c: char) -> (r: bool)
    ensures
        r == is_alnum(c),
{
    c.is_alphanumeric()
}

/// Relies on char::is_whitespace: a pure predicate on the character.
#[verifier::external_body]
pub fn char_is_wspace(c: char) -> (r: bool)
    ensures
        r == is_wspace(c),
{
    c.is_whitespace()
}

/// Relies on str::to_lowercase: the result depends on the characters alone.
#[verifier::external_body]
pub fn str_lowercase(s: &str) -> (r: String)
    ensures
        r@ == lower_of(s@),
{
    s.to_lowercase()
}

/// Relies on str::chars: the iterator yields exactly the characters of the
/// string, in order.
#[verifier::external_body]
pub fn str_chars(s: &str) -> (r: Vec<char>)
    ensures
        r@ == s@,
{
    s.chars().collect()
}

/// Relies on String's FromIterator impl: collecting characters builds the
/// string of exactly those characters.
#[verifier::external_body]
pub fn chars_to_string(v: &Vec<char>) -> (r: String)
    ensures
        r@ == v@,
{
    v.iter().collect()
}

/// Relies on String::from_utf8: it succeeds exactly on valid UTF-8 and
/// decodes the bytes to their character sequence.
#[verifier::external_body]
pub fn string_from_utf8(v: Vec<u8>) -> (r: Option<String>)
    ensures
        r is Some <==> vstd::utf8::valid_utf8(v@),
        r is Some ==> r.unwrap()@ == vstd::utf8::decode_utf8(v@),
{
    String::from_utf8(v).ok()
}

/// The first index at or after `i` holding an alphanumeric character, or the
/// length if there is none.
pub open spec fn first_alnum(s: Seq<char>, i: int) -> int
    decreases s.len() - i,
{
    if i < 0 || i >= s.len() {
        s.len() as int
    } else if is_alnum(s[i]) {
        i
    } else {
        first_alnum(s, i + 1)
    }
}

/// The last index at or before `i` holding an alphanumeric character, or `-1`
/// if there is none.
pub open spec fn last_alnum(s: Seq<char>, i: int) -> int
    decreases i + 1,
{
    if i < 0 || i >= s.len() {
        -1
    } else if is_alnum(s[i]) {
        i
    } else {
        last_alnum(s, i - 1)
    }
}

/// `s` with every leading and trailing non-alphanumeric character removed.
pub open spec fn trim_non_alnum(s: Seq<char>) -> Seq<char> {
    let a = first_alnum(s, 0);
    let b = last_alnum(s, s.len() - 1);
    if a == s.len() {
        Seq::empty()
    } else {
        s.subrange(a, b + 1)
    }
}

/// A normalized token: non-alphanumeric edges stripped, then lower-cased.
pub open spec fn norm_token(s: Seq<char>) -> Seq<char> {
    lower_of(trim_non_alnum(s))
}

proof fn lemma_first_alnum(s: Seq<char>, i: int)
    requires
        0 <= i <= s.len(),
    ensures
        i <= first_alnum(s, i) <= s.len(),
        forall|j: int| i <= j < first_alnum(s, i) ==> !is_alnum(s[j]),
        first_alnum(s, i) < s.len() ==> is_alnum(s[first_alnum(s, i)]),
    decreases s.len() - i,
{
    if i < s.len() && !is_alnum(s[i]) {
        lemma_first_alnum(s, i + 1);
    }
}

proof fn lemma_last_alnum(s: Seq<char>, i: int)
    requires
        -1 <= i < s.len(),
    ensures
        -1 <= last_alnum(s, i) <= i,
        forall|j: int| last_alnum(s, i) < j <= i ==> !is_alnum(s[j]),
        last_alnum(s, i) >= 0 ==> is_alnum(s[last_alnum(s, i)]),
    decreases i + 1,
{
    if i >= 0 && !is_alnum(s[i]) {
        lemma_last_alnum(s, i - 1);
    }
}

/// Strip non-alphanumeric characters from both ends of `v`.
pub fn trim_edges(v: &Vec<char>) -> (r: Vec<char>)
    ensures
        r@ == trim_non_alnum(v@),
{
    let n = v.len();
    let mut a: usize = 0;
    while a < n && !char_is_alnum(v[a])
        invariant
            0 <= a <= n == v@.len(),
            forall|j: int| 0 <= j < a ==> !is_alnum(v@[j]),
        decreases n - a,
    {
        a = a + 1;
    }
    proof {
        lemma_first_alnum(v@, 0);
        assert(first_alnum(v@, 0) == a) by {
            if first_alnum(v@, 0) < a {
                assert(!is_alnum(v@[first_alnum(v@, 0)]));
            }
            if a < first_alnum(v@, 0) {
                assert(!is_alnum(v@[a as int]));
            }
        }
    }
    if a == n {
        let r: Vec<char> = Vec::new();
        assert(r@ =~= trim_non_alnum(v@));
        return r;
    }
    let mut b: usize = n - 1;
    while b > a && !char_is_alnum(v[b])
        invariant
            a <= b < n == v@.len(),
            forall|j: int| b < j < n ==> !is_alnum(v@[j]),
        decreases b,
    {
        b = b - 1;
    }
    proof {
        lemma_last_alnum(v@, n - 1);
        assert(last_alnum(v@, n - 1) == b) by {
            if last_alnum(v@, n - 1) > b {
                assert(!is_alnum(v@[last_alnum(v@, n - 1)]));
            }
            if b > last_alnum(v@, n - 1) {
                assert(is_alnum(v@[first_alnum(v@, 0)]));
                assert(!is_alnum(v@[b as int]));
            }
        }
    }
    let mut r: Vec<char> = Vec::new();
    let mut i: usize = a;
    while i <= b
        invariant
            a <= i <= b + 1,
            b < n == v@.len(),
            r@ =~= v@.subrange(a as int, i as int),
        decreases b + 1 - i,
    {
        r.push(v[i]);
        i = i + 1;
    }
    assert(r@ =~= trim_non_alnum(v@));
    r
}

/// Normalize one raw token: strip non-alphanumeric edges, then lower-case.
pub fn normalize_token(v: &Vec<char>) -> (r: String)
    ensures
        r@ == norm_token(v@),
{
    let trimmed = trim_edges(v);
    let s = chars_to_string(&trimmed);
    str_lowercase(s.as_str())
}

/// The first index at or after `i` holding a whitespace character, or the
/// length if there is none.
pub open spec fn first_ws(s: Seq<char>, i: int) -> int
    decreases s.len() - i,
{
    if i < 0 || i >= s.len() {
        s.len() as int
    } else if is_wspace(s[i]) {
        i
    } else {
        first_ws(s, i + 1)
    }
}

/// The maximal whitespace-free runs of `s`, in order, starting at index `i`:
/// what whitespace-splitting yields.
pub open spec fn split_ws_from(s: Seq<char>, i: int) -> Seq<Seq<char>>
    decreases s.len() - i,
    when true
    via split_ws_from_decreases
{
    if i < 0 || i >= s.len() {
        Seq::empty()
    } else if is_wspace(s[i]) {
        split_ws_from(s, i + 1)
    } else {
        seq![s.subrange(i, first_ws(s, i))] + split_ws_from(s, first_ws(s, i))
    }
}

/// The whitespace-separated words of `s`.
pub open spec fn split_ws(s: Seq<char>) -> Seq<Seq<char>> {
    split_ws_from(s, 0)
}

proof fn lemma_first_ws(s: Seq<char>, i: int)
    requires
        0 <= i <= s.len(),
    ensures
        i <= first_ws(s, i) <= s.len(),
        forall|j: int| i <= j < first_ws(s, i) ==> !is_wspace(s[j]),
        first_ws(s, i) < s.len() ==> is_wspace(s[first_ws(s, i)]),
    decreases s.len() - i,
{
    if i < s.len() && !is_wspace(s[i]) {
        lemma_first_ws(s, i + 1);
    }
}

#[via_fn]
proof fn split_ws_from_decreases(s: Seq<char>, i: int) {
    if 0 <= i < s.len() && !is_wspace(s[i]) {
        lemma_first_ws(s, i);
        assert(first_ws(s, i) > i);
    }
}

/// Split `v` into its whitespace-separated words.
pub fn split_whitespace_vec(v: &Vec<char>) -> (r: Vec<Vec<char>>)
    ensures
        r@.map_values(|t: Vec<char>| t@) == split_ws(v@),
{
    let n = v.len();
    let mut r: Vec<Vec<char>> = Vec::new();
    let mut i: usize = 0;
    while i < n
        invariant
            0 <= i <= n == v@.len(),
            r@.map_values(|t: Vec<char>| t@) + split_ws_from(v@, i as int) == split_ws(v@),
        decreases n - i,
    {
        if char_is_wspace(v[i]) {
            i = i + 1;
        } else {
            let start = i;
            let mut j = i;
            while j < n && !char_is_wspace(v[j])
                invariant
                    start <= j <= n == v@.len(),
                    forall|t: int| start <= t < j ==> !is_wspace(v@[t]),
                decreases n - j,
            {
                j = j + 1;
            }
            proof {
                lemma_first_ws(v@, start as int);
                assert(first_ws(v@, start as int) == j) by {
                    if first_ws(v@, start as int) < j {
                        assert(!is_wspace(v@[first_ws(v@, start as int)]));
                    }
                    if j < first_ws(v@, start as int) {
                        assert(j < v@.len() && !is_wspace(v@[j as int]));
                    }
                }
            }
            let mut tok: Vec<char> = Vec::new();
            let mut t = start;
            while t < j
                invariant
                    start <= t <= j <= v@.len(),
                    tok@ =~= v@.subrange(start as int, t as int),
                decreases j - t,
            {
                tok.push(v[t]);
                t = t + 1;
            }
            let ghost prev = r@;
            let ghost tokv = tok@;
            r.push(tok);
            proof {
                let f = |t: Vec<char>| t@;
                assert(r@.map_values(f) =~= prev.map_values(f).push(tokv));
                assert(prev.map_values(f).push(tokv) + split_ws_from(v@, j as int)
                    =~= prev.map_values(f) + (seq![tokv] + split_ws_from(v@, j as int)));
                assert(split_ws_from(v@, start as int) == seq![tokv] + split_ws_from(
                    v@,
                    j as int,
                ));
            }
            i = j;
        }
    }
    r
}

} // verus!

verus! {

/// How many ASCII space characters `s` holds.
pub open spec fn count_spaces(s: Seq<char>) -> nat
    decreases s.len(),
{
    if s.len() == 0 {
        0
    } else {
        (if s[0] == ' ' {
            1nat
        } else {
            0nat
        }) + count_spaces(s.drop_first())
    }
}

/// Count the ASCII space characters of `v`.
pub fn count_spaces_exec(v: &Vec<char>) -> (r: usize)
    ensures
        r == count_spaces(v@),
{
    let n = v.len();
    let mut r: usize = 0;
    proof {
        assert(v@.skip(0) =~= v@);
    }
    let mut i: usize = 0;
    while i < n
        invariant
            0 <= i <= n == v@.len(),
            r <= i,
            r + count_spaces(v@.skip(i as int)) == count_spaces(v@),
        decreases n - i,
    {
        proof {
            assert(v@.skip(i as int)[0] == v@[i as int]);
            assert(v@.skip(i as int).drop_first() =~= v@.skip(i as int + 1));
        }
        if v[i] == ' ' {
            r = r + 1;
        }
        i = i + 1;
    }
    proof {
        assert(v@.skip(n as int) =~= Seq::<char>::empty());
    }
    r
}

} // verus!
