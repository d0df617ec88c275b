//! Per-document keyword extraction: explicit metadata keywords, title words,
//! and budgeted body phrases from an external phrase scorer, each normalized,
//! deduplicated, and scored on a fixed ladder.

use vstd::prelude::*;

use crate::text::{
    count_spaces, lower_of, norm_token, normalize_token, split_whitespace_vec, split_ws, str_chars,
};

verus! {

/// The score given to an explicit metadata keyword.
pub const EXPLICIT_SCORE: u8 = 100;

/// The score given to a keyword taken from the title.
pub const TITLE_SCORE: u8 = 90;

/// How many single-word body phrases may be accepted per document.
pub const SINGLE_WORD_BUDGET: u32 = 5;

/// How many two-word body phrases may be accepted per document.
pub const DOUBLE_WORD_BUDGET: u32 = 3;

/// Whether `w` occurs in `ss`.
pub open spec fn has_str(ss: Seq<Seq<char>>, w: Seq<char>) -> bool {
    exists|i: int| 0 <= i < ss.len() && ss[i] == w
}

/// Fold the already-normalized candidates `cands` into `acc`, skipping any
/// that are empty, stop words, or already seen; accepted keywords are scored
/// as given and added to the seen list.
pub open spec fn add_candidates(
    cands: Seq<(Seq<char>, u8)>,
    stops: Seq<Seq<char>>,
    seen: Seq<Seq<char>>,
    acc: Seq<(Seq<char>, u8)>,
) -> (Seq<(Seq<char>, u8)>, Seq<Seq<char>>)
    decreases cands.len(),
{
    if cands.len() == 0 {
        (acc, seen)
    } else {
        let (w, s) = cands[0];
        if w.len() > 0 && !has_str(stops, w) && !has_str(seen, w) {
            add_candidates(cands.drop_first(), stops, seen.push(w), acc.push((w, s)))
        } else {
            add_candidates(cands.drop_first(), stops, seen, acc)
        }
    }
}

/// Fold the body phrases `items` (each a raw phrase with its clamped score)
/// into `acc` under the two word-count budgets: a phrase with no space spends
/// a single-word slot, a phrase with one space spends a double-word slot, any
/// other phrase is skipped, and the fold stops when both budgets are spent.
pub open spec fn add_body(
    items: Seq<(Seq<char>, u8)>,
    seen: Seq<Seq<char>>,
    sb: u32,
    db: u32,
    acc: Seq<(Seq<char>, u8)>,
) -> Seq<(Seq<char>, u8)>
    decreases items.len(),
{
    if items.len() == 0 || (sb == 0 && db == 0) {
        acc
    } else {
        let (phrase, s) = items[0];
        let w = lower_of(phrase);
        if has_str(seen, w) {
            add_body(items.drop_first(), seen, sb, db, acc)
        } else {
            let spaces = count_spaces(phrase);
            if spaces == 0 && sb > 0 {
                add_body(items.drop_first(), seen.push(w), (sb - 1) as u32, db, acc.push((w, s)))
            } else if spaces == 1 && db > 0 {
                add_body(items.drop_first(), seen.push(w), sb, (db - 1) as u32, acc.push((w, s)))
            } else {
                add_body(items.drop_first(), seen, sb, db, acc)
            }
        }
    }
}

/// The full keyword list of one document: explicit keywords (normalized,
/// score 100), then title words (normalized, score 90), then budgeted body
/// phrases (lower-cased, scorer's clamped score), each emitted at most once.
pub open spec fn spec_extract(
    title: Seq<char>,
    explicit: Option<Seq<Seq<char>>>,
    stops: Seq<Seq<char>>,
    rake_pairs: Seq<(Seq<char>, u8)>,
) -> Seq<(Seq<char>, u8)> {
    let exp_cands = match explicit {
        Some(ks) => ks.map_values(|k: Seq<char>| (norm_token(k), EXPLICIT_SCORE)),
        None => Seq::empty(),
    };
    let (acc1, seen1) = add_candidates(exp_cands, stops, Seq::empty(), Seq::empty());
    let title_cands = split_ws(title).map_values(|t: Seq<char>| (norm_token(t), TITLE_SCORE));
    let (acc2, seen2) = add_candidates(title_cands, stops, seen1, acc1);
    add_body(rake_pairs, seen2, SINGLE_WORD_BUDGET, DOUBLE_WORD_BUDGET, acc2)
}

/// Relies on rake::Rake::run_fragments to extract scored keyword phrases from
/// body text, with the given stop words installed; each score is clamped to
/// [0, 255] and truncated, as Rust's f64-to-u8 cast does.
#[verifier::external_body]
pub fn rake_keywords(body: &String, stop_words: &Vec<String>) -> (r: Vec<(String, u8)>) {
    let set: std::collections::HashSet<String> = stop_words.iter().cloned().collect();
    let rake = rake::Rake::new(rake::StopWords::from(set));
    rake.run_fragments(vec![body.as_str()])
        .into_iter()
        .map(|k| (k.keyword, k.score as u8))
        .collect()
}

/// Whether `v` holds a string equal to `w`.
pub fn contains_string(v: &Vec<String>, w: &String) -> (r: bool)
    ensures
        r == has_str(v.deep_view(), w@),
{
    let mut i: usize = 0;
    while i < v.len()
        invariant
            0 <= i <= v@.len(),
            v.deep_view().len() == v@.len(),
            forall|j: int| 0 <= j < v@.len() ==> v.deep_view()[j] == #[trigger] v@[j]@,
            forall|j: int| 0 <= j < i ==> v.deep_view()[j] != w@,
        decreases v@.len() - i,
    {
        if v[i] == *w {
            return true;
        }
        i = i + 1;
    }
    false
}

/// Extract the keyword list of one document, given the phrase scorer's output
/// for its body.
pub fn extract_keywords(
    title: &String,
    explicit: &Option<Vec<String>>,
    stops: &Vec<String>,
    rake_pairs: &Vec<(String, u8)>,
) -> (r: Vec<(String, u8)>)
    ensures
        r.deep_view() == spec_extract(
            title@,
            match explicit {
                Some(ks) => Some(ks.deep_view()),
                None => None,
            },
            stops.deep_view(),
            rake_pairs.deep_view(),
        ),
{
    let ghost especs: Option<Seq<Seq<char>>> = match explicit {
        Some(ks) => Some(ks.deep_view()),
        None => None,
    };
    let mut acc: Vec<(String, u8)> = Vec::new();
    let mut seen: Vec<String> = Vec::new();

    // Explicit metadata keywords.
    let ghost exp_cands: Seq<(Seq<char>, u8)> = match especs {
        Some(ks) => ks.map_values(|k: Seq<char>| (norm_token(k), EXPLICIT_SCORE)),
        None => Seq::empty(),
    };
    proof {
        assert(seen.deep_view() =~= Seq::<Seq<char>>::empty());
        assert(acc.deep_view() =~= Seq::<(Seq<char>, u8)>::empty());
        assert(exp_cands.skip(0) =~= exp_cands);
    }
    match explicit {
        Some(ks) => {
            let mut i: usize = 0;
            while i < ks.len()
                invariant
                    0 <= i <= ks@.len(),
                    especs == Some(ks.deep_view()),
                    exp_cands == ks.deep_view().map_values(
                        |k: Seq<char>| (norm_token(k), EXPLICIT_SCORE),
                    ),
                    ks.deep_view().len() == ks@.len(),
                    forall|j: int|
                        0 <= j < ks@.len() ==> ks.deep_view()[j] == #[trigger] ks@[j]@,
                    add_candidates(
                        exp_cands.skip(i as int),
                        stops.deep_view(),
                        seen.deep_view(),
                        acc.deep_view(),
                    ) == add_candidates(exp_cands, stops.deep_view(), Seq::empty(), Seq::empty()),
                decreases ks@.len() - i,
            {
                let kchars = str_chars(ks[i].as_str());
                let w = normalize_token(&kchars);
                let ghost prev_seen = seen.deep_view();
                let ghost prev_acc = acc.deep_view();
                proof {
                    assert(exp_cands.skip(i as int)[0] == (norm_token(ks@[i as int]@),
                    EXPLICIT_SCORE));
                }
                if !w.as_str().is_empty() && !contains_string(stops, &w) && !contains_string(&seen, &w) {
                    seen.push(w.clone());
                    acc.push((w, EXPLICIT_SCORE));
                    proof {
                        assert(seen.deep_view() =~= prev_seen.push(norm_token(ks@[i as int]@)));
                        assert(acc.deep_view() =~= prev_acc.push(
                            (norm_token(ks@[i as int]@), EXPLICIT_SCORE),
                        ));
                        assert(exp_cands.skip(i as int).drop_first() =~= exp_cands.skip(
                            i as int + 1,
                        ));
                    }
                } else {
                    proof {
                        assert(w@.len() == 0 || has_str(stops.deep_view(), w@) || has_str(
                            prev_seen,
                            w@,
                        ));
                        assert(exp_cands.skip(i as int).drop_first() =~= exp_cands.skip(
                            i as int + 1,
                        ));
                    }
                }
                i = i + 1;
            }
            proof {
                assert(exp_cands.skip(ks@.len() as int) =~= Seq::<(Seq<char>, u8)>::empty());
            }
        },
        None => {
            proof {
                assert(exp_cands =~= Seq::<(Seq<char>, u8)>::empty());
            }
        },
    }
    let ghost (acc1, seen1) = add_candidates(
        exp_cands,
        stops.deep_view(),
        Seq::empty(),
        Seq::empty(),
    );
    proof {
        assert(acc.deep_view() == acc1 && seen.deep_view() == seen1) by {
            assert(add_candidates(
                exp_cands.skip(exp_cands.len() as int),
                stops.deep_view(),
                seen.deep_view(),
                acc.deep_view(),
            ) == add_candidates(exp_cands, stops.deep_view(), Seq::empty(), Seq::empty()));
            assert(exp_cands.skip(exp_cands.len() as int).len() == 0);
        }
    }

    // Title words.
    let tchars = str_chars(title.as_str());
    let words = split_whitespace_vec(&tchars);
    let ghost title_cands: Seq<(Seq<char>, u8)> = split_ws(title@).map_values(
        |t: Seq<char>| (norm_token(t), TITLE_SCORE),
    );
    proof {
        assert(title_cands.skip(0) =~= title_cands);
    }
    let mut i: usize = 0;
    while i < words.len()
        invariant
            0 <= i <= words@.len(),
            words@.map_values(|t: Vec<char>| t@) == split_ws(title@),
            title_cands == split_ws(title@).map_values(
                |t: Seq<char>| (norm_token(t), TITLE_SCORE),
            ),
            add_candidates(
                title_cands.skip(i as int),
                stops.deep_view(),
                seen.deep_view(),
                acc.deep_view(),
            ) == add_candidates(title_cands, stops.deep_view(), seen1, acc1),
        decreases words@.len() - i,
    {
        let w = normalize_token(&words[i]);
        let ghost prev_seen = seen.deep_view();
        let ghost prev_acc = acc.deep_view();
        proof {
            assert(title_cands.skip(i as int)[0] == (norm_token(words@[i as int]@), TITLE_SCORE));
        }
        if !w.as_str().is_empty() && !contains_string(stops, &w) && !contains_string(&seen, &w) {
            seen.push(w.clone());
            acc.push((w, TITLE_SCORE));
            proof {
                assert(seen.deep_view() =~= prev_seen.push(norm_token(words@[i as int]@)));
                assert(acc.deep_view() =~= prev_acc.push(
                    (norm_token(words@[i as int]@), TITLE_SCORE),
                ));
                assert(title_cands.skip(i as int).drop_first() =~= title_cands.skip(i as int + 1));
            }
        } else {
            proof {
                assert(title_cands.skip(i as int).drop_first() =~= title_cands.skip(i as int + 1));
            }
        }
        i = i + 1;
    }
    proof {
        assert(title_cands.skip(title_cands.len() as int) =~= Seq::<(Seq<char>, u8)>::empty());
    }
    let ghost (acc2, seen2) = add_candidates(title_cands, stops.deep_view(), seen1, acc1);

    // Budgeted body phrases.
    let mut sb: u32 = SINGLE_WORD_BUDGET;
    let mut db: u32 = DOUBLE_WORD_BUDGET;
    proof {
        assert(rake_pairs.deep_view().skip(0) =~= rake_pairs.deep_view());
    }
    let mut i: usize = 0;
    while i < rake_pairs.len() && !(sb == 0 && db == 0)
        invariant
            0 <= i <= rake_pairs@.len(),
            rake_pairs.deep_view().len() == rake_pairs@.len(),
            forall|j: int|
                0 <= j < rake_pairs@.len() ==> rake_pairs.deep_view()[j] == (
                #[trigger] rake_pairs@[j].0@,
                rake_pairs@[j].1,
            ),
            add_body(
                rake_pairs.deep_view().skip(i as int),
                seen.deep_view(),
                sb,
                db,
                acc.deep_view(),
            ) == add_body(
                rake_pairs.deep_view(),
                seen2,
                SINGLE_WORD_BUDGET,
                DOUBLE_WORD_BUDGET,
                acc2,
            ),
        decreases rake_pairs@.len() - i,
    {
        let phrase_chars = str_chars(rake_pairs[i].0.as_str());
        let w = crate::text::str_lowercase(rake_pairs[i].0.as_str());
        let score = rake_pairs[i].1;
        let ghost items = rake_pairs.deep_view().skip(i as int);
        let ghost prev_seen = seen.deep_view();
        let ghost prev_acc = acc.deep_view();
        proof {
            assert(items[0] == (rake_pairs@[i as int].0@, rake_pairs@[i as int].1));
            assert(items.drop_first() =~= rake_pairs.deep_view().skip(i as int + 1));
        }
        if !contains_string(&seen, &w) {
            let spaces = crate::text::count_spaces_exec(&phrase_chars);
            if spaces == 0 && sb > 0 {
                sb = sb - 1;
                seen.push(w.clone());
                acc.push((w, score));
                proof {
                    assert(seen.deep_view() =~= prev_seen.push(
                        lower_of(rake_pairs@[i as int].0@),
                    ));
                    assert(acc.deep_view() =~= prev_acc.push(
                        (lower_of(rake_pairs@[i as int].0@), rake_pairs@[i as int].1),
                    ));
                }
            } else if spaces == 1 && db > 0 {
                db = db - 1;
                seen.push(w.clone());
                acc.push((w, score));
                proof {
                    assert(seen.deep_view() =~= prev_seen.push(
                        lower_of(rake_pairs@[i as int].0@),
                    ));
                    assert(acc.deep_view() =~= prev_acc.push(
                        (lower_of(rake_pairs@[i as int].0@), rake_pairs@[i as int].1),
                    ));
                }
            }
        }
        i = i + 1;
    }
    proof {
        if i == rake_pairs@.len() {
            assert(rake_pairs.deep_view().skip(i as int) =~= Seq::<(Seq<char>, u8)>::empty());
        }
        assert(acc.deep_view() == add_body(
            rake_pairs.deep_view(),
            seen2,
            SINGLE_WORD_BUDGET,
            DOUBLE_WORD_BUDGET,
            acc2,
        ));
    }
    acc
}

} // verus!
