//! The application index and the fuzzy ranker: turning a directory scan
//! into a sorted list of launchable applications, deciding cache freshness,
//! the fixed table of synthetic system actions, and ranking candidates
//! against a query.

use vstd::prelude::*;
use vstd::seq_lib::*;

use crate::matcher::fuzzy_score;
use crate::matcher::lower_of;
use crate::matcher::lowercase;
use crate::matcher::skim_score;
use crate::rank::lemma_filter_map_agree;
use crate::rank::lemma_filter_subsumed;
use crate::rank::lemma_to_multiset_elements;
use crate::rank::lemma_reinsert_filter;
use crate::rank::lemma_to_multiset_map_values;
use crate::rank::sort_scored;
use crate::rank::sorted_desc;
use crate::rank::with_score;
use crate::search_mode::result_view;
use crate::search_mode::ResultView;
use crate::search_mode::SearchMode;
use crate::search_mode::SearchResult;
use crate::text::ci_subseq;
use crate::text::folding_of;
use crate::text::has_ascii_upper;
use crate::text::lemma_ci_subseq_unfold;
use crate::text::lemma_lex_le_total;
use crate::text::lemma_lex_le_trans;
use crate::text::lemma_smart_subseq_implies_ci;
use crate::text::lex_le;
use crate::text::str_lex_le;

verus! {

/// How long a cached index stays valid, in seconds.
pub const CACHE_MAX_AGE_SECS: u64 = 3600;

/// One launchable entry: either a real installed application (`path` set,
/// `command` absent) or a synthetic system action (`path` empty, `command`
/// set). Immutable after creation.
#[derive(Debug)]
pub struct Application {
    pub name: String,
    pub path: String,
    pub is_action: bool,
    pub command: Option<String>,
}

impl Clone for Application {
    fn clone(&self) -> (r: Self)
        ensures
            r == *self,
    {
        Application {
            name: self.name.clone(),
            path: self.path.clone(),
            is_action: self.is_action,
            command: match &self.command {
                Some(c) => Some(c.clone()),
                None => None,
            },
        }
    }
}

/// The mathematical content of an `Application`: its fields as sequences.
pub ghost struct AppView {
    pub name: Seq<char>,
    pub path: Seq<char>,
    pub is_action: bool,
    pub command: Option<Seq<char>>,
}

/// The view of one application.
pub open spec fn app_view(a: Application) -> AppView {
    AppView {
        name: a.name@,
        path: a.path@,
        is_action: a.is_action,
        command: match a.command {
            Some(c) => Some(c@),
            None => None,
        },
    }
}

/// Whether a cache written `age_secs` ago may still be served; anything
/// older forces a fresh scan.
pub fn cache_is_fresh(age_secs: u64) -> (r: bool)
    ensures
        r == (age_secs < CACHE_MAX_AGE_SECS),
{
    age_secs < CACHE_MAX_AGE_SECS
}

/// The name of a directory entry that is an application bundle: it ends in
/// `.app`.
pub open spec fn is_bundle_name(name: Seq<char>) -> bool {
    name.len() >= 4 && name[name.len() - 4] == '.' && name[name.len() - 3] == 'a' && name[name.len()
        - 2] == 'p' && name[name.len() - 1] == 'p'
}

/// Decides `is_bundle_name` on a string slice.
fn name_is_bundle(name: &str) -> (r: bool)
    ensures
        r == is_bundle_name(name@),
{
    let n = name.unicode_len();
    if n < 4 {
        return false;
    }
    name.get_char(n - 4) == '.' && name.get_char(n - 3) == 'a' && name.get_char(n - 2) == 'p'
        && name.get_char(n - 1) == 'p'
}

/// The application record a scanned bundle entry gives rise to: the bundle
/// suffix is stripped from the name, the full path is kept.
pub open spec fn scanned_app_view(entry: (String, String)) -> AppView {
    AppView {
        name: entry.0@.subrange(0, entry.0@.len() - 4),
        path: entry.1@,
        is_action: false,
        command: None,
    }
}

/// Whether a scanned directory entry (file name, full path) is kept.
pub open spec fn scan_keeps(entry: (String, String)) -> bool {
    is_bundle_name(entry.0@)
}

/// The views of a whole application list.
pub open spec fn app_views(s: Seq<Application>) -> Seq<AppView> {
    s.map_values(|a: Application| app_view(a))
}

/// The application records a list of scanned entries gives rise to.
pub open spec fn scanned_views(entries: Seq<(String, String)>) -> Seq<AppView> {
    entries.map_values(|e: (String, String)| scanned_app_view(e))
}

/// The kept scanned entries whose stripped name is exactly `nm`, in scan
/// order.
pub open spec fn scanned_with_name(entries: Seq<(String, String)>, nm: Seq<char>) -> Seq<
    (String, String),
> {
    entries.filter(|e: (String, String)| scan_keeps(e)).filter(
        |e: (String, String)| e.0@.subrange(0, e.0@.len() - 4) == nm,
    )
}

/// Applications ordered lexicographically by name.
pub open spec fn sorted_by_name(s: Seq<Application>) -> bool {
    forall|i: int, j: int|
        0 <= i < j < s.len() ==> lex_le((#[trigger] s[i]).name@, (#[trigger] s[j]).name@)
}

/// The applications named exactly `nm`, in order.
pub open spec fn with_name(s: Seq<Application>, nm: Seq<char>) -> Seq<Application> {
    s.filter(|a: Application| a.name@ == nm)
}

/// Sorts applications by name, lexicographically by Unicode scalar value.
/// Stable: applications with equal names (the same bundle name can occur
/// under several application directories) keep their relative order.
fn sort_apps_by_name(v: &mut Vec<Application>)
    ensures
        sorted_by_name(final(v)@),
        final(v)@.to_multiset() == old(v)@.to_multiset(),
        forall|nm: Seq<char>| #[trigger] with_name(final(v)@, nm) == with_name(old(v)@, nm),
{
    let ghost orig = v@;
    proof {
        broadcast use group_to_multiset_ensures;

    }
    let mut i: usize = 1;
    while i < v.len()
        invariant
            1 <= i,
            v@.len() == orig.len(),
            i <= v@.len() || v@.len() < 1,
            v@.to_multiset() == orig.to_multiset(),
            i > v@.len() || sorted_by_name(v@.take(i as int)),
            forall|nm: Seq<char>| #[trigger] with_name(v@, nm) == with_name(orig, nm),
        decreases v@.len() - i,
    {
        let ghost before = v@;
        let x = v.remove(i);
        let ghost removed = v@;
        let mut j: usize = 0;
        while j < i && str_lex_le(v[j].name.as_str(), x.name.as_str())
            invariant
                j <= i,
                i < before.len(),
                v@ == removed,
                removed == before.remove(i as int),
                forall|k: int| 0 <= k < j ==> lex_le((#[trigger] removed[k]).name@, x.name@),
            decreases i - j,
        {
            j = j + 1;
        }
        proof {
            if j < i {
                lemma_lex_le_total(removed[j as int].name@, x.name@);
            }
        }
        v.insert(j, x);
        proof {
            broadcast use group_to_multiset_ensures;

            assert(x == before[i as int]);
            assert(v@ == removed.insert(j as int, x));
            assert(removed.to_multiset() == before.to_multiset().remove(x));
            assert(v@.to_multiset() =~= before.to_multiset());
            assert forall|a: int, b: int| 0 <= a < b < i + 1 implies lex_le(
                (#[trigger] v@.take(i as int + 1)[a]).name@,
                (#[trigger] v@.take(i as int + 1)[b]).name@,
            ) by {
                assert(forall|k: int|
                    0 <= k < i ==> removed[k] == #[trigger] before.take(i as int)[k]);
                assert(sorted_by_name(before.take(i as int)));
                let va = v@.take(i as int + 1)[a];
                let vb = v@.take(i as int + 1)[b];
                if b < j {
                    assert(va == removed[a] && vb == removed[b]);
                } else if b == j {
                    assert(va == removed[a] && vb == x);
                } else if a < j {
                    assert(va == removed[a] && vb == removed[b - 1]);
                    if a == b - 1 {
                        assert(lex_le(removed[a].name@, x.name@));
                        lemma_lex_le_total(removed[a].name@, removed[a].name@);
                    }
                } else if a == j {
                    assert(j < i);
                    assert(va == x && vb == removed[b - 1]);
                    assert(lex_le(x.name@, removed[j as int].name@));
                    if j as int == b - 1 {
                    } else {
                        lemma_lex_le_trans(x.name@, removed[j as int].name@, removed[b - 1].name@);
                    }
                } else {
                    assert(va == removed[a - 1] && vb == removed[b - 1]);
                }
            }
            // stability: the moved application only jumps over strictly
            // larger names
            assert forall|nm: Seq<char>| #[trigger] with_name(v@, nm) == with_name(orig, nm) by {
                let key = |a: Application| a.name@ == nm;
                assert(with_name(before, nm) == with_name(orig, nm));
                if key(x) {
                    assert forall|k: int| j <= k < i implies !key(#[trigger] before[k]) by {
                        assert(before[k] == removed[k]);
                        assert((j as int) < i);
                        if before[k].name@ == nm {
                            assert(before[k].name@ == x.name@);
                            if k == j {
                                lemma_lex_le_total(x.name@, x.name@);
                                assert(lex_le(removed[j as int].name@, x.name@));
                            } else {
                                assert(lex_le(
                                    before.take(i as int)[j as int].name@,
                                    before.take(i as int)[k].name@,
                                ));
                                assert(lex_le(removed[j as int].name@, x.name@));
                            }
                            assert(false);
                        }
                    }
                }
                lemma_reinsert_filter(before, i as int, j as int, key);
                assert(v@ == before.remove(i as int).insert(j as int, before[i as int]));
                assert(v@.filter(key) == before.filter(key));
                assert(with_name(v@, nm) == v@.filter(key));
                assert(with_name(before, nm) == before.filter(key));
            }
        }
        i = i + 1;
    }
    proof {
        if orig.len() >= 1 {
            assert(v@.take(v@.len() as int) =~= v@);
        }
    }
}

/// Builds the application index from a raw directory scan. Each entry is a
/// (file name, full path) pair; entries whose name does not end in `.app`
/// are dropped, the suffix is stripped to form the application's name, and
/// the result is sorted by name. The sort is stable, so applications that
/// share a name keep the order their entries were scanned in.
pub fn applications_from_scan(entries: &Vec<(String, String)>) -> (r: Vec<Application>)
    ensures
        sorted_by_name(r@),
        r@.map_values(|a: Application| app_view(a)).to_multiset() == entries@.filter(
            |e: (String, String)| scan_keeps(e),
        ).map_values(|e: (String, String)| scanned_app_view(e)).to_multiset(),
        forall|nm: Seq<char>| #[trigger] app_views(with_name(r@, nm)) == scanned_views(
            scanned_with_name(entries@, nm),
        ),
{
    let mut kept: Vec<Application> = Vec::new();
    let mut i: usize = 0;
    while i < entries.len()
        invariant
            i <= entries@.len(),
            kept@.map_values(|a: Application| app_view(a)) == entries@.take(i as int).filter(
                |e: (String, String)| scan_keeps(e),
            ).map_values(|e: (String, String)| scanned_app_view(e)),
        decreases entries@.len() - i,
    {
        let ghost prefix = entries@.take(i as int);
        let entry = &entries[i];
        let keep = name_is_bundle(entry.0.as_str());
        if keep {
            let n = entry.0.unicode_len();
            let short = entry.0.substring_char(0, n - 4);
            let app = Application {
                name: short.to_owned(),
                path: entry.1.clone(),
                is_action: false,
                command: None,
            };
            proof {
                assert(app_view(app) == scanned_app_view(entries@[i as int]));
            }
            kept.push(app);
        }
        proof {
            reveal(Seq::filter);
            let keeps = |e: (String, String)| scan_keeps(e);
            let views = |e: (String, String)| scanned_app_view(e);
            let avs = |a: Application| app_view(a);
            assert(entries@.take(i as int + 1).drop_last() =~= prefix);
            assert(entries@.take(i as int + 1).last() == entries@[i as int]);
            if keep {
                assert(entries@.take(i as int + 1).filter(keeps) == prefix.filter(keeps).push(
                    entries@[i as int],
                ));
                assert(entries@.take(i as int + 1).filter(keeps).map_values(views)
                    =~= prefix.filter(keeps).map_values(views).push(views(entries@[i as int])));
                assert(kept@.map_values(avs) =~= kept@.drop_last().map_values(avs).push(
                    avs(kept@.last()),
                ));
            } else {
                assert(entries@.take(i as int + 1).filter(keeps) == prefix.filter(keeps));
            }
        }
        i = i + 1;
    }
    proof {
        assert(entries@.take(entries@.len() as int) =~= entries@);
    }
    let ghost collected = kept@;
    sort_apps_by_name(&mut kept);
    proof {
        let av = |a: Application| app_view(a);
        let sv = |e: (String, String)| scanned_app_view(e);
        let keeps = |e: (String, String)| scan_keeps(e);
        lemma_to_multiset_map_values(kept@, collected, av);
        assert forall|nm: Seq<char>| #[trigger] app_views(with_name(kept@, nm)) == scanned_views(
            scanned_with_name(entries@, nm),
        ) by {
            let key = |a: Application| a.name@ == nm;
            let pv = |v: AppView| v.name == nm;
            let qe = |e: (String, String)| e.0@.subrange(0, e.0@.len() - 4) == nm;
            assert(with_name(kept@, nm) == with_name(collected, nm));
            lemma_filter_map_agree(collected, av, pv, key);
            assert(collected.map_values(av) == entries@.filter(keeps).map_values(sv));
            lemma_filter_map_agree(entries@.filter(keeps), sv, pv, qe);
            assert(app_views(with_name(kept@, nm)) == collected.filter(key).map_values(av));
            assert(collected.filter(key).map_values(av) == collected.map_values(av).filter(pv));
            assert(entries@.filter(keeps).map_values(sv).filter(pv) == entries@.filter(
                keeps,
            ).filter(qe).map_values(sv));
            assert(scanned_views(scanned_with_name(entries@, nm)) == entries@.filter(keeps).filter(
                qe,
            ).map_values(sv));
        }
    }
    kept
}

/// The fuzzy score of an application's name against a query, both
/// lowercased: `None` when the name cannot match the query at all.
pub open spec fn app_score(a: Application, query: Seq<char>) -> Option<i64> {
    fuzzy_score(lower_of(a.name@), lower_of(query))
}

/// Whether the ranker keeps a candidate for this query.
pub open spec fn app_matches(a: Application, query: Seq<char>) -> bool {
    app_score(a, query) is Some
}

/// The candidates scoring exactly `score` against `query`, in order.
pub open spec fn with_app_score(s: Seq<Application>, query: Seq<char>, score: i64) -> Seq<
    Application,
> {
    s.filter(|a: Application| app_score(a, query) == Some(score))
}

/// Everything the collection phase of the ranker knows of one scored pair.
spec fn scored_pair_ok(p: (i64, Application), query: Seq<char>) -> bool {
    &&& app_matches(p.1, query)
    &&& p.0 == app_score(p.1, query).unwrap()
    &&& ci_subseq(lower_of(query), lower_of(p.1.name@))
    &&& vstd::utf8::is_ascii_chars(p.1.name@) ==> folding_of(p.1.name@, lower_of(p.1.name@))
}

/// Ranks applications against a query. An empty query returns the
/// candidates unchanged. Otherwise every candidate whose lowercased name
/// the lowercased query can fuzzy-match is kept — exactly those, and a
/// candidate matches precisely when the lowercased query's characters
/// appear in order, up to ASCII case, in its lowercased name — and the
/// kept candidates are ordered by score, highest first; the sort is stable,
/// so equal scores keep the candidates' original order (for every score,
/// the subsequence of candidates carrying it is unchanged). A kept
/// candidate's name always contains the query's characters in order up to
/// ASCII case: stated on the lowercased forms in general, and on the raw
/// name and query where both are ASCII.
pub fn fuzzy_search(apps: &Vec<Application>, query: &str) -> (r: Vec<Application>)
    ensures
        query@.len() == 0 ==> r@ == apps@,
        query@.len() > 0 ==> {
            &&& r@.to_multiset() == apps@.filter(
                |a: Application| app_matches(a, query@),
            ).to_multiset()
            &&& forall|s: i64| #[trigger] with_app_score(r@, query@, s) == with_app_score(
                apps@,
                query@,
                s,
            )
            &&& forall|k: int| 0 <= k < r@.len() ==> app_matches(#[trigger] r@[k], query@)
            &&& forall|k: int, l: int|
                0 <= k < l < r@.len() ==> app_score(#[trigger] r@[k], query@).unwrap()
                    >= app_score(#[trigger] r@[l], query@).unwrap()
            &&& forall|k: int|
                0 <= k < r@.len() ==> ci_subseq(
                    lower_of(query@),
                    lower_of((#[trigger] r@[k]).name@),
                )
            &&& forall|k: int|
                0 <= k < apps@.len() ==> (app_matches(#[trigger] apps@[k], query@) <==> ci_subseq(
                    lower_of(query@),
                    lower_of(apps@[k].name@),
                ))
            &&& forall|k: int|
                0 <= k < r@.len() && vstd::utf8::is_ascii_chars(query@)
                    && vstd::utf8::is_ascii_chars((#[trigger] r@[k]).name@) ==> ci_subseq(
                    query@,
                    r@[k].name@,
                )
        },
{
    if query.is_empty() {
        let mut out: Vec<Application> = Vec::new();
        let mut i: usize = 0;
        while i < apps.len()
            invariant
                i <= apps@.len(),
                out@ == apps@.take(i as int),
            decreases apps@.len() - i,
        {
            out.push(apps[i].clone());
            proof {
                assert(out@ =~= apps@.take(i as int + 1));
            }
            i = i + 1;
        }
        proof {
            assert(apps@.take(apps@.len() as int) =~= apps@);
        }
        return out;
    }
    let ghost q = query@;
    let lquery = lowercase(query);
    let mut scored: Vec<(i64, Application)> = Vec::new();
    let mut i: usize = 0;
    while i < apps.len()
        invariant
            i <= apps@.len(),
            q == query@,
            q.len() > 0,
            lquery@ == lower_of(q),
            !has_ascii_upper(lquery@),
            vstd::utf8::is_ascii_chars(q) ==> folding_of(q, lquery@),
            scored@.map_values(|p: (i64, Application)| p.1) == apps@.take(i as int).filter(
                |a: Application| app_matches(a, q),
            ),
            forall|k: int| 0 <= k < scored@.len() ==> scored_pair_ok(#[trigger] scored@[k], q),
            forall|k: int|
                0 <= k < i ==> (app_matches(#[trigger] apps@[k], q) <==> ci_subseq(
                    lower_of(q),
                    lower_of(apps@[k].name@),
                )),
        decreases apps@.len() - i,
    {
        let ghost prefix = apps@.take(i as int);
        let app = &apps[i];
        let lname = lowercase(app.name.as_str());
        let score_opt = skim_score(lname.as_str(), lquery.as_str());
        proof {
            reveal(Seq::filter);
            assert(apps@.take(i as int + 1).drop_last() =~= prefix);
            assert(apps@.take(i as int + 1).last() == apps@[i as int]);
            // the matcher finds a score exactly when the lowercased query
            // embeds into the lowercased name: the lowered query holds no
            // capital, so smart case compares up to ASCII case
            assert(app_matches(apps@[i as int], q) <==> ci_subseq(
                lower_of(q),
                lower_of(apps@[i as int].name@),
            ));
        }
        match score_opt {
            Some(score) => {
                scored.push((score, app.clone()));
                proof {
                    let snd = |p: (i64, Application)| p.1;
                    let pred = |a: Application| app_matches(a, q);
                    lemma_smart_subseq_implies_ci(lower_of(q), lower_of(apps@[i as int].name@));
                    assert(scored@.last().1 == apps@[i as int]);
                    assert(scored@.map_values(snd) =~= scored@.drop_last().map_values(snd).push(
                        scored@.last().1,
                    ));
                    assert(apps@.take(i as int + 1).filter(pred) == prefix.filter(pred).push(
                        apps@[i as int],
                    ));
                }
            },
            None => {
                proof {
                    let pred = |a: Application| app_matches(a, q);
                    assert(apps@.take(i as int + 1).filter(pred) == prefix.filter(pred));
                }
            },
        }
        i = i + 1;
    }
    proof {
        assert(apps@.take(apps@.len() as int) =~= apps@);
    }
    let ghost collected = scored@;
    sort_scored(&mut scored);
    proof {
        lemma_to_multiset_elements(collected, scored@);
        assert forall|k: int| 0 <= k < scored@.len() implies scored_pair_ok(
            #[trigger] scored@[k],
            q,
        ) by {
            assert(collected.contains(scored@[k]));
            let j = choose|j: int| 0 <= j < collected.len() && collected[j] == scored@[k];
            assert(scored_pair_ok(collected[j], q));
        }
    }
    let mut out: Vec<Application> = Vec::new();
    let mut k: usize = 0;
    while k < scored.len()
        invariant
            k <= scored@.len(),
            out@ == scored@.take(k as int).map_values(|p: (i64, Application)| p.1),
        decreases scored@.len() - k,
    {
        out.push(scored[k].1.clone());
        proof {
            let snd = |p: (i64, Application)| p.1;
            assert(scored@.take(k as int + 1).drop_last() =~= scored@.take(k as int));
            assert(scored@.take(k as int + 1).map_values(snd) =~= scored@.take(
                k as int,
            ).map_values(snd).push(scored@[k as int].1));
        }
        k = k + 1;
    }
    proof {
        let snd = |p: (i64, Application)| p.1;
        let pred = |a: Application| app_matches(a, q);
        assert(scored@.take(scored@.len() as int) =~= scored@);
        assert(out@ == scored@.map_values(snd));
        lemma_to_multiset_map_values(scored@, collected, snd);
        assert(out@.to_multiset() == apps@.filter(pred).to_multiset());
        assert forall|x: int| 0 <= x < out@.len() implies scored_pair_ok(
            (scored@[x].0, #[trigger] out@[x]),
            q,
        ) && app_score(out@[x], q).unwrap() == scored@[x].0 by {
            assert(out@[x] == scored@[x].1);
            assert(scored_pair_ok(scored@[x], q));
        }
        assert forall|x: int|
            0 <= x < out@.len() && vstd::utf8::is_ascii_chars(q) && vstd::utf8::is_ascii_chars(
                (#[trigger] out@[x]).name@,
            ) implies ci_subseq(q, out@[x].name@) by {
            assert(scored_pair_ok(scored@[x], q));
            lemma_ci_subseq_unfold(q, out@[x].name@, lower_of(q), lower_of(out@[x].name@));
        }
        assert forall|x: int, y: int| 0 <= x < y < out@.len() implies app_score(
            #[trigger] out@[x],
            q,
        ).unwrap() >= app_score(#[trigger] out@[y], q).unwrap() by {
            assert(sorted_desc(scored@));
            assert(scored@[x].0 >= scored@[y].0);
        }
        // stability: for every score, the kept candidates carrying it come
        // out in their original order
        assert forall|s: i64| #[trigger] with_app_score(out@, q, s) == with_app_score(
            apps@,
            q,
            s,
        ) by {
            let key = |p: (i64, Application)| p.0 == s;
            let ps = |a: Application| app_score(a, q) == Some(s);
            lemma_filter_map_agree(scored@, snd, ps, key);
            assert(with_score(scored@, s) == with_score(collected, s));
            assert(scored@.filter(key) == collected.filter(key));
            lemma_filter_map_agree(collected, snd, ps, key);
            assert(collected.map_values(snd) == apps@.filter(pred));
            assert forall|a: Application| #[trigger] ps(a) implies pred(a) by {}
            lemma_filter_subsumed(apps@, pred, ps);
            assert(out@.filter(ps) == apps@.filter(ps));
            assert(with_app_score(out@, q, s) == out@.filter(ps));
            assert(with_app_score(apps@, q, s) == apps@.filter(ps));
        }
    }
    out
}

/// The `Apps` result an application is presented as.
pub open spec fn app_result_view(a: Application) -> ResultView {
    ResultView {
        name: a.name@,
        path: a.path@,
        result_type: SearchMode::Apps,
    }
}

/// Presents the first `limit` of a ranked or sorted application list as
/// `Apps` results, in order.
pub fn apps_to_results(apps: &Vec<Application>, limit: usize) -> (r: Vec<SearchResult>)
    ensures
        r@.len() == if apps@.len() <= limit {
            apps@.len() as int
        } else {
            limit as int
        },
        r@.map_values(|x: SearchResult| result_view(x))
            == apps@.take(r@.len() as int).map_values(|a: Application| app_result_view(a)),
{
    let mut out: Vec<SearchResult> = Vec::new();
    let mut i: usize = 0;
    while i < apps.len() && i < limit
        invariant
            i <= apps@.len(),
            i <= limit,
            out@.len() == i,
            out@.map_values(|x: SearchResult| result_view(x)) == apps@.take(
                i as int,
            ).map_values(|a: Application| app_result_view(a)),
        decreases apps@.len() - i,
    {
        let a = &apps[i];
        out.push(SearchResult::new(a.name.clone(), a.path.clone(), SearchMode::Apps));
        proof {
            let rv = |x: SearchResult| result_view(x);
            let av = |a: Application| app_result_view(a);
            assert(out@.map_values(rv) =~= out@.drop_last().map_values(rv).push(
                result_view(out@.last()),
            ));
            assert(apps@.take(i as int + 1).map_values(av) =~= apps@.take(i as int).map_values(
                av,
            ).push(app_result_view(apps@[i as int])));
        }
        i = i + 1;
    }
    out
}

/// Builds one synthetic system action.
fn action(name: &str, command: &str) -> (a: Application)
    ensures
        app_view(a) == (AppView { name: name@, path: Seq::<char>::empty(), is_action: true, command: Some(command@) }),
{
    let a = Application {
        name: name.to_owned(),
        path: String::new(),
        is_action: true,
        command: Some(command.to_owned()),
    };
    proof {
        assert(a.path@ =~= Seq::<char>::empty());
    }
    a
}

/// Whether an application is the given synthetic action.
pub open spec fn is_action_entry(a: Application, name: Seq<char>, command: Seq<char>) -> bool {
    app_view(a) == (AppView {
        name: name,
        path: Seq::<char>::empty(),
        is_action: true,
        command: Some(command),
    })
}

/// The fixed table of synthetic system actions that can be offered next to
/// real applications: shortcuts and power actions, in this order.
pub fn system_actions() -> (r: Vec<Application>)
    ensures
        r@.len() == 7,
        is_action_entry(r@[0], "🔍 Browser"@, "open -a Safari"@),
        is_action_entry(r@[1], "📁 Files"@, "open -a Finder"@),
        is_action_entry(r@[2], "⚡ Terminal"@, "open -a Terminal"@),
        is_action_entry(
            r@[3],
            "🔌 Shutdown"@,
            "osascript -e 'tell app \"System Events\" to shut down'"@,
        ),
        is_action_entry(
            r@[4],
            "🔄 Reboot"@,
            "osascript -e 'tell app \"System Events\" to restart'"@,
        ),
        is_action_entry(r@[5], "💤 Sleep"@, "pmset sleepnow"@),
        is_action_entry(r@[6], "🔒 Lock Screen"@, "pmset displaysleepnow"@),
{
    let mut r: Vec<Application> = Vec::new();
    r.push(action("🔍 Browser", "open -a Safari"));
    r.push(action("📁 Files", "open -a Finder"));
    r.push(action("⚡ Terminal", "open -a Terminal"));
    r.push(action("🔌 Shutdown", "osascript -e 'tell app \"System Events\" to shut down'"));
    r.push(action("🔄 Reboot", "osascript -e 'tell app \"System Events\" to restart'"));
    r.push(action("💤 Sleep", "pmset sleepnow"));
    r.push(action("🔒 Lock Screen", "pmset displaysleepnow"));
    r
}

} // verus!
