//! File search: the bookkeeping of the bounded recursive walk over the home
//! directory (skip rules, depth and result caps, raw substring matching),
//! the fuzzy re-ranking of raw matches, and the deterministic sample for
//! the empty-query browse case. The host hands in directory entries as
//! plain values and performs the actual directory reads.

use vstd::prelude::*;
use vstd::seq_lib::*;

use crate::matcher::fuzzy_score;
use crate::matcher::lower_of;
use crate::matcher::lowercase;
use crate::matcher::skim_score;
use crate::matcher::with_result_score;
use crate::rank::lemma_filter_map_agree;
use crate::rank::lemma_filter_subsumed;
use crate::rank::lemma_to_multiset_elements;
use crate::rank::lemma_to_multiset_map_values;
use crate::rank::sort_scored;
use crate::rank::sorted_desc;
use crate::rank::with_score;
use crate::search_mode::result_view;
use crate::search_mode::ResultView;
use crate::search_mode::SearchMode;
use crate::search_mode::SearchResult;
use crate::text::has_substring;
use crate::text::smart_subseq;
use crate::text::str_has_substring;

verus! {

/// Hard cap on raw matches collected before ranking.
pub const MAX_RAW_MATCHES: usize = 50;

/// Maximum directory depth below the walk's root.
pub const MAX_DEPTH: usize = 4;

/// At most this many ranked results are returned.
pub const MAX_FILE_RESULTS: usize = 8;

/// Cap on entries collected by the empty-query browse sample.
pub const BROWSE_CAP: usize = 20;

/// One directory entry as the host reports it: the entry's file name, its
/// path, its canonicalized absolute path (absent when canonicalization
/// failed), and whether it is a directory.
pub struct DirEntryInfo {
    pub name: String,
    pub path: String,
    pub canonical: Option<String>,
    pub is_dir: bool,
}

/// Entries hidden from the walk: dotfiles and the pruned subtrees.
pub open spec fn entry_skipped(name: Seq<char>) -> bool {
    (name.len() > 0 && name[0] == '.') || name == "Library"@ || name == "node_modules"@ || name
        == "target"@
}

/// A raw match: the query occurs in the entry's name, case-insensitively.
pub open spec fn entry_matches(name: Seq<char>, query: Seq<char>) -> bool {
    has_substring(lower_of(name), lower_of(query))
}

/// Decides `entry_skipped` on a string slice.
fn name_skipped(name: &str) -> (r: bool)
    ensures
        r == entry_skipped(name@),
{
    if !name.is_empty() && name.get_char(0) == '.' {
        return true;
    }
    let lib = str_eq_chars(name, "Library");
    let nm = str_eq_chars(name, "node_modules");
    let tg = str_eq_chars(name, "target");
    lib || nm || tg
}

/// Character-by-character equality of two string slices.
fn str_eq_chars(a: &str, b: &str) -> (r: bool)
    ensures
        r == (a@ == b@),
{
    let a_len = a.unicode_len();
    let b_len = b.unicode_len();
    if a_len != b_len {
        return false;
    }
    let mut i: usize = 0;
    while i < a_len
        invariant
            i <= a_len,
            a_len == a@.len(),
            a_len == b@.len(),
            forall|k: int| 0 <= k < i ==> a@[k] == b@[k],
        decreases a_len - i,
    {
        if a.get_char(i) != b.get_char(i) {
            return false;
        }
        i = i + 1;
    }
    proof {
        assert(a@ =~= b@);
    }
    true
}

/// The state of one bounded walk: the directories still to visit, each with
/// its depth below the root, and the raw matches found so far. The host
/// alternates `next_dir` with directory reads and feeds every entry back
/// through `offer_entry`; all decisions — skip rules, matching, the depth
/// bound and the match cap — are made here.
pub struct FileWalk {
    query: String,
    query_lower: String,
    pending: Vec<(String, usize)>,
    matches: Vec<SearchResult>,
}

impl FileWalk {
    /// The query this walk was started for.
    pub closed spec fn query_spec(&self) -> Seq<char> {
        self.query@
    }

    /// The raw matches collected so far.
    pub closed spec fn matches_spec(&self) -> Seq<SearchResult> {
        self.matches@
    }

    /// The directories still to visit, as (path, depth) pairs.
    pub closed spec fn pending_spec(&self) -> Seq<(Seq<char>, int)> {
        self.pending@.map_values(|p: (String, usize)| (p.0@, p.1 as int))
    }

    /// The walk's bounds hold, and the stored lowercased query is the
    /// lowercasing of the query.
    pub closed spec fn wf(&self) -> bool {
        &&& self.matches@.len() <= MAX_RAW_MATCHES
        &&& forall|k: int|
            0 <= k < self.pending@.len() ==> (#[trigger] self.pending@[k]).1 <= MAX_DEPTH
        &&& self.query_lower@ == lower_of(self.query@)
    }

    /// Starts a walk at `root` for `query`.
    pub fn new(root: String, query: &str) -> (w: FileWalk)
        ensures
            w.wf(),
            w.query_spec() == query@,
            w.matches_spec() =~= Seq::<SearchResult>::empty(),
            w.pending_spec() =~= seq![(root@, 0int)],
    {
        let query_lower = lowercase(query);
        let mut pending: Vec<(String, usize)> = Vec::new();
        pending.push((root, 0));
        FileWalk { query: query.to_owned(), query_lower, pending, matches: Vec::new() }
    }

    /// Hands out the next directory to read, with its depth, or `None` when
    /// the walk is finished: nothing is pending or the match cap is hit.
    pub fn next_dir(&mut self) -> (r: Option<(String, usize)>)
        requires
            old(self).wf(),
        ensures
            final(self).wf(),
            final(self).query_spec() == old(self).query_spec(),
            final(self).matches_spec() == old(self).matches_spec(),
            r is None ==> final(self).pending_spec() == old(self).pending_spec() && (old(
                self,
            ).pending_spec().len() == 0 || old(self).matches_spec().len() >= MAX_RAW_MATCHES),
            r is Some ==> {
                &&& old(self).pending_spec().len() > 0
                &&& old(self).matches_spec().len() < MAX_RAW_MATCHES
                &&& r.unwrap().0@ == old(self).pending_spec().last().0
                &&& r.unwrap().1 as int == old(self).pending_spec().last().1
                &&& r.unwrap().1 <= MAX_DEPTH
                &&& final(self).pending_spec() == old(self).pending_spec().drop_last()
            },
    {
        if self.matches.len() >= MAX_RAW_MATCHES {
            return None;
        }
        let popped = self.pending.pop();
        match popped {
            Some(dir) => {
                proof {
                    assert(final(self).pending_spec() =~= old(self).pending_spec().drop_last());
                }
                Some(dir)
            },
            None => None,
        }
    }

    /// Feeds one entry of the directory `next_dir` handed out back into the
    /// walk. Skipped names are ignored entirely; a name the query matches
    /// case-insensitively becomes a raw `Files` result under its canonical
    /// path (entries without one are dropped); a directory entry within the
    /// depth bound is queued to be visited. Once the match cap is reached
    /// the entry is ignored.
    pub fn offer_entry(&mut self, dir_depth: usize, entry: &DirEntryInfo)
        requires
            old(self).wf(),
            dir_depth <= MAX_DEPTH,
        ensures
            final(self).wf(),
            final(self).query_spec() == old(self).query_spec(),
            old(self).matches_spec().len() >= MAX_RAW_MATCHES || entry_skipped(entry.name@) ==> {
                &&& final(self).matches_spec() == old(self).matches_spec()
                &&& final(self).pending_spec() == old(self).pending_spec()
            },
            old(self).matches_spec().len() < MAX_RAW_MATCHES && !entry_skipped(entry.name@) ==> {
                &&& final(self).matches_spec() == if entry_matches(
                    entry.name@,
                    old(self).query_spec(),
                ) && entry.canonical is Some {
                    old(self).matches_spec().push(
                        (SearchResult {
                            name: entry.name,
                            path: entry.canonical.unwrap(),
                            result_type: SearchMode::Files,
                        }),
                    )
                } else {
                    old(self).matches_spec()
                }
                &&& final(self).pending_spec() == if entry.is_dir && dir_depth < MAX_DEPTH {
                    old(self).pending_spec().push((entry.path@, dir_depth + 1int))
                } else {
                    old(self).pending_spec()
                }
            },
    {
        if self.matches.len() >= MAX_RAW_MATCHES {
            return ;
        }
        if name_skipped(entry.name.as_str()) {
            return ;
        }
        let lname = lowercase(entry.name.as_str());
        if str_has_substring(lname.as_str(), self.query_lower.as_str()) {
            match &entry.canonical {
                Some(canon) => {
                    self.matches.push(
                        SearchResult::new(
                            entry.name.clone(),
                            canon.clone(),
                            SearchMode::Files,
                        ),
                    );
                },
                None => {},
            }
        }
        if entry.is_dir && dir_depth < MAX_DEPTH {
            self.pending.push((entry.path.clone(), dir_depth + 1));
            proof {
                assert(final(self).pending_spec() =~= old(self).pending_spec().push(
                    (entry.path@, dir_depth + 1int),
                ));
            }
        }
    }

    /// Ends the walk and hands over the raw matches.
    pub fn take_matches(self) -> (r: Vec<SearchResult>)
        ensures
            r@ == self.matches_spec(),
    {
        self.matches
    }
}

/// The fuzzy score of a raw file match against the query, matched on the
/// name as it is.
pub open spec fn file_score(x: SearchResult, query: Seq<char>) -> Option<i64> {
    fuzzy_score(x.name@, query)
}

/// Whether the ranking keeps a raw match.
pub open spec fn file_match_kept(x: SearchResult, query: Seq<char>) -> bool {
    file_score(x, query) is Some
}

/// Everything the collection phase knows of one scored file result.
spec fn scored_file_ok(p: (i64, SearchResult), query: Seq<char>) -> bool {
    &&& file_match_kept(p.1, query)
    &&& p.0 == file_score(p.1, query).unwrap()
}

/// Ranks the raw matches of a file walk. An empty query gives no results.
/// Otherwise the raw matches the query can fuzzy-match are ordered by
/// score, highest first and stable on ties (for every score, the results
/// carrying it are the first raw matches carrying it, in their original
/// order), and the best eight are returned: whenever a scored match is
/// left out, everything returned scores at least as high.
pub fn rank_file_matches(raw: &Vec<SearchResult>, query: &str) -> (r: Vec<SearchResult>)
    ensures
        r@.len() <= MAX_FILE_RESULTS,
        query@.len() == 0 ==> r@.len() == 0,
        query@.len() > 0 ==> {
            &&& r@.len() == if raw@.filter(|x: SearchResult| file_match_kept(x, query@)).len()
                <= MAX_FILE_RESULTS {
                raw@.filter(|x: SearchResult| file_match_kept(x, query@)).len() as int
            } else {
                MAX_FILE_RESULTS as int
            }
            &&& r@.to_multiset().subset_of(
                raw@.filter(|x: SearchResult| file_match_kept(x, query@)).to_multiset(),
            )
            &&& forall|k: int| 0 <= k < r@.len() ==> file_match_kept(#[trigger] r@[k], query@)
            &&& forall|k: int, l: int|
                0 <= k < l < r@.len() ==> file_score(#[trigger] r@[k], query@).unwrap()
                    >= file_score(#[trigger] r@[l], query@).unwrap()
            &&& forall|c: SearchResult|
                raw@.filter(|x: SearchResult| file_match_kept(x, query@)).to_multiset().count(c)
                    > r@.to_multiset().count(c) ==> (forall|k: int|
                    0 <= k < r@.len() ==> file_score(#[trigger] r@[k], query@).unwrap()
                        >= file_score(c, query@).unwrap())
            &&& forall|s: i64| #[trigger] with_result_score(r@, query@, s).is_prefix_of(
                with_result_score(raw@, query@, s),
            )
            &&& forall|k: int|
                0 <= k < raw@.len() ==> (file_match_kept(#[trigger] raw@[k], query@)
                    <==> smart_subseq(query@, raw@[k].name@))
        },
{
    if query.is_empty() {
        return Vec::new();
    }
    let ghost q = query@;
    let mut scored: Vec<(i64, SearchResult)> = Vec::new();
    let mut i: usize = 0;
    while i < raw.len()
        invariant
            i <= raw@.len(),
            q == query@,
            q.len() > 0,
            scored@.map_values(|p: (i64, SearchResult)| p.1) == raw@.take(i as int).filter(
                |x: SearchResult| file_match_kept(x, q),
            ),
            forall|k: int| 0 <= k < scored@.len() ==> scored_file_ok(#[trigger] scored@[k], q),
            forall|k: int|
                0 <= k < i ==> (file_match_kept(#[trigger] raw@[k], q) <==> smart_subseq(
                    q,
                    raw@[k].name@,
                )),
        decreases raw@.len() - i,
    {
        let ghost prefix = raw@.take(i as int);
        let x = &raw[i];
        let score_opt = skim_score(x.name.as_str(), query);
        proof {
            reveal(Seq::filter);
            assert(raw@.take(i as int + 1).drop_last() =~= prefix);
            assert(raw@.take(i as int + 1).last() == raw@[i as int]);
            // the matcher keeps a raw match exactly when the query embeds
            // into its name under smart case
            assert(file_match_kept(raw@[i as int], q) <==> smart_subseq(q, raw@[i as int].name@));
        }
        match score_opt {
            Some(score) => {
                scored.push((score, x.clone()));
                proof {
                    let snd = |p: (i64, SearchResult)| p.1;
                    let pred = |x: SearchResult| file_match_kept(x, q);
                    assert(scored@.last().1 == raw@[i as int]);
                    assert(scored@.map_values(snd) =~= scored@.drop_last().map_values(snd).push(
                        scored@.last().1,
                    ));
                    assert(raw@.take(i as int + 1).filter(pred) == prefix.filter(pred).push(
                        raw@[i as int],
                    ));
                }
            },
            None => {
                proof {
                    let pred = |x: SearchResult| file_match_kept(x, q);
                    assert(raw@.take(i as int + 1).filter(pred) == prefix.filter(pred));
                }
            },
        }
        i = i + 1;
    }
    proof {
        assert(raw@.take(raw@.len() as int) =~= raw@);
    }
    let ghost collected = scored@;
    sort_scored(&mut scored);
    proof {
        lemma_to_multiset_elements(collected, scored@);
        assert forall|k: int| 0 <= k < scored@.len() implies scored_file_ok(
            #[trigger] scored@[k],
            q,
        ) by {
            assert(collected.contains(scored@[k]));
            let j = choose|j: int| 0 <= j < collected.len() && collected[j] == scored@[k];
            assert(scored_file_ok(collected[j], q));
        }
    }
    let mut out: Vec<SearchResult> = Vec::new();
    let mut k: usize = 0;
    while k < scored.len() && k < MAX_FILE_RESULTS
        invariant
            k <= scored@.len(),
            k <= MAX_FILE_RESULTS,
            out@ == scored@.take(k as int).map_values(|p: (i64, SearchResult)| p.1),
        decreases scored@.len() - k,
    {
        out.push(scored[k].1.clone());
        proof {
            let snd = |p: (i64, SearchResult)| p.1;
            assert(scored@.take(k as int + 1).drop_last() =~= scored@.take(k as int));
            assert(scored@.take(k as int + 1).map_values(snd) =~= scored@.take(
                k as int,
            ).map_values(snd).push(scored@[k as int].1));
        }
        k = k + 1;
    }
    proof {
        let snd = |p: (i64, SearchResult)| p.1;
        let pred = |x: SearchResult| file_match_kept(x, q);
        let taken = scored@.take(k as int);
        let dropped = scored@.skip(k as int);
        assert(scored@ =~= taken + dropped);
        lemma_multiset_commutative(taken, dropped);
        lemma_to_multiset_map_values(scored@, collected, snd);
        assert(collected.map_values(snd) == raw@.filter(pred));
        // every returned element comes from the kept prefix of the sorted pairs
        assert forall|x: int| 0 <= x < out@.len() implies scored_file_ok(
            (scored@[x].0, #[trigger] out@[x]),
            q,
        ) by {
            assert(out@[x] == scored@[x].1);
            assert(scored_file_ok(scored@[x], q));
        }
        // the returned multiset is contained in the matched multiset
        assert forall|c: SearchResult|
            #[trigger] out@.to_multiset().count(c) <= raw@.filter(pred).to_multiset().count(c) by {
            lemma_take_map_count(scored@, k as int, snd, c);
        }
        // anything left out scores no higher than anything returned
        assert forall|c: SearchResult|
            raw@.filter(pred).to_multiset().count(c) > #[trigger] out@.to_multiset().count(c)
            implies forall|y: int|
            0 <= y < out@.len() ==> file_score(#[trigger] out@[y], q).unwrap() >= file_score(
            c,
            q,
        ).unwrap() by {
            lemma_take_map_count(scored@, k as int, snd, c);
            assert(dropped.map_values(snd).to_multiset().count(c) > 0) by {
                assert(scored@.map_values(snd) =~= taken.map_values(snd) + dropped.map_values(snd));
                lemma_multiset_commutative(taken.map_values(snd), dropped.map_values(snd));
            }
            broadcast use group_to_multiset_ensures;

            assert(dropped.map_values(snd).contains(c));
            let j = choose|j: int|
                0 <= j < dropped.len() && #[trigger] dropped.map_values(snd)[j] == c;
            assert(dropped[j] == scored@[k + j]);
            assert(scored_file_ok(scored@[k + j], q));
            assert forall|y: int| 0 <= y < out@.len() implies file_score(
                #[trigger] out@[y],
                q,
            ).unwrap() >= file_score(c, q).unwrap() by {
                assert(sorted_desc(scored@));
                assert(scored@[y].0 >= scored@[k + j].0);
                assert(out@[y] == scored@[y].1);
            }
        }
        // stability: for every score, the returned results carrying it are
        // the first few raw matches carrying it, in their original order
        assert forall|s: i64| #[trigger] with_result_score(out@, q, s).is_prefix_of(
            with_result_score(raw@, q, s),
        ) by {
            let key = |p: (i64, SearchResult)| p.0 == s;
            let ps = |x: SearchResult| fuzzy_score(x.name@, q) == Some(s);
            lemma_filter_map_agree(taken, snd, ps, key);
            lemma_filter_map_agree(collected, snd, ps, key);
            assert(out@ == taken.map_values(snd));
            assert(out@.filter(ps) == taken.filter(key).map_values(snd));
            Seq::filter_distributes_over_add(taken, dropped, key);
            assert(scored@.filter(key) == taken.filter(key) + dropped.filter(key));
            assert(with_score(scored@, s) == with_score(collected, s));
            assert(scored@.filter(key) == collected.filter(key));
            assert(collected.filter(key).map_values(snd) == collected.map_values(snd).filter(ps));
            assert(collected.map_values(snd) == raw@.filter(pred));
            assert forall|x: SearchResult| #[trigger] ps(x) implies pred(x) by {}
            lemma_filter_subsumed(raw@, pred, ps);
            assert(raw@.filter(ps) == collected.filter(key).map_values(snd));
            let fa = taken.filter(key).map_values(snd);
            let fb = dropped.filter(key).map_values(snd);
            assert(collected.filter(key).map_values(snd) =~= fa + fb);
            assert(raw@.filter(ps) =~= fa + fb);
            assert((fa + fb).subrange(0, fa.len() as int) =~= fa);
            assert(fa.is_prefix_of(raw@.filter(ps)));
            assert(with_result_score(out@, q, s) == out@.filter(ps));
            assert(with_result_score(raw@, q, s) == raw@.filter(ps));
        }
        // the returned length is the smaller of the cap and the match count
        assert(collected.len() == raw@.filter(pred).len()) by {
            assert(collected.map_values(snd).len() == collected.len());
        }
        broadcast use group_to_multiset_ensures;

        assert(scored@.to_multiset().len() == scored@.len());
        assert(collected.to_multiset().len() == collected.len());
        assert(scored@.len() == collected.len());
    }
    out
}

/// Whether the browse sample keeps an entry: not a dotfile, and its
/// canonical path is known.
pub open spec fn browse_keeps(e: DirEntryInfo) -> bool {
    !(e.name@.len() > 0 && e.name@[0] == '.') && e.canonical is Some
}

/// The `Files` result a kept browse entry is presented as.
pub open spec fn browse_view(e: DirEntryInfo) -> ResultView {
    ResultView { name: e.name@, path: e.canonical.unwrap()@, result_type: SearchMode::Files }
}

/// The sample the browse case yields: the kept entries in order, capped at
/// `BROWSE_CAP` collected entries, then truncated to the requested count.
pub open spec fn browse_sample_spec(entries: Seq<DirEntryInfo>, count: int) -> Seq<ResultView> {
    let kept = entries.filter(|e: DirEntryInfo| browse_keeps(e)).map_values(
        |e: DirEntryInfo| browse_view(e),
    );
    let capped = if kept.len() <= BROWSE_CAP {
        kept
    } else {
        kept.take(BROWSE_CAP as int)
    };
    if capped.len() <= count {
        capped
    } else {
        capped.take(count)
    }
}

/// Deterministic sample for the empty-query browse case: of the entries the
/// host's browse directories offer, in order, the first kept ones — at most
/// `count`. Dotfiles and entries whose path cannot be canonicalized are
/// passed over, and scanning stops once the collection cap is hit.
pub fn browse_sample(entries: &Vec<DirEntryInfo>, count: usize) -> (r: Vec<SearchResult>)
    ensures
        r@.map_values(|x: SearchResult| result_view(x)) == browse_sample_spec(
            entries@,
            count as int,
        ),
        r@.len() <= count,
{
    let mut out: Vec<SearchResult> = Vec::new();
    let mut i: usize = 0;
    while i < entries.len() && out.len() < BROWSE_CAP
        invariant
            i <= entries@.len(),
            out@.len() <= BROWSE_CAP,
            out@.map_values(|x: SearchResult| result_view(x)) == entries@.take(i as int).filter(
                |e: DirEntryInfo| browse_keeps(e),
            ).map_values(|e: DirEntryInfo| browse_view(e)),
        decreases entries@.len() - i,
    {
        let ghost prefix = entries@.take(i as int);
        let e = &entries[i];
        let dot = !e.name.as_str().is_empty() && e.name.as_str().get_char(0) == '.';
        proof {
            reveal(Seq::filter);
            assert(entries@.take(i as int + 1).drop_last() =~= prefix);
            assert(entries@.take(i as int + 1).last() == entries@[i as int]);
        }
        if !dot {
            match &e.canonical {
                Some(canon) => {
                    out.push(SearchResult::new(e.name.clone(), canon.clone(), SearchMode::Files));
                    proof {
                        let keeps = |e: DirEntryInfo| browse_keeps(e);
                        let bview = |e: DirEntryInfo| browse_view(e);
                        let rv = |x: SearchResult| result_view(x);
                        assert(browse_keeps(entries@[i as int]));
                        assert(result_view(out@.last()) == browse_view(entries@[i as int]));
                        assert(out@.map_values(rv) =~= out@.drop_last().map_values(rv).push(
                            result_view(out@.last()),
                        ));
                        assert(entries@.take(i as int + 1).filter(keeps) == prefix.filter(
                            keeps,
                        ).push(entries@[i as int]));
                        assert(entries@.take(i as int + 1).filter(keeps).map_values(bview)
                            =~= prefix.filter(keeps).map_values(bview).push(
                            browse_view(entries@[i as int]),
                        ));
                    }
                },
                None => {
                    proof {
                        let keeps = |e: DirEntryInfo| browse_keeps(e);
                        assert(!browse_keeps(entries@[i as int]));
                        assert(entries@.take(i as int + 1).filter(keeps) == prefix.filter(keeps));
                    }
                },
            }
        } else {
            proof {
                let keeps = |e: DirEntryInfo| browse_keeps(e);
                assert(!browse_keeps(entries@[i as int]));
                assert(entries@.take(i as int + 1).filter(keeps) == prefix.filter(keeps));
            }
        }
        i = i + 1;
    }
    proof {
        let keeps = |e: DirEntryInfo| browse_keeps(e);
        let bview = |e: DirEntryInfo| browse_view(e);
        let rv = |x: SearchResult| result_view(x);
        let kept = entries@.filter(keeps).map_values(bview);
        let capped = if kept.len() <= BROWSE_CAP {
            kept
        } else {
            kept.take(BROWSE_CAP as int)
        };
        if i == entries@.len() {
            assert(entries@.take(i as int) =~= entries@);
            assert(out@.map_values(rv) == kept);
            broadcast use Seq::lemma_filter_len;

            assert(capped == out@.map_values(rv));
        } else {
            // the collection cap was hit mid-scan: what was collected is
            // exactly the first BROWSE_CAP kept entries
            assert(out@.len() == BROWSE_CAP);
            let prefix = entries@.take(i as int);
            let rest = entries@.skip(i as int);
            assert(entries@ =~= prefix + rest);
            Seq::filter_distributes_over_add(prefix, rest, keeps);
            assert(kept =~= prefix.filter(keeps).map_values(bview) + rest.filter(keeps).map_values(
                bview,
            ));
            assert forall|x: int| 0 <= x < BROWSE_CAP implies kept.take(BROWSE_CAP as int)[x]
                == out@.map_values(rv)[x] by {
                assert(kept[x] == prefix.filter(keeps).map_values(bview)[x]);
            }
            assert(capped =~= out@.map_values(rv));
        }
        assert(out@.map_values(rv) == capped);
    }
    let ghost capped_view = out@.map_values(|x: SearchResult| result_view(x));
    if out.len() > count {
        out.truncate(count);
        proof {
            let rv = |x: SearchResult| result_view(x);
            assert(out@.map_values(rv) =~= capped_view.take(count as int));
        }
    }
    out
}

/// The count of a value in the kept prefix of a mapped sequence never
/// exceeds its count in the whole mapped sequence.
proof fn lemma_take_map_count<A, B>(s: Seq<A>, k: int, f: spec_fn(A) -> B, c: B)
    requires
        0 <= k <= s.len(),
    ensures
        s.take(k).map_values(f).to_multiset().count(c) <= s.map_values(f).to_multiset().count(c),
{
    let taken = s.take(k);
    let dropped = s.skip(k);
    assert(s =~= taken + dropped);
    assert(s.map_values(f) =~= taken.map_values(f) + dropped.map_values(f));
    lemma_multiset_commutative(taken.map_values(f), dropped.map_values(f));
    broadcast use vstd::multiset::group_multiset_axioms;

}

} // verus!
