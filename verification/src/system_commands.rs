//! The command registry: a small fixed table of system actions exposed as
//! searchable, launchable entries, and the fuzzy search over it.

use vstd::prelude::*;
use vstd::seq_lib::*;

use crate::matcher::fuzzy_score;
use crate::matcher::skim_score;
use crate::matcher::with_result_score;
use crate::rank::lemma_filter_map_agree;
use crate::rank::lemma_filter_subsumed;
use crate::rank::lemma_to_multiset_elements;
use crate::rank::lemma_to_multiset_map_values;
use crate::rank::sort_scored;
use crate::rank::sorted_desc;
use crate::rank::with_score;
use crate::search_mode::result_view;
use crate::search_mode::result_views;
use crate::search_mode::ResultView;
use crate::search_mode::SearchMode;
use crate::search_mode::SearchResult;
use crate::text::ci_subseq;
use crate::text::lemma_smart_subseq_implies_ci;
use crate::text::smart_subseq;

verus! {

/// One entry of the command table: a human label and the shell command it
/// stands for.
#[derive(Debug)]
pub struct SystemCommand {
    pub name: String,
    pub command: String,
}

impl Clone for SystemCommand {
    fn clone(&self) -> (r: Self)
        ensures
            r == *self,
    {
        SystemCommand { name: self.name.clone(), command: self.command.clone() }
    }
}

impl SystemCommand {
    pub fn new(name: &str, command: &str) -> (r: Self)
        ensures
            r.name@ == name@,
            r.command@ == command@,
    {
        Self { name: name.to_owned(), command: command.to_owned() }
    }
}

/// The fixed command table, as (label, shell command) pairs, in the order
/// the registry offers them.
pub open spec fn command_table() -> Seq<(Seq<char>, Seq<char>)> {
    seq![
        ("Shutdown"@, "osascript -e 'tell app \"System Events\" to shut down'"@),
        ("Reboot"@, "osascript -e 'tell app \"System Events\" to restart'"@),
        ("Sleep"@, "osascript -e 'tell app \"System Events\" to sleep'"@),
        ("Lock Screen"@, "pmset displaysleepnow"@),
    ]
}

/// The `Run` result a command table entry is presented as: the label as the
/// name, the shell command in the path field.
pub open spec fn run_result_view(entry: (Seq<char>, Seq<char>)) -> ResultView {
    ResultView { name: entry.0, path: entry.1, result_type: SearchMode::Run }
}

/// The `Run` results a list of table entries is presented as.
pub open spec fn run_views(entries: Seq<(Seq<char>, Seq<char>)>) -> Seq<ResultView> {
    entries.map_values(|e: (Seq<char>, Seq<char>)| run_result_view(e))
}

/// The table entries whose label scores exactly `score` against `query`, in
/// table order.
pub open spec fn with_cmd_score(
    entries: Seq<(Seq<char>, Seq<char>)>,
    query: Seq<char>,
    score: i64,
) -> Seq<(Seq<char>, Seq<char>)> {
    entries.filter(|e: (Seq<char>, Seq<char>)| fuzzy_score(e.0, query) == Some(score))
}

/// The command registry's entries, exactly the command table in order.
pub fn get_system_commands() -> (r: Vec<SystemCommand>)
    ensures
        r@.len() == command_table().len(),
        forall|k: int|
            0 <= k < r@.len() ==> (#[trigger] r@[k]).name@ == command_table()[k].0
                && r@[k].command@ == command_table()[k].1,
{
    let mut r: Vec<SystemCommand> = Vec::new();
    r.push(
        SystemCommand::new("Shutdown", "osascript -e 'tell app \"System Events\" to shut down'"),
    );
    r.push(SystemCommand::new("Reboot", "osascript -e 'tell app \"System Events\" to restart'"));
    r.push(SystemCommand::new("Sleep", "osascript -e 'tell app \"System Events\" to sleep'"));
    r.push(SystemCommand::new("Lock Screen", "pmset displaysleepnow"));
    r
}

/// Everything the collection phase knows of one scored command result.
spec fn scored_cmd_ok(p: (i64, SearchResult), query: Seq<char>) -> bool {
    &&& fuzzy_score(p.1.name@, query) is Some
    &&& p.0 == fuzzy_score(p.1.name@, query).unwrap()
    &&& p.1.result_type == SearchMode::Run
    &&& ci_subseq(query, p.1.name@)
}

/// Searches the command table. An empty query returns every command, in
/// table order. Otherwise exactly the commands whose label the query can
/// fuzzy-match are returned (labels are matched as they are, without case
/// folding), ordered by score, highest first; the sort is stable, so equal
/// scores keep table order (for every score, the results carrying it are
/// the table entries carrying it, in table order). Every result is tagged
/// `Run` and carries the shell command in its path field.
pub fn search_commands(query: &str) -> (r: Vec<SearchResult>)
    ensures
        query@.len() == 0 ==> r@.len() == command_table().len() && (forall|k: int|
            0 <= k < r@.len() ==> result_view(#[trigger] r@[k]) == run_result_view(
                command_table()[k],
            )),
        query@.len() > 0 ==> {
            &&& r@.map_values(|x: SearchResult| result_view(x)).to_multiset() == command_table()
                .filter(|e: (Seq<char>, Seq<char>)| fuzzy_score(e.0, query@) is Some).map_values(
                |e: (Seq<char>, Seq<char>)| run_result_view(e),
            ).to_multiset()
            &&& forall|s: i64| #[trigger] result_views(with_result_score(r@, query@, s))
                == run_views(with_cmd_score(command_table(), query@, s))
            &&& forall|k: int|
                0 <= k < r@.len() ==> fuzzy_score((#[trigger] r@[k]).name@, query@) is Some
            &&& forall|k: int, l: int|
                0 <= k < l < r@.len() ==> fuzzy_score((#[trigger] r@[k]).name@, query@).unwrap()
                    >= fuzzy_score((#[trigger] r@[l]).name@, query@).unwrap()
            &&& forall|k: int| 0 <= k < r@.len() ==> (#[trigger] r@[k]).result_type == SearchMode::Run
            &&& forall|k: int| 0 <= k < r@.len() ==> ci_subseq(query@, (#[trigger] r@[k]).name@)
            &&& forall|k: int|
                0 <= k < command_table().len() ==> (fuzzy_score(
                    (#[trigger] command_table()[k]).0,
                    query@,
                ) is Some <==> smart_subseq(query@, command_table()[k].0))
        },
{
    let commands = get_system_commands();
    if query.is_empty() {
        let mut out: Vec<SearchResult> = Vec::new();
        let mut i: usize = 0;
        while i < commands.len()
            invariant
                i <= commands@.len(),
                commands@.len() == command_table().len(),
                forall|k: int|
                    0 <= k < commands@.len() ==> (#[trigger] commands@[k]).name@ == command_table()[k].0
                        && commands@[k].command@ == command_table()[k].1,
                out@.len() == i,
                forall|k: int|
                    0 <= k < i ==> result_view(#[trigger] out@[k]) == run_result_view(
                        command_table()[k],
                    ),
            decreases commands@.len() - i,
        {
            let cmd = &commands[i];
            out.push(
                SearchResult::new(cmd.name.clone(), cmd.command.clone(), SearchMode::Run),
            );
            i = i + 1;
        }
        return out;
    }
    let ghost q = query@;
    let mut scored: Vec<(i64, SearchResult)> = Vec::new();
    let mut i: usize = 0;
    while i < commands.len()
        invariant
            i <= commands@.len(),
            q == query@,
            q.len() > 0,
            commands@.len() == command_table().len(),
            forall|k: int|
                0 <= k < commands@.len() ==> (#[trigger] commands@[k]).name@ == command_table()[k].0
                    && commands@[k].command@ == command_table()[k].1,
            scored@.map_values(|p: (i64, SearchResult)| result_view(p.1)) == command_table().take(
                i as int,
            ).filter(|e: (Seq<char>, Seq<char>)| fuzzy_score(e.0, q) is Some).map_values(
                |e: (Seq<char>, Seq<char>)| run_result_view(e),
            ),
            forall|k: int| 0 <= k < scored@.len() ==> scored_cmd_ok(#[trigger] scored@[k], q),
            forall|k: int|
                0 <= k < i ==> (fuzzy_score((#[trigger] command_table()[k]).0, q) is Some
                    <==> smart_subseq(q, command_table()[k].0)),
        decreases commands@.len() - i,
    {
        let ghost prefix = command_table().take(i as int);
        let cmd = &commands[i];
        let score_opt = skim_score(cmd.name.as_str(), query);
        proof {
            reveal(Seq::filter);
            assert(command_table().take(i as int + 1).drop_last() =~= prefix);
            assert(command_table().take(i as int + 1).last() == command_table()[i as int]);
            // the matcher scores a label exactly when the query embeds into
            // it under smart case
            assert(fuzzy_score(command_table()[i as int].0, q) is Some <==> smart_subseq(
                q,
                command_table()[i as int].0,
            ));
        }
        match score_opt {
            Some(score) => {
                scored.push(
                    (score, SearchResult::new(cmd.name.clone(), cmd.command.clone(), SearchMode::Run)),
                );
                proof {
                    lemma_smart_subseq_implies_ci(q, commands@[i as int].name@);
                    let to_view = |p: (i64, SearchResult)| result_view(p.1);
                    let pred = |e: (Seq<char>, Seq<char>)| fuzzy_score(e.0, q) is Some;
                    let to_rv = |e: (Seq<char>, Seq<char>)| run_result_view(e);
                    assert(result_view(scored@.last().1) == run_result_view(
                        command_table()[i as int],
                    ));
                    assert(scored@.map_values(to_view) =~= scored@.drop_last().map_values(
                        to_view,
                    ).push(result_view(scored@.last().1)));
                    assert(command_table().take(i as int + 1).filter(pred) == prefix.filter(
                        pred,
                    ).push(command_table()[i as int]));
                    assert(command_table().take(i as int + 1).filter(pred).map_values(to_rv)
                        =~= prefix.filter(pred).map_values(to_rv).push(
                        to_rv(command_table()[i as int]),
                    ));
                }
            },
            None => {
                proof {
                    let pred = |e: (Seq<char>, Seq<char>)| fuzzy_score(e.0, q) is Some;
                    assert(command_table().take(i as int + 1).filter(pred) == prefix.filter(pred));
                }
            },
        }
        i = i + 1;
    }
    proof {
        assert(command_table().take(command_table().len() as int) =~= command_table());
    }
    let ghost collected = scored@;
    sort_scored(&mut scored);
    proof {
        lemma_to_multiset_elements(collected, scored@);
        assert forall|k: int| 0 <= k < scored@.len() implies scored_cmd_ok(
            #[trigger] scored@[k],
            q,
        ) by {
            assert(collected.contains(scored@[k]));
            let j = choose|j: int| 0 <= j < collected.len() && collected[j] == scored@[k];
            assert(scored_cmd_ok(collected[j], q));
        }
    }
    let mut out: Vec<SearchResult> = Vec::new();
    let mut k: usize = 0;
    while k < scored.len()
        invariant
            k <= scored@.len(),
            out@ == scored@.take(k as int).map_values(|p: (i64, SearchResult)| p.1),
        decreases scored@.len() - k,
    {
        out.push(scored[k].1.clone());
        proof {
            let snd = |p: (i64, SearchResult)| p.1;
            assert(scored@.take(k as int + 1).drop_last() =~= scored@.take(k as int));
            assert(scored@.take(k as int + 1).map_values(snd) =~= scored@.take(
                k as int,
            ).map_values(snd).push(scored@[k as int].1));
        }
        k = k + 1;
    }
    proof {
        let snd = |p: (i64, SearchResult)| p.1;
        let to_view = |p: (i64, SearchResult)| result_view(p.1);
        let rv = |x: SearchResult| result_view(x);
        assert(scored@.take(scored@.len() as int) =~= scored@);
        assert(out@ == scored@.map_values(snd));
        lemma_to_multiset_map_values(scored@, collected, to_view);
        assert(out@.map_values(rv) =~= scored@.map_values(to_view));
        assert(collected.map_values(to_view).to_multiset() == command_table().filter(
            |e: (Seq<char>, Seq<char>)| fuzzy_score(e.0, q) is Some,
        ).map_values(|e: (Seq<char>, Seq<char>)| run_result_view(e)).to_multiset());
        assert forall|x: int| 0 <= x < out@.len() implies scored_cmd_ok(
            (scored@[x].0, #[trigger] out@[x]),
            q,
        ) by {
            assert(out@[x] == scored@[x].1);
            assert(scored_cmd_ok(scored@[x], q));
        }
        assert forall|x: int, y: int| 0 <= x < y < out@.len() implies fuzzy_score(
            (#[trigger] out@[x]).name@,
            q,
        ).unwrap() >= fuzzy_score((#[trigger] out@[y]).name@, q).unwrap() by {
            assert(sorted_desc(scored@));
            assert(scored@[x].0 >= scored@[y].0);
            assert(scored_cmd_ok(scored@[x], q));
            assert(scored_cmd_ok(scored@[y], q));
        }
        // stability: for every score, the results carrying it are the table
        // entries carrying it, in table order
        assert forall|s: i64| #[trigger] result_views(with_result_score(out@, q, s)) == run_views(
            with_cmd_score(command_table(), q, s),
        ) by {
            let key = |p: (i64, SearchResult)| p.0 == s;
            let ps = |x: SearchResult| fuzzy_score(x.name@, q) == Some(s);
            let pv = |v: ResultView| fuzzy_score(v.name, q) == Some(s);
            let qe = |e: (Seq<char>, Seq<char>)| fuzzy_score(e.0, q) == Some(s);
            let predt = |e: (Seq<char>, Seq<char>)| fuzzy_score(e.0, q) is Some;
            let to_rv = |e: (Seq<char>, Seq<char>)| run_result_view(e);
            lemma_filter_map_agree(scored@, snd, ps, key);
            assert(with_score(scored@, s) == with_score(collected, s));
            assert(scored@.filter(key) == collected.filter(key));
            assert(out@.filter(ps) == collected.filter(key).map_values(snd));
            assert(out@.filter(ps).map_values(rv) =~= collected.filter(key).map_values(to_view));
            lemma_filter_map_agree(collected, to_view, pv, key);
            assert(collected.map_values(to_view) == command_table().filter(predt).map_values(
                to_rv,
            ));
            assert forall|k: int|
                0 <= k < command_table().filter(predt).len() implies (pv(
                to_rv(#[trigger] command_table().filter(predt)[k]),
            ) <==> qe(command_table().filter(predt)[k])) by {}
            lemma_filter_map_agree(command_table().filter(predt), to_rv, pv, qe);
            assert forall|e: (Seq<char>, Seq<char>)| #[trigger] qe(e) implies predt(e) by {}
            lemma_filter_subsumed(command_table(), predt, qe);
            assert(out@.filter(ps).map_values(rv) =~= command_table().filter(qe).map_values(to_rv));
            assert(result_views(with_result_score(out@, q, s)) == out@.filter(ps).map_values(rv));
            assert(run_views(with_cmd_score(command_table(), q, s)) == command_table().filter(
                qe,
            ).map_values(to_rv));
        }
    }
    out
}

} // verus!
