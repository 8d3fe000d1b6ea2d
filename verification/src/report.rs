//! Which session each pane has reported to show.
//!
//! Times are nanoseconds on a clock that never runs backwards.

use crate::table::{
    as_map, lemma_place, lemma_place_at, lemma_place_distinct, lemma_table_push, lemma_table_update,
    place,
};
use crate::text::{same, texts};
use vstd::prelude::*;

verus! {

/// How long a reported session counts. A pane id that a restarted server uses
/// again must not bring back an old session.
pub const REPORT_TTL: u64 = 21_600_000_000_000;

/// How long the report of no session counts. It expires fast, so that a dead
/// reporter stops pinning its pane.
pub const EMPTY_TTL: u64 = 30_000_000_000;

/// The sessions that panes have reported, each with the time of the report.
pub struct ReportMap {
    rows: Vec<(String, String, u64)>,
}

/// A report of the session `id`, made at `at`, still counts at `now`.
pub open spec fn fresh(id: Seq<char>, at: u64, now: u64) -> bool {
    let age = if now >= at {
        now - at
    } else {
        0
    };
    age < if id.len() == 0 {
        EMPTY_TTL
    } else {
        REPORT_TTL
    }
}

/// Tells whether a report of the session `id`, made at `at`, still counts at
/// `now`.
pub fn is_fresh(id: &str, at: u64, now: u64) -> (r: bool)
    ensures
        r == fresh(id@, at, now),
{
    let age: u64 = if now >= at {
        now - at
    } else {
        0
    };
    if id.is_empty() {
        age < EMPTY_TTL
    } else {
        age < REPORT_TTL
    }
}

impl ReportMap {
    pub closed spec fn panes(&self) -> Seq<Seq<char>> {
        self.rows@.map_values(|r: (String, String, u64)| r.0@)
    }

    pub closed spec fn reports(&self) -> Seq<(Seq<char>, u64)> {
        self.rows@.map_values(|r: (String, String, u64)| (r.1@, r.2))
    }

    /// No pane occurs twice.
    pub closed spec fn wf(&self) -> bool {
        self.panes().no_duplicates()
    }

    /// The session of each pane, and when it was reported.
    pub closed spec fn view(&self) -> Map<Seq<char>, (Seq<char>, u64)> {
        as_map(self.panes(), self.reports())
    }

    /// No reports.
    pub fn new() -> (r: Self)
        ensures
            r.wf(),
            r@ == Map::<Seq<char>, (Seq<char>, u64)>::empty(),
    {
        let r = ReportMap { rows: Vec::new() };
        proof {
            assert(r@ =~= Map::<Seq<char>, (Seq<char>, u64)>::empty());
        }
        r
    }

    fn find(&self, pane: &str) -> (r: usize)
        ensures
            r == place(self.panes(), pane@),
            r <= self.rows@.len(),
    {
        let mut i: usize = 0;
        while i < self.rows.len() && !same(self.rows[i].0.as_str(), pane)
            invariant
                i <= self.rows@.len(),
                forall|j: int| 0 <= j < i ==> self.panes()[j] != pane@,
            decreases self.rows@.len() - i,
        {
            i += 1;
        }
        proof {
            lemma_place_at(self.panes(), pane@, i as int);
        }
        i
    }
}

/// Records that the pane shows the session (empty: no session).
pub fn insert(reports: &mut ReportMap, pane_id: &str, session_id: &str, now: u64)
    requires
        old(reports).wf(),
    ensures
        final(reports).wf(),
        final(reports)@ == old(reports)@.insert(pane_id@, (session_id@, now)),
{
    let i: usize = reports.find(pane_id);
    let ghost ks = reports.panes();
    let ghost vs = reports.reports();
    let ghost v = (session_id@, now);
    if i < reports.rows.len() {
        reports.rows.set(i, (pane_id.to_owned(), session_id.to_owned(), now));
        proof {
            lemma_place(ks, pane_id@);
            assert(reports.panes() =~= ks);
            assert(reports.reports() =~= vs.update(i as int, v));
            lemma_table_update(ks, vs, pane_id@, v);
        }
    } else {
        reports.rows.push((pane_id.to_owned(), session_id.to_owned(), now));
        proof {
            assert(reports.panes() =~= ks.push(pane_id@));
            assert(reports.reports() =~= vs.push(v));
            lemma_table_push(ks, vs, pane_id@, v);
        }
    }
}

/// What a pane is known to show: the session of its report, while that counts.
pub open spec fn shown(
    reports: Map<Seq<char>, (Seq<char>, u64)>,
    pane: Seq<char>,
    now: u64,
) -> Option<Seq<char>> {
    if reports.contains_key(pane) && fresh(reports[pane].0, reports[pane].1, now) {
        Some(reports[pane].0)
    } else {
        None
    }
}

/// The session that the pane shows, if it was reported and the report still
/// counts. An empty text says that the pane is known to show none.
pub fn reported_session(reports: &ReportMap, pane_id: &str, now: u64) -> (r: Option<String>)
    ensures
        match r {
            Some(id) => shown(reports@, pane_id@, now) == Some(id@),
            None => shown(reports@, pane_id@, now) is None,
        },
{
    let i: usize = reports.find(pane_id);
    if i < reports.rows.len() {
        proof {
            assert(reports.reports()[i as int] == (
                reports.rows@[i as int].1@,
                reports.rows@[i as int].2,
            ));
        }
        if is_fresh(reports.rows[i].1.as_str(), reports.rows[i].2, now) {
            return Some(reports.rows[i].1.clone());
        }
    }
    None
}

/// The reports that still count, of panes that are alive.
pub open spec fn pruned(
    reports: Map<Seq<char>, (Seq<char>, u64)>,
    live: Seq<Seq<char>>,
    now: u64,
) -> Map<Seq<char>, (Seq<char>, u64)> {
    reports.restrict(
        Set::new(|p: Seq<char>| live.contains(p) && fresh(reports[p].0, reports[p].1, now)),
    )
}

fn listed(live: &Vec<String>, pane: &str) -> (r: bool)
    ensures
        r == texts(live@).contains(pane@),
{
    let mut i: usize = 0;
    while i < live.len()
        invariant
            i <= live@.len(),
            forall|j: int| 0 <= j < i ==> texts(live@)[j] != pane@,
        decreases live@.len() - i,
    {
        if same(live[i].as_str(), pane) {
            proof {
                assert(texts(live@)[i as int] == pane@);
            }
            return true;
        }
        i += 1;
    }
    false
}

/// Drops the reports that no longer count, and those of panes that are gone.
pub fn prune(reports: &mut ReportMap, live_panes: &Vec<String>, now: u64)
    requires
        old(reports).wf(),
    ensures
        final(reports).wf(),
        final(reports)@ == pruned(old(reports)@, texts(live_panes@), now),
{
    let ghost live = texts(live_panes@);
    let ghost ks = reports.panes();
    let ghost vs = reports.reports();
    let ghost good = |j: int| live.contains(ks[j]) && fresh(vs[j].0, vs[j].1, now);
    let mut kept: ReportMap = ReportMap { rows: Vec::new() };
    let ghost mut from: Seq<int> = Seq::empty();
    let mut i: usize = 0;
    while i < reports.rows.len()
        invariant
            i <= reports.rows@.len(),
            live == texts(live_panes@),
            ks == reports.panes(),
            vs == reports.reports(),
            ks.no_duplicates(),
            forall|j: int| #[trigger]
                good(j) <==> live.contains(ks[j]) && fresh(vs[j].0, vs[j].1, now),
            from.len() == kept.rows@.len(),
            forall|p: int| 0 <= p < from.len() ==> 0 <= #[trigger] from[p] < i && good(from[p]),
            forall|p: int, q: int| 0 <= p < q < from.len() ==> from[p] < from[q],
            forall|p: int|
                0 <= p < from.len() ==> kept.panes()[p] == ks[#[trigger] from[p]] && kept.reports()[p]
                    == vs[from[p]],
            forall|j: int| 0 <= j < i && #[trigger] good(j) ==> from.contains(j),
        decreases reports.rows@.len() - i,
    {
        proof {
            assert(good(i as int) <==> live.contains(ks[i as int]) && fresh(
                vs[i as int].0,
                vs[i as int].1,
                now,
            ));
        }
        let ghost f = from;
        let keep: bool = is_fresh(reports.rows[i].1.as_str(), reports.rows[i].2, now) && listed(
            live_panes,
            reports.rows[i].0.as_str(),
        );
        if keep {
            let ghost kp = kept.panes();
            let ghost kr = kept.reports();
            kept.rows.push(
                (reports.rows[i].0.clone(), reports.rows[i].1.clone(), reports.rows[i].2),
            );
            proof {
                from = from.push(i as int);
                assert(kept.panes() =~= kp.push(ks[i as int]));
                assert(kept.reports() =~= kr.push(vs[i as int]));
                assert forall|j: int| 0 <= j < i + 1 && #[trigger] good(j) implies from.contains(
                    j,
                ) by {
                    if j == i {
                        assert(from[f.len() as int] == j);
                    } else {
                        let p = choose|p: int| 0 <= p < f.len() && f[p] == j;
                        assert(from[p] == j);
                    }
                }
            }
        }
        i += 1;
    }
    proof {
        let kp = kept.panes();
        assert(kp.no_duplicates()) by {
            assert forall|p: int, q: int| 0 <= p < kp.len() && 0 <= q < kp.len() && p != q implies kp[p]
                != kp[q] by {
                assert(kp[p] == ks[from[p]] && kp[q] == ks[from[q]]);
                if p < q {
                    assert(from[p] < from[q]);
                } else {
                    assert(from[q] < from[p]);
                }
            }
        }
        let a = kept@;
        let b = pruned(reports@, live, now);
        assert forall|k: Seq<char>| #[trigger] a.contains_key(k) implies b.contains_key(k) && a[k]
            == b[k] by {
            lemma_place(kp, k);
            let p = place(kp, k);
            assert(good(from[p]));
            assert(kp[p] == ks[from[p]]);
            lemma_place_distinct(ks, from[p]);
        }
        assert forall|k: Seq<char>| #[trigger] b.contains_key(k) implies a.contains_key(k) by {
            lemma_place(ks, k);
            let j = place(ks, k);
            assert(good(j));
            let p = choose|p: int| 0 <= p < from.len() && from[p] == j;
            assert(kp[p] == ks[from[p]]);
            lemma_place_distinct(kp, p);
        }
        assert(a =~= b);
    }
    *reports = kept;
}

/// What a pane was last reported to show is what it is known to show, until
/// the report expires.
pub proof fn report_reads_back(
    reports: Map<Seq<char>, (Seq<char>, u64)>,
    pane: Seq<char>,
    session: Seq<char>,
    at: u64,
    now: u64,
)
    ensures
        shown(reports.insert(pane, (session, at)), pane, now) == if fresh(session, at, now) {
            Some(session)
        } else {
            None
        },
        fresh(session, at, at),
{
}

/// A report says nothing of other panes.
pub proof fn report_is_of_one_pane(
    reports: Map<Seq<char>, (Seq<char>, u64)>,
    pane: Seq<char>,
    session: Seq<char>,
    at: u64,
    other: Seq<char>,
    now: u64,
)
    requires
        other != pane,
    ensures
        shown(reports.insert(pane, (session, at)), other, now) == shown(reports, other, now),
{
}

/// Pruning changes nothing of what the live panes are known to show, then or
/// later, and leaves nothing of the others.
pub proof fn prune_keeps_what_is_shown(
    reports: Map<Seq<char>, (Seq<char>, u64)>,
    live: Seq<Seq<char>>,
    pane: Seq<char>,
    now: u64,
    later: u64,
)
    requires
        now <= later,
    ensures
        live.contains(pane) ==> shown(pruned(reports, live, now), pane, later) == shown(
            reports,
            pane,
            later,
        ),
        !live.contains(pane) ==> shown(pruned(reports, live, now), pane, later) is None,
{
}

/// A report that has expired never counts again.
pub proof fn expired_stays_expired(id: Seq<char>, at: u64, now: u64, later: u64)
    requires
        !fresh(id, at, now),
        now <= later,
    ensures
        !fresh(id, at, later),
{
}

/// The report of a session counts for six hours, that of none for half a minute.
pub proof fn a_report_counts_for_its_time(id: Seq<char>, at: u64, now: u64)
    ensures
        id.len() > 0 ==> (fresh(id, at, now) <==> now < at + 6 * 3600 * 1_000_000_000),
        id.len() == 0 ==> (fresh(id, at, now) <==> now < at + 30 * 1_000_000_000),
{
}

/// Pruning keeps a report, as it is, exactly if its pane is alive and the report
/// counts.
pub proof fn prune_keeps_exactly_the_live_and_fresh(
    reports: Map<Seq<char>, (Seq<char>, u64)>,
    live: Seq<Seq<char>>,
    pane: Seq<char>,
    now: u64,
)
    ensures
        pruned(reports, live, now).contains_key(pane) <==> reports.contains_key(pane)
            && live.contains(pane) && shown(reports, pane, now) is Some,
        pruned(reports, live, now).contains_key(pane) ==> pruned(reports, live, now)[pane]
            == reports[pane],
{
}

/// A pane of which nothing was reported is not known to show anything.
pub proof fn an_unreported_pane_shows_nothing(
    reports: Map<Seq<char>, (Seq<char>, u64)>,
    pane: Seq<char>,
    now: u64,
)
    requires
        !reports.contains_key(pane),
    ensures
        shown(reports, pane, now) is None,
{
}

} // verus!
