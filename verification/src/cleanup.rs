//! Choosing which cached scripts a cleanup removes.

use vstd::prelude::*;

use crate::models::{opt_view, CleanupCandidate};
use crate::text::{decimal, push_str, u64_string, views};

verus! {

/// A point in time: seconds since the Unix epoch and the nanoseconds past
/// that second.
#[derive(Clone, Copy, Debug)]
pub struct Moment {
    pub secs: i64,
    pub nanos: u32,
}

/// `a` is earlier than `b`.
pub open spec fn before(a: (i64, u32), b: (i64, u32)) -> bool {
    a.0 < b.0 || (a.0 == b.0 && a.1 < b.1)
}

/// The moment an RFC 3339 timestamp denotes, if it parses.
pub uninterp spec fn rfc3339_moment(s: Seq<char>) -> Option<(i64, u32)>;

/// Calls `chrono::DateTime::parse_from_rfc3339`.  Trusted: the outcome is
/// named `rfc3339_moment` of the text; a parsed value is given by its Unix
/// seconds (`timestamp`) and sub-second nanoseconds
/// (`timestamp_subsec_nanos`), which is how it orders against other moments.
#[verifier::external_body]
fn parse_rfc3339(s: &str) -> (r: Option<Moment>)
    ensures
        match r {
            Some(m) => rfc3339_moment(s@) == Some((m.secs, m.nanos)),
            None => rfc3339_moment(s@) is None,
        },
{
    match chrono::DateTime::parse_from_rfc3339(s) {
        Ok(dt) => Some(Moment { secs: dt.timestamp(), nanos: dt.timestamp_subsec_nanos() }),
        Err(_) => None,
    }
}

/// The age limit in days a cleanup applies: the one given, or the
/// configured maximum age when neither an age nor `unused` was asked for.
pub open spec fn age_limit(older_than: Option<u32>, unused: bool, max_age_days: u32) -> Option<
    u32,
> {
    if older_than is None && !unused {
        Some(max_age_days)
    } else {
        older_than
    }
}

/// Decides `age_limit`.
pub fn effective_older_than(older_than: Option<u32>, unused: bool, max_age_days: u32) -> (r: Option<
    u32,
>)
    ensures
        r == age_limit(older_than, unused, max_age_days),
{
    if older_than.is_none() && !unused {
        Some(max_age_days)
    } else {
        older_than
    }
}

/// The cutoff of an age limit: `days` whole days before `now`, to the
/// nanosecond.
pub open spec fn cutoff_of(now: Moment, days: Option<u32>) -> Option<Moment> {
    match days {
        Some(d) => Some(Moment { secs: (now.secs - 86400 * d) as i64, nanos: now.nanos }),
        None => None,
    }
}

/// The cutoff can be represented as a date: it falls no earlier than the
/// first second of year -262143, the earliest `chrono` dates can reach.
pub open spec fn cutoff_representable(now: Moment, days: Option<u32>) -> bool {
    days matches Some(d) ==> now.secs - 86400 * d >= -8334601228800
}

/// Computes `cutoff_of`.
pub fn cleanup_cutoff(now: Moment, days: Option<u32>) -> (r: Option<Moment>)
    requires
        cutoff_representable(now, days),
    ensures
        r == cutoff_of(now, days),
{
    match days {
        Some(d) => Some(Moment { secs: now.secs - 86400 * (d as i64), nanos: now.nanos }),
        None => None,
    }
}

/// An age limit the user gives is always kept, whatever else is asked;
/// without one the configured maximum age applies, unless only unused
/// scripts are asked for, in which case no age limit applies.
pub proof fn lemma_age_limit(older_than: Option<u32>, unused: bool, max_age_days: u32)
    ensures
        older_than matches Some(d) ==> age_limit(older_than, unused, max_age_days) == Some(d),
        older_than is None && !unused ==> age_limit(older_than, unused, max_age_days) == Some(
            max_age_days,
        ),
        older_than is None && unused ==> age_limit(older_than, unused, max_age_days) is None,
        age_limit(older_than, true, max_age_days) == older_than,
        age_limit(older_than, unused, max_age_days) is Some || unused,
{
}

/// A stored script as a cleanup reads it.
#[derive(Clone, Debug)]
pub struct CleanupRow {
    pub script_id: String,
    pub path: String,
    pub use_count: i64,
    pub created_at: String,
    pub last_used: Option<String>,
}

/// The time a script went stale: its last use, or its creation if never used.
pub open spec fn stale_text(row: CleanupRow) -> Seq<char> {
    match row.last_used {
        Some(u) => u@,
        None => row.created_at@,
    }
}

/// `older-than-<days>-days`.
pub open spec fn age_reason(days: Option<u32>) -> Seq<char> {
    let d: nat = match days {
        Some(d) => d as nat,
        None => 0,
    };
    seq!['o', 'l', 'd', 'e', 'r', '-', 't', 'h', 'a', 'n', '-'] + decimal(d) + seq![
        '-',
        'd',
        'a',
        'y',
        's',
    ]
}

/// `unused`
pub open spec fn unused_reason() -> Seq<char> {
    seq!['u', 'n', 'u', 's', 'e', 'd']
}

/// Why a script is a cleanup candidate: it went stale before the cutoff
/// (when there is one and its stale time parses), and it was never used
/// (when unused scripts are asked for).
pub open spec fn reasons(
    stale: Option<(i64, u32)>,
    cutoff: Option<Moment>,
    days: Option<u32>,
    unused: bool,
    use_count: i64,
) -> Seq<Seq<char>> {
    let old_enough = match (cutoff, stale) {
        (Some(c), Some(s)) => before(s, (c.secs, c.nanos)),
        _ => false,
    };
    let first: Seq<Seq<char>> = if old_enough {
        seq![age_reason(days)]
    } else {
        Seq::empty()
    };
    if unused && use_count == 0 {
        first.push(unused_reason())
    } else {
        first
    }
}

/// The cutoff lies exactly `days` whole days before `now`.
pub proof fn lemma_cutoff(now: Moment, days: Option<u32>)
    requires
        cutoff_representable(now, days),
    ensures
        days is None ==> cutoff_of(now, days) is None,
        days matches Some(d) ==> (cutoff_of(now, days) matches Some(c) && c.secs + 86400 * d
            == now.secs && c.nanos == now.nanos),
{
}

/// A script has the age reason exactly when a cutoff applies, its stale
/// time was read, and that time is strictly earlier than the cutoff
/// (comparing to the nanosecond); it has the `unused` reason exactly when
/// unused scripts were asked for and it was never used; it has no other
/// reason, and the age reason comes first.
pub proof fn lemma_reasons(
    stale: Option<(i64, u32)>,
    cutoff: Option<Moment>,
    days: Option<u32>,
    unused: bool,
    use_count: i64,
)
    requires
        stale matches Some(s) ==> s.1 < 1_000_000_000,
        cutoff matches Some(c) ==> c.nanos < 1_000_000_000,
    ensures
        ({
            let why = reasons(stale, cutoff, days, unused, use_count);
            let old_enough = match (stale, cutoff) {
                (Some(s), Some(c)) => s.0 * 1_000_000_000 + s.1 < c.secs * 1_000_000_000 + c.nanos,
                _ => false,
            };
            &&& why.contains(age_reason(days)) <==> old_enough
            &&& why.contains(unused_reason()) <==> (unused && use_count == 0)
            &&& why.len() <= 2
            &&& forall|i: int|
                0 <= i < why.len() ==> #[trigger] why[i] == age_reason(days) || why[i]
                    == unused_reason()
            &&& old_enough ==> why[0] == age_reason(days)
        }),
{
    assert(age_reason(days)[0] == 'o');
    assert(unused_reason()[0] == 'u');
    assert(age_reason(days) != unused_reason());
    match (stale, cutoff) {
        (Some(s), Some(c)) => {
            assert((s.0 * 1_000_000_000 + s.1 < c.secs * 1_000_000_000 + c.nanos) <==> before(
                s,
                (c.secs, c.nanos),
            )) by (nonlinear_arith)
                requires
                    s.1 < 1_000_000_000,
                    c.nanos < 1_000_000_000,
            ;
        },
        _ => {},
    }
    let why = reasons(stale, cutoff, days, unused, use_count);
    if why.len() > 0 && why[0] == age_reason(days) {
        assert(why.contains(age_reason(days)));
    }
    if unused && use_count == 0 {
        assert(why[why.len() - 1] == unused_reason());
        assert(why.contains(unused_reason()));
    }
    if why.contains(age_reason(days)) {
        let k = choose|k: int| 0 <= k < why.len() && why[k] == age_reason(days);
        assert(why[k][0] == 'o');
    }
    if why.contains(unused_reason()) {
        let k = choose|k: int| 0 <= k < why.len() && why[k] == unused_reason();
        assert(why[k][0] == 'u');
    }
}

/// `c` is the candidate for `row` with the given reasons.
pub open spec fn candidate_for(c: CleanupCandidate, row: CleanupRow, why: Seq<Seq<char>>) -> bool {
    &&& c.script_id@ == row.script_id@
    &&& c.path@ == row.path@
    &&& c.use_count == row.use_count
    &&& c.created_at@ == row.created_at@
    &&& opt_view(c.last_used) == opt_view(row.last_used)
    &&& views(c.reasons@) == why
}

fn age_reason_string(days: Option<u32>) -> (r: String)
    ensures
        r@ == age_reason(days),
{
    let d: u64 = match days {
        Some(d) => d as u64,
        None => 0,
    };
    let mut r = String::new();
    push_str(&mut r, "older-than-");
    let digits = u64_string(d);
    push_str(&mut r, digits.as_str());
    push_str(&mut r, "-days");
    proof {
        reveal_strlit("older-than-");
        reveal_strlit("-days");
    }
    assert(r@ =~= age_reason(days));
    r
}

/// Classifies one script, given the parse of its stale time (`None` when it
/// does not parse or no cutoff applies): the candidate with its reasons, or
/// nothing when there is no reason to remove it.
pub fn classify_candidate(
    row: CleanupRow,
    stale: Option<Moment>,
    cutoff: Option<Moment>,
    days: Option<u32>,
    unused: bool,
) -> (r: Option<CleanupCandidate>)
    ensures
        ({
            let why = reasons(
                match stale {
                    Some(m) => Some((m.secs, m.nanos)),
                    None => None,
                },
                cutoff,
                days,
                unused,
                row.use_count,
            );
            if why.len() == 0 {
                r is None
            } else {
                r matches Some(c) && candidate_for(c, row, why)
            }
        }),
{
    let mut why: Vec<String> = Vec::new();
    let old_enough = match (cutoff, stale) {
        (Some(c), Some(s)) => s.secs < c.secs || (s.secs == c.secs && s.nanos < c.nanos),
        _ => false,
    };
    if old_enough {
        why.push(age_reason_string(days));
    }
    if unused && row.use_count == 0 {
        let mut u = String::new();
        push_str(&mut u, "unused");
        proof {
            reveal_strlit("unused");
        }
        assert(u@ =~= unused_reason());
        why.push(u);
    }
    let ghost expected = reasons(
        match stale {
            Some(m) => Some((m.secs, m.nanos)),
            None => None,
        },
        cutoff,
        days,
        unused,
        row.use_count,
    );
    assert(views(why@) =~= expected);
    if why.len() == 0 {
        None
    } else {
        Some(
            CleanupCandidate {
                script_id: row.script_id,
                path: row.path,
                use_count: row.use_count,
                created_at: row.created_at,
                last_used: row.last_used,
                reasons: why,
            },
        )
    }
}

/// The reasons for `row` when its stale time is read with
/// `rfc3339_moment` (only when a cutoff applies).
pub open spec fn row_reasons(row: CleanupRow, cutoff: Option<Moment>, days: Option<u32>, unused: bool) -> Seq<
    Seq<char>,
> {
    let stale = if cutoff is Some {
        rfc3339_moment(stale_text(row))
    } else {
        None
    };
    reasons(stale, cutoff, days, unused, row.use_count)
}

/// The rows that have a reason to be removed, in order.
pub open spec fn selected(rows: Seq<CleanupRow>, cutoff: Option<Moment>, days: Option<u32>, unused: bool) -> Seq<
    CleanupRow,
>
    decreases rows.len(),
{
    if rows.len() == 0 {
        Seq::empty()
    } else {
        let prev = selected(rows.drop_last(), cutoff, days, unused);
        if row_reasons(rows.last(), cutoff, days, unused).len() > 0 {
            prev.push(rows.last())
        } else {
            prev
        }
    }
}

/// The cleanup candidates among `rows` (in their order) at moment `now`:
/// scripts that went stale more than `days` days before `now`, and
/// never-used scripts when `unused` is set.
pub fn find_candidates(
    rows: Vec<CleanupRow>,
    now: Moment,
    days: Option<u32>,
    unused: bool,
) -> (r: Vec<CleanupCandidate>)
    requires
        cutoff_representable(now, days),
    ensures
        ({
            let cutoff = cutoff_of(now, days);
            let sel = selected(rows@, cutoff, days, unused);
            &&& r@.len() == sel.len()
            &&& forall|i: int|
                0 <= i < sel.len() ==> candidate_for(
                    #[trigger] r@[i],
                    sel[i],
                    row_reasons(sel[i], cutoff, days, unused),
                )
        }),
{
    let cutoff = cleanup_cutoff(now, days);
    let ghost all = rows@;
    let mut out: Vec<CleanupCandidate> = Vec::new();
    let rest = rows;
    let mut i: usize = 0;
    let n = rest.len();
    while i < n
        invariant
            i <= n == all.len(),
            rest@ == all,
            ({
                let sel = selected(all.take(i as int), cutoff, days, unused);
                &&& out@.len() == sel.len()
                &&& forall|k: int|
                    0 <= k < sel.len() ==> candidate_for(
                        #[trigger] out@[k],
                        sel[k],
                        row_reasons(sel[k], cutoff, days, unused),
                    )
            }),
        decreases n - i,
    {
        assert(all.take(i + 1).drop_last() =~= all.take(i as int));
        let row = rest[i].clone_row();
        let stale = if cutoff.is_some() {
            match &row.last_used {
                Some(u) => parse_rfc3339(u.as_str()),
                None => parse_rfc3339(row.created_at.as_str()),
            }
        } else {
            None
        };
        let ghost before_out = out@;
        match classify_candidate(row, stale, cutoff, days, unused) {
            Some(c) => {
                out.push(c);
            },
            None => {},
        }
        i = i + 1;
        proof {
            let sel = selected(all.take(i as int), cutoff, days, unused);
            assert forall|k: int| 0 <= k < sel.len() implies candidate_for(
                #[trigger] out@[k],
                sel[k],
                row_reasons(sel[k], cutoff, days, unused),
            ) by {
                if k < before_out.len() {
                    assert(out@[k] == before_out[k]);
                }
            }
        }
    }
    assert(all.take(n as int) =~= all);
    out
}

impl CleanupRow {
    /// A copy of the row, field by field.
    pub fn clone_row(&self) -> (r: CleanupRow)
        ensures
            r == *self,
    {
        CleanupRow {
            script_id: self.script_id.clone(),
            path: self.path.clone(),
            use_count: self.use_count,
            created_at: self.created_at.clone(),
            last_used: match &self.last_used {
                Some(u) => Some(u.clone()),
                None => None,
            },
        }
    }
}

/// Every script a cleanup selects has at least one reason to go, and a
/// script is reported unused only when unused scripts were asked for and
/// it was never used.
pub proof fn lemma_selected_have_reasons(
    rows: Seq<CleanupRow>,
    cutoff: Option<Moment>,
    days: Option<u32>,
    unused: bool,
)
    ensures
        forall|i: int|
            0 <= i < selected(rows, cutoff, days, unused).len() ==> row_reasons(
                #[trigger] selected(rows, cutoff, days, unused)[i],
                cutoff,
                days,
                unused,
            ).len() > 0,
        forall|i: int|
            0 <= i < selected(rows, cutoff, days, unused).len() ==> (row_reasons(
                #[trigger] selected(rows, cutoff, days, unused)[i],
                cutoff,
                days,
                unused,
            ).contains(unused_reason()) <==> (unused && selected(rows, cutoff, days, unused)[i].use_count == 0)),
    decreases rows.len(),
{
    if rows.len() > 0 {
        lemma_selected_have_reasons(rows.drop_last(), cutoff, days, unused);
        assert forall|r: CleanupRow| #[trigger] row_reasons(r, cutoff, days, unused).contains(unused_reason()) <==> (unused && r.use_count == 0) by {
            let why = row_reasons(r, cutoff, days, unused);
            if unused && r.use_count == 0 {
                assert(why[why.len() - 1] == unused_reason());
            }
            if why.contains(unused_reason()) && !(unused && r.use_count == 0) {
                let k = choose|k: int| 0 <= k < why.len() && why[k] == unused_reason();
                assert(why[k][0] == 'o');
            }
        }
    }
}

} // verus!
