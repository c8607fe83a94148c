//! Assembling listings from rows read in chunks: grouping values by
//! script, and ordering tag-filtered scripts newest first.

use vstd::prelude::*;

use crate::models::ScriptInfo;
use crate::text::{lemma_less_total, lemma_less_transitive, seq_less, str_less, views};

verus! {

/// The views of `(script id, value)` rows.
pub open spec fn pair_views(rows: Seq<(String, String)>) -> Seq<(Seq<char>, Seq<char>)> {
    rows.map_values(|r: (String, String)| (r.0@, r.1@))
}

/// The script ids of the rows, each once, in order of first appearance.
pub open spec fn group_keys(rows: Seq<(Seq<char>, Seq<char>)>) -> Seq<Seq<char>>
    decreases rows.len(),
{
    if rows.len() == 0 {
        Seq::empty()
    } else {
        let prev = group_keys(rows.drop_last());
        if prev.contains(rows.last().0) {
            prev
        } else {
            prev.push(rows.last().0)
        }
    }
}

/// The values of the rows of one script id, in order.
pub open spec fn values_for(rows: Seq<(Seq<char>, Seq<char>)>, key: Seq<char>) -> Seq<Seq<char>>
    decreases rows.len(),
{
    if rows.len() == 0 {
        Seq::empty()
    } else {
        let prev = values_for(rows.drop_last(), key);
        if rows.last().0 == key {
            prev.push(rows.last().1)
        } else {
            prev
        }
    }
}

/// A script id that no row has has no values.
pub proof fn lemma_values_for_absent(rows: Seq<(Seq<char>, Seq<char>)>, key: Seq<char>)
    requires
        !group_keys(rows).contains(key),
    ensures
        values_for(rows, key) == Seq::<Seq<char>>::empty(),
    decreases rows.len(),
{
    if rows.len() > 0 {
        let prev = group_keys(rows.drop_last());
        if !prev.contains(rows.last().0) {
            assert(group_keys(rows)[group_keys(rows).len() - 1] == rows.last().0);
        }
        assert forall|k: int| 0 <= k < prev.len() implies prev[k] != key by {
            assert(group_keys(rows)[k] == prev[k]);
        }
        lemma_values_for_absent(rows.drop_last(), key);
    }
}

/// The ids of `group_keys` are distinct.
pub proof fn lemma_group_keys_distinct(rows: Seq<(Seq<char>, Seq<char>)>)
    ensures
        group_keys(rows).no_duplicates(),
    decreases rows.len(),
{
    if rows.len() > 0 {
        lemma_group_keys_distinct(rows.drop_last());
    }
}

/// The grouped script ids are exactly the ids of the rows, and the values
/// of an id are exactly the values of its rows.
pub proof fn lemma_groups_cover_rows(
    rows: Seq<(Seq<char>, Seq<char>)>,
    key: Seq<char>,
    value: Seq<char>,
)
    ensures
        group_keys(rows).contains(key) <==> exists|i: int| 0 <= i < rows.len() && (#[trigger] rows[i]).0 == key,
        values_for(rows, key).contains(value) <==> exists|i: int|
            0 <= i < rows.len() && #[trigger] rows[i] == (key, value),
    decreases rows.len(),
{
    if rows.len() > 0 {
        let prev = rows.drop_last();
        lemma_groups_cover_rows(prev, key, value);
        let n = rows.len() - 1;
        let g = group_keys(rows);
        let gp = group_keys(prev);
        let v = values_for(rows, key);
        let vp = values_for(prev, key);
        if g.contains(key) {
            let k = choose|k: int| 0 <= k < g.len() && g[k] == key;
            if k < gp.len() {
                assert(gp[k] == key);
                let i = choose|i: int| 0 <= i < prev.len() && (#[trigger] prev[i]).0 == key;
                assert(rows[i] == prev[i]);
            } else {
                assert(rows[n].0 == key);
            }
        }
        if exists|i: int| 0 <= i < rows.len() && (#[trigger] rows[i]).0 == key {
            let i = choose|i: int| 0 <= i < rows.len() && (#[trigger] rows[i]).0 == key;
            if i < n {
                assert(prev[i] == rows[i]);
                let k = choose|k: int| 0 <= k < gp.len() && gp[k] == key;
                assert(g[k] == key);
            } else if !gp.contains(key) {
                assert(g[g.len() - 1] == key);
            } else {
                let k = choose|k: int| 0 <= k < gp.len() && gp[k] == key;
                assert(g[k] == key);
            }
        }
        if v.contains(value) {
            let k = choose|k: int| 0 <= k < v.len() && v[k] == value;
            if k < vp.len() {
                assert(vp[k] == value);
                let i = choose|i: int| 0 <= i < prev.len() && #[trigger] prev[i] == (key, value);
                assert(rows[i] == prev[i]);
            } else {
                assert(rows[n] == (key, value));
            }
        }
        if exists|i: int| 0 <= i < rows.len() && #[trigger] rows[i] == (key, value) {
            let i = choose|i: int| 0 <= i < rows.len() && #[trigger] rows[i] == (key, value);
            if i < n {
                assert(prev[i] == rows[i]);
                let k = choose|k: int| 0 <= k < vp.len() && vp[k] == value;
                assert(v[k] == value);
            } else {
                assert(v[v.len() - 1] == value);
            }
        }
    }
}

/// Groups `(script id, value)` rows by script id: the ids in order of first
/// appearance, each with its values in row order.
pub fn group_by_script(rows: &[(String, String)]) -> (groups: Vec<(String, Vec<String>)>)
    ensures
        groups@.len() == group_keys(pair_views(rows@)).len(),
        forall|g: int|
            0 <= g < groups@.len() ==> {
                &&& (#[trigger] groups@[g]).0@ == group_keys(pair_views(rows@))[g]
                &&& views(groups@[g].1@) == values_for(pair_views(rows@), groups@[g].0@)
            },
{
    let ghost pv = pair_views(rows@);
    let mut groups: Vec<(String, Vec<String>)> = Vec::new();
    let mut i: usize = 0;
    while i < rows.len()
        invariant
            i <= rows.len(),
            pv == pair_views(rows@),
            groups@.len() == group_keys(pv.take(i as int)).len(),
            forall|g: int|
                0 <= g < groups@.len() ==> {
                    &&& (#[trigger] groups@[g]).0@ == group_keys(pv.take(i as int))[g]
                    &&& views(groups@[g].1@) == values_for(pv.take(i as int), groups@[g].0@)
                },
        decreases rows.len() - i,
    {
        let ghost pre = pv.take(i as int);
        let ghost post = pv.take(i + 1);
        assert(post.drop_last() =~= pre);
        assert(post.last() == (rows@[i as int].0@, rows@[i as int].1@));
        proof {
            lemma_group_keys_distinct(pre);
        }
        let key = &rows[i].0;
        let mut g: usize = 0;
        while g < groups.len() && !(groups[g].0 == *key)
            invariant
                g <= groups.len(),
                forall|h: int| 0 <= h < g ==> groups@[h].0@ != key@,
            decreases groups.len() - g,
        {
            g = g + 1;
        }
        let ghost old_groups = groups@;
        if g < groups.len() {
            assert(group_keys(pre)[g as int] == key@);
            assert(group_keys(pre).contains(key@));
            let (k, mut vals) = groups.remove(g);
            let ghost old_vals = vals@;
            vals.push(rows[i].1.clone());
            assert(views(vals@) =~= views(old_vals).push(rows@[i as int].1@));
            groups.insert(g, (k, vals));
            assert(group_keys(post) =~= group_keys(pre));
            assert forall|h: int| 0 <= h < groups@.len() implies {
                &&& (#[trigger] groups@[h]).0@ == group_keys(post)[h]
                &&& views(groups@[h].1@) == values_for(post, groups@[h].0@)
            } by {
                if h != g {
                    assert(groups@[h] == old_groups[h]);
                    assert(group_keys(pre)[h] != group_keys(pre)[g as int]);
                }
            }
        } else {
            assert(!group_keys(pre).contains(key@)) by {
                if group_keys(pre).contains(key@) {
                    let h = choose|h: int| 0 <= h < group_keys(pre).len() && group_keys(pre)[h]
                        == key@;
                    assert(groups@[h].0@ == key@);
                }
            }
            proof {
                lemma_values_for_absent(pre, key@);
            }
            let mut vals: Vec<String> = Vec::new();
            vals.push(rows[i].1.clone());
            assert(views(vals@) =~= seq![rows@[i as int].1@]);
            groups.push((key.clone(), vals));
            assert forall|h: int| 0 <= h < groups@.len() implies {
                &&& (#[trigger] groups@[h]).0@ == group_keys(post)[h]
                &&& views(groups@[h].1@) == values_for(post, groups@[h].0@)
            } by {
                if h < old_groups.len() {
                    assert(groups@[h] == old_groups[h]);
                    assert(group_keys(pre)[h] != key@);
                } else {
                    assert(values_for(post, key@) =~= seq![rows@[i as int].1@]);
                }
            }
        }
        i = i + 1;
    }
    assert(pv.take(rows.len() as int) =~= pv);
    groups
}

/// The script id of a listing row.
pub open spec fn row_id(r: (ScriptInfo, String)) -> Seq<char> {
    r.0.script_id@
}

/// The creation time of a listing row.
pub open spec fn row_time(r: (ScriptInfo, String)) -> Seq<char> {
    r.1@
}

/// Some row of `rows` has script id `id`.
pub open spec fn has_id(rows: Seq<(ScriptInfo, String)>, id: Seq<char>) -> bool {
    exists|k: int| 0 <= k < rows.len() && row_id(rows[k]) == id
}

/// The first row of each script id, in order.
pub open spec fn first_rows(rows: Seq<(ScriptInfo, String)>) -> Seq<(ScriptInfo, String)>
    decreases rows.len(),
{
    if rows.len() == 0 {
        Seq::empty()
    } else {
        let prev = first_rows(rows.drop_last());
        if has_id(prev, row_id(rows.last())) {
            prev
        } else {
            prev.push(rows.last())
        }
    }
}

/// The rows, newest creation time first.
pub open spec fn newest_first(rows: Seq<(ScriptInfo, String)>) -> bool {
    forall|a: int, b: int| 0 <= a < b < rows.len() ==> !seq_less(row_time(rows[a]), row_time(rows[b]))
}

/// No two rows share a script id.
pub open spec fn distinct_ids(rows: Seq<(ScriptInfo, String)>) -> bool {
    forall|a: int, b: int| 0 <= a < b < rows.len() ==> row_id(rows[a]) != row_id(rows[b])
}

/// The `limit` newest scripts among rows gathered from several queries: the
/// first row of each script id is kept, the kept rows are ordered newest
/// first, and no script left out is newer than the last one kept.
pub fn newest_scripts(rows: Vec<(ScriptInfo, String)>, limit: usize) -> (r: Vec<(ScriptInfo, String)>)
    ensures
        ({
            let f = first_rows(rows@);
            &&& r@.len() == (if limit < f.len() {
                limit as int
            } else {
                f.len() as int
            })
            &&& forall|k: int| 0 <= k < r@.len() ==> f.contains(#[trigger] r@[k])
            &&& distinct_ids(r@)
            &&& newest_first(r@)
            &&& r@.len() > 0 ==> forall|x: (ScriptInfo, String)|
                #![trigger f.contains(x)]
                f.contains(x) && !r@.contains(x) ==> !seq_less(row_time(r@.last()), row_time(x))
        }),
{
    let ghost all = rows@;
    let mut pending = rows;
    let mut out: Vec<(ScriptInfo, String)> = Vec::new();
    let mut i: usize = 0;
    let n = pending.len();
    while i < n
        invariant
            i <= n == all.len(),
            pending@ == all.skip(i as int),
            out@.len() == first_rows(all.take(i as int)).len(),
            forall|x: (ScriptInfo, String)|
                #![trigger out@.contains(x)]
                #![trigger first_rows(all.take(i as int)).contains(x)]
                out@.contains(x) <==> first_rows(all.take(i as int)).contains(x),
            distinct_ids(out@),
            newest_first(out@),
        decreases n - i,
    {
        let ghost f_pre = first_rows(all.take(i as int));
        assert(all.take(i + 1).drop_last() =~= all.take(i as int));
        assert(pending@[0] == all[i as int]);
        let e = pending.remove(0);
        assert(pending@ =~= all.skip(i + 1));
        assert(all.take(i + 1).last() == e);
        // is the script already kept?
        let mut j: usize = 0;
        while j < out.len() && !(out[j].0.script_id == e.0.script_id)
            invariant
                j <= out.len(),
                forall|h: int| 0 <= h < j ==> row_id(out@[h]) != row_id(e),
            decreases out.len() - j,
        {
            j = j + 1;
        }
        if j < out.len() {
            assert(out@.contains(out@[j as int]));
            assert(has_id(f_pre, row_id(e))) by {
                assert(f_pre.contains(out@[j as int]));
                let k = choose|k: int| 0 <= k < f_pre.len() && f_pre[k] == out@[j as int];
                assert(row_id(f_pre[k]) == row_id(e));
            }
            assert(first_rows(all.take(i + 1)) == f_pre);
        } else {
            assert(!has_id(f_pre, row_id(e))) by {
                if has_id(f_pre, row_id(e)) {
                    let k = choose|k: int| 0 <= k < f_pre.len() && row_id(f_pre[k]) == row_id(e);
                    assert(f_pre.contains(f_pre[k]));
                    assert(out@.contains(f_pre[k]));
                    let h = choose|h: int| 0 <= h < out@.len() && out@[h] == f_pre[k];
                    assert(row_id(out@[h]) == row_id(e));
                }
            }
            assert(first_rows(all.take(i + 1)) == f_pre.push(e));
            // where does it go?
            let mut k: usize = 0;
            while k < out.len() && !str_less(out[k].1.as_str(), e.1.as_str())
                invariant
                    k <= out.len(),
                    forall|h: int| 0 <= h < k ==> !seq_less(row_time(out@[h]), row_time(e)),
                decreases out.len() - k,
            {
                k = k + 1;
            }
            let ghost old_out = out@;
            out.insert(k, e);
            assert(out@ =~= old_out.take(k as int).push(e) + old_out.skip(k as int));
            proof {
                lemma_insert_keeps_order(old_out, e, k as int);
            }
            assert forall|x: (ScriptInfo, String)|
                #![trigger out@.contains(x)]
                #![trigger first_rows(all.take(i + 1)).contains(x)]
                out@.contains(x) <==> first_rows(all.take(i + 1)).contains(x) by {
                if out@.contains(x) {
                    let h = choose|h: int| 0 <= h < out@.len() && out@[h] == x;
                    if h < k {
                        assert(old_out[h] == x);
                        assert(old_out.contains(x));
                    } else if h > k {
                        assert(old_out[h - 1] == x);
                        assert(old_out.contains(x));
                    }
                    if x != e {
                        assert(f_pre.contains(x));
                        let m = choose|m: int| 0 <= m < f_pre.len() && f_pre[m] == x;
                        assert(f_pre.push(e)[m] == x);
                    } else {
                        assert(f_pre.push(e)[f_pre.len() as int] == x);
                    }
                }
                if first_rows(all.take(i + 1)).contains(x) {
                    let m = choose|m: int| 0 <= m < f_pre.len() + 1 && f_pre.push(e)[m] == x;
                    if m < f_pre.len() {
                        assert(f_pre[m] == x);
                        assert(f_pre.contains(x));
                        assert(old_out.contains(x));
                        let h = choose|h: int| 0 <= h < old_out.len() && old_out[h] == x;
                        if h < k {
                            assert(out@[h] == x);
                        } else {
                            assert(out@[h + 1] == x);
                        }
                    } else {
                        assert(out@[k as int] == x);
                    }
                }
            }
        }
        i = i + 1;
    }
    assert(all.take(n as int) =~= all);
    let ghost full = out@;
    let ghost f = first_rows(all);
    if limit < out.len() {
        out.truncate(limit);
    }
    assert(out@ =~= full.take(out@.len() as int));
    proof {
        assert forall|k: int| 0 <= k < out@.len() implies f.contains(#[trigger] out@[k]) by {
            assert(full.contains(full[k]));
        }
        if out@.len() > 0 {
            assert forall|x: (ScriptInfo, String)|
                #![trigger f.contains(x)]
                f.contains(x) && !out@.contains(x) implies !seq_less(
                    row_time(out@.last()),
                    row_time(x),
                ) by {
                assert(full.contains(x));
                let h = choose|h: int| 0 <= h < full.len() && full[h] == x;
                if h < out@.len() {
                    assert(out@[h] == x);
                }
                if h > out@.len() - 1 {
                    assert(!seq_less(row_time(full[out@.len() - 1]), row_time(full[h])));
                }
            }
        }
    }
    out
}

/// Inserting a row at the first position holding an older row keeps the
/// rows newest first and their ids distinct, given the row's id is new.
proof fn lemma_insert_keeps_order(out: Seq<(ScriptInfo, String)>, e: (ScriptInfo, String), k: int)
    requires
        0 <= k <= out.len(),
        newest_first(out),
        distinct_ids(out),
        forall|h: int| 0 <= h < k ==> !seq_less(row_time(out[h]), row_time(e)),
        k < out.len() ==> seq_less(row_time(out[k]), row_time(e)),
        forall|h: int| 0 <= h < out.len() ==> row_id(out[h]) != row_id(e),
    ensures
        newest_first(out.take(k).push(e) + out.skip(k)),
        distinct_ids(out.take(k).push(e) + out.skip(k)),
{
    let s = out.take(k).push(e) + out.skip(k);
    assert forall|b: int| k < b < s.len() implies seq_less(row_time(s[b]), row_time(e)) by {
        assert(s[b] == out[b - 1]);
        if b - 1 > k {
            assert(!seq_less(row_time(out[k]), row_time(out[b - 1])));
            lemma_less_total(row_time(out[k]), row_time(out[b - 1]));
            if row_time(out[k]) != row_time(out[b - 1]) {
                lemma_less_transitive(row_time(out[b - 1]), row_time(out[k]), row_time(e));
            }
        }
    }
    assert forall|a: int, b: int| 0 <= a < b < s.len() implies !seq_less(
        row_time(s[a]),
        row_time(s[b]),
    ) by {
        if a < k && b > k {
            assert(s[a] == out[a]);
            if seq_less(row_time(s[a]), row_time(s[b])) {
                lemma_less_transitive(row_time(s[a]), row_time(s[b]), row_time(e));
            }
        } else if a == k {
            lemma_less_total(row_time(s[b]), row_time(e));
        } else if a < k && b < k {
            assert(s[a] == out[a] && s[b] == out[b]);
        } else if a > k {
            assert(s[a] == out[a - 1] && s[b] == out[b - 1]);
        } else {
            assert(s[a] == out[a]);
        }
    }
    assert forall|a: int, b: int| 0 <= a < b < s.len() implies row_id(s[a]) != row_id(s[b]) by {
        if a < k && b < k {
            assert(s[a] == out[a] && s[b] == out[b]);
        } else if a < k && b > k {
            assert(s[a] == out[a] && s[b] == out[b - 1]);
        } else if a > k {
            assert(s[a] == out[a - 1] && s[b] == out[b - 1]);
        } else if a == k {
            assert(s[b] == out[b - 1]);
        } else {
            assert(s[a] == out[a]);
        }
    }
}

} // verus!
