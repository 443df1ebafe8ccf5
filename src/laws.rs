use vstd::prelude::*;

use crate::action::Action;
use crate::ranking::{
    credit, has_unique_ids, is_listed, is_sorted, lemma_ranks_before_asymmetric, lemma_totals_at,
    total_of, totals, Ranking, Standing,
};

verus! {

/// A metric as the laws see it: (player id, action, value, timestamp).
pub type Event = (Seq<char>, Action, u32, u32);

/// `rs` is the sequence of states that applying the metrics `ms` one by one
/// goes through, starting from `rs[0]`.
pub open spec fn is_run(rs: Seq<Ranking>, ms: Seq<Event>) -> bool {
    &&& rs.len() == ms.len() + 1
    &&& forall|i: int|
        0 <= i < ms.len() ==> #[trigger] rs[i + 1].follows(&rs[i], ms[i].0, ms[i].1, ms[i].2, ms[i].3)
}

/// The sum of the values of `ms`.
pub open spec fn value_sum(ms: Seq<Event>) -> int
    decreases ms.len(),
{
    if ms.len() == 0 {
        0
    } else {
        value_sum(ms.drop_last()) + ms.last().2
    }
}

/// Totals `t` after the metric `m`, under the filter of `r`.
pub open spec fn credited(t: Map<Seq<char>, int>, r: Ranking, m: Event) -> Map<Seq<char>, int> {
    if r.admits(m.1, m.3) {
        credit(t, m.0, m.2 as int)
    } else {
        t
    }
}

/// Totals `t` after the metrics `ms` in order, under the filter of `r`.
pub open spec fn replay(t: Map<Seq<char>, int>, r: Ranking, ms: Seq<Event>) -> Map<Seq<char>, int>
    decreases ms.len(),
{
    if ms.len() == 0 {
        t
    } else {
        credited(replay(t, r, ms.drop_last()), r, ms.last())
    }
}

/// A metric leaves a ranking's list as it was exactly when the ranking does
/// not count its action or its timestamp, unless it adds nothing to a player
/// already listed (a value of zero).
pub proof fn lemma_unchanged_iff_filtered_out(
    before: Ranking,
    after: Ranking,
    id: Seq<char>,
    action: Action,
    value: u32,
    timestamp: u32,
)
    requires
        after.follows(&before, id, action, value, timestamp),
        value > 0 || !is_listed(before.standings(), id),
    ensures
        (after.standings() == before.standings()) <==> !before.admits(action, timestamp),
{
    if before.admits(action, timestamp) {
        let t = totals(before.standings());
        assert(totals(after.standings()).contains_key(id));
        assert(totals(after.standings())[id] == total_of(t, id) + value);
        if value > 0 {
            assert(total_of(totals(after.standings()), id) != total_of(t, id));
        } else {
            assert(!t.contains_key(id));
        }
    }
}

/// Applying twice a metric that the ranking does not count leaves the list as
/// applying it no time at all.
pub proof fn lemma_filtered_out_twice(
    r0: Ranking,
    r1: Ranking,
    r2: Ranking,
    id: Seq<char>,
    action: Action,
    value: u32,
    timestamp: u32,
)
    requires
        r1.follows(&r0, id, action, value, timestamp),
        r2.follows(&r1, id, action, value, timestamp),
        !r0.admits(action, timestamp),
    ensures
        r2.standings() == r0.standings(),
{
}

/// Along a run every state keeps the name and filter of the first, and its
/// totals are those of the first with the metrics replayed.
pub proof fn lemma_run_replays(rs: Seq<Ranking>, ms: Seq<Event>)
    requires
        is_run(rs, ms),
    ensures
        forall|i: int|
            0 <= i < rs.len() ==> (#[trigger] rs[i]).actions() == rs[0].actions() && rs[i].range()
                == rs[0].range() && rs[i].title() == rs[0].title(),
        totals(rs.last().standings()) == replay(totals(rs[0].standings()), rs[0], ms),
    decreases ms.len(),
{
    if ms.len() > 0 {
        let n = ms.len() - 1;
        let rs0 = rs.drop_last();
        let ms0 = ms.drop_last();
        assert forall|i: int| 0 <= i < ms0.len() implies #[trigger] rs0[i + 1].follows(
            &rs0[i],
            ms0[i].0,
            ms0[i].1,
            ms0[i].2,
            ms0[i].3,
        ) by {
            assert(rs[i + 1].follows(&rs[i], ms[i].0, ms[i].1, ms[i].2, ms[i].3));
        }
        lemma_run_replays(rs0, ms0);
        assert(rs[n + 1].follows(&rs[n], ms[n].0, ms[n].1, ms[n].2, ms[n].3));
        assert(rs0[n] == rs[n]);
        assert forall|i: int| 0 <= i < rs.len() implies (#[trigger] rs[i]).actions() == rs[0].actions()
            && rs[i].range() == rs[0].range() && rs[i].title() == rs[0].title() by {
            if i < rs.len() - 1 {
                assert(rs0[i] == rs[i]);
            }
        }
    }
}

/// Every state of a run that starts well formed is sorted, descending by value
/// and ascending by id on equal values, and holds each player at most once.
pub proof fn lemma_run_stays_sorted(rs: Seq<Ranking>, ms: Seq<Event>)
    requires
        is_run(rs, ms),
        rs[0].wf(),
    ensures
        forall|i: int|
            0 <= i < rs.len() ==> is_sorted((#[trigger] rs[i]).standings()) && has_unique_ids(
                rs[i].standings(),
            ),
{
    assert forall|i: int| 0 <= i < rs.len() implies is_sorted((#[trigger] rs[i]).standings())
        && has_unique_ids(rs[i].standings()) by {
        if i > 0 {
            assert(rs[(i - 1) + 1].follows(
                &rs[i - 1],
                ms[i - 1].0,
                ms[i - 1].1,
                ms[i - 1].2,
                ms[i - 1].3,
            ));
        }
    }
}

/// Applying metrics of one player that the ranking all counts adds the sum of
/// their values to that player's total.
pub proof fn lemma_aggregation(rs: Seq<Ranking>, ms: Seq<Event>, id: Seq<char>)
    requires
        is_run(rs, ms),
        forall|i: int| 0 <= i < ms.len() ==> (#[trigger] ms[i]).0 == id && rs[0].admits(ms[i].1, ms[i].3),
    ensures
        total_of(totals(rs.last().standings()), id) == total_of(totals(rs[0].standings()), id)
            + value_sum(ms),
    decreases ms.len(),
{
    if ms.len() > 0 {
        let n = ms.len() - 1;
        let rs0 = rs.drop_last();
        let ms0 = ms.drop_last();
        assert forall|i: int| 0 <= i < ms0.len() implies #[trigger] rs0[i + 1].follows(
            &rs0[i],
            ms0[i].0,
            ms0[i].1,
            ms0[i].2,
            ms0[i].3,
        ) by {
            assert(rs[i + 1].follows(&rs[i], ms[i].0, ms[i].1, ms[i].2, ms[i].3));
        }
        assert forall|i: int| 0 <= i < ms0.len() implies (#[trigger] ms0[i]).0 == id && rs0[0].admits(
            ms0[i].1,
            ms0[i].3,
        ) by {
            assert(ms0[i] == ms[i]);
        }
        lemma_aggregation(rs0, ms0, id);
        lemma_run_replays(rs, ms);
        assert(rs[n + 1].follows(&rs[n], ms[n].0, ms[n].1, ms[n].2, ms[n].3));
        assert(rs0[n] == rs[n]);
        assert(ms[n] == ms.last());
    }
}

proof fn lemma_credited_commute(t: Map<Seq<char>, int>, r: Ranking, a: Event, b: Event)
    ensures
        credited(credited(t, r, a), r, b) =~= credited(credited(t, r, b), r, a),
{
}

/// Replaying `s` is replaying it without `s[k]` and then `s[k]`.
proof fn lemma_replay_move_last(t: Map<Seq<char>, int>, r: Ranking, s: Seq<Event>, k: int)
    requires
        0 <= k < s.len(),
    ensures
        replay(t, r, s) == credited(replay(t, r, s.remove(k)), r, s[k]),
    decreases s.len(),
{
    if k == s.len() - 1 {
        assert(s.remove(k) =~= s.drop_last());
    } else {
        let d = s.drop_last();
        lemma_replay_move_last(t, r, d, k);
        assert(d.remove(k) =~= s.remove(k).drop_last());
        assert(s.remove(k).last() == s.last());
        lemma_credited_commute(replay(t, r, d.remove(k)), r, s[k], s.last());
    }
}

/// Replaying the same metrics in another order gives the same totals.
proof fn lemma_replay_permutation(t: Map<Seq<char>, int>, r: Ranking, s1: Seq<Event>, s2: Seq<Event>)
    requires
        s1.to_multiset() == s2.to_multiset(),
    ensures
        replay(t, r, s1) == replay(t, r, s2),
    decreases s1.len(),
{
    broadcast use vstd::seq_lib::group_to_multiset_ensures;

    if s1.len() == 0 {
        assert(s2.to_multiset().len() == 0);
    } else {
        let x = s1.last();
        let a = s1.drop_last();
        assert(s1 =~= a.push(x));
        assert(s1.to_multiset() =~= a.to_multiset().insert(x));
        assert(s2.to_multiset().count(x) > 0);
        assert(s2.contains(x));
        let k = choose|k: int| 0 <= k < s2.len() && s2[k] == x;
        assert(s2.remove(k).to_multiset() =~= s2.to_multiset().remove(x));
        assert(a.to_multiset() =~= s2.remove(k).to_multiset());
        lemma_replay_permutation(t, r, a, s2.remove(k));
        lemma_replay_move_last(t, r, s2, k);
    }
}

proof fn lemma_totals_drop_first(s: Seq<Standing>)
    requires
        has_unique_ids(s),
        s.len() > 0,
    ensures
        has_unique_ids(s.drop_first()),
        totals(s.drop_first()) =~= totals(s).remove(s[0].0),
{
    let d = s.drop_first();
    assert forall|i: int, j: int| 0 <= i < j < d.len() implies (#[trigger] d[i]).0 != (#[trigger] d[j]).0 by {
        assert(d[i] == s[i + 1] && d[j] == s[j + 1]);
    }
    assert forall|k: Seq<char>| is_listed(d, k) implies is_listed(s, k) && k != s[0].0 by {
        let i = choose|i: int| 0 <= i < d.len() && (#[trigger] d[i]).0 == k;
        assert(s[i + 1] == d[i]);
    }
    assert forall|k: Seq<char>| is_listed(s, k) && k != s[0].0 implies is_listed(d, k) by {
        let i = choose|i: int| 0 <= i < s.len() && (#[trigger] s[i]).0 == k;
        assert(d[i - 1] == s[i]);
    }
    assert forall|k: Seq<char>| #[trigger] totals(d).contains_key(k) implies totals(d)[k] == totals(s)[k] by {
        let i = choose|i: int| 0 <= i < d.len() && (#[trigger] d[i]).0 == k;
        assert(s[i + 1] == d[i]);
        lemma_totals_at(d, i);
        lemma_totals_at(s, i + 1);
    }
}

/// A sorted list with unique ids is fixed by its totals.
pub proof fn lemma_standings_determined_by_totals(s: Seq<Standing>, u: Seq<Standing>)
    requires
        is_sorted(s),
        has_unique_ids(s),
        is_sorted(u),
        has_unique_ids(u),
        totals(s) == totals(u),
    ensures
        s == u,
    decreases s.len(),
{
    if s.len() == 0 {
        if u.len() > 0 {
            lemma_totals_at(u, 0);
        }
        assert(s =~= u);
    } else if u.len() == 0 {
        lemma_totals_at(s, 0);
    } else {
        lemma_totals_at(s, 0);
        lemma_totals_at(u, 0);
        let j = choose|j: int| 0 <= j < u.len() && (#[trigger] u[j]).0 == s[0].0;
        let i = choose|i: int| 0 <= i < s.len() && (#[trigger] s[i]).0 == u[0].0;
        lemma_totals_at(u, j);
        lemma_totals_at(s, i);
        if j != 0 {
            if i == 0 {
                assert(u[0].0 == u[j].0);
            } else {
                assert(u[j] == s[0]);
                assert(u[0] == s[i]);
                lemma_ranks_before_asymmetric(s[0], s[i]);
            }
        }
        assert(u[0] == s[0]);
        lemma_totals_drop_first(s);
        lemma_totals_drop_first(u);
        assert forall|a: int, b: int| 0 <= a < b < s.drop_first().len() implies crate::ranking::ranks_before(
            #[trigger] s.drop_first()[a],
            #[trigger] s.drop_first()[b],
        ) by {
            assert(s.drop_first()[a] == s[a + 1] && s.drop_first()[b] == s[b + 1]);
        }
        assert forall|a: int, b: int| 0 <= a < b < u.drop_first().len() implies crate::ranking::ranks_before(
            #[trigger] u.drop_first()[a],
            #[trigger] u.drop_first()[b],
        ) by {
            assert(u.drop_first()[a] == u[a + 1] && u.drop_first()[b] == u[b + 1]);
        }
        lemma_standings_determined_by_totals(s.drop_first(), u.drop_first());
        assert forall|k: int| 0 <= k < s.len() implies s[k] == u[k] by {
            if k > 0 {
                assert(s[k] == s.drop_first()[k - 1]);
                assert(u[k] == u.drop_first()[k - 1]);
            }
        }
        assert(s =~= u);
    }
}

/// Two rankings that start with the same list and filter and take the same
/// metrics, in any two orders, end with the same list.
pub proof fn lemma_order_independent(
    rs1: Seq<Ranking>,
    ms1: Seq<Event>,
    rs2: Seq<Ranking>,
    ms2: Seq<Event>,
)
    requires
        is_run(rs1, ms1),
        is_run(rs2, ms2),
        rs1[0].wf(),
        rs2[0].standings() == rs1[0].standings(),
        rs2[0].actions() == rs1[0].actions(),
        rs2[0].range() == rs1[0].range(),
        ms1.to_multiset() == ms2.to_multiset(),
    ensures
        rs1.last().standings() == rs2.last().standings(),
{
    let t = totals(rs1[0].standings());
    lemma_run_replays(rs1, ms1);
    lemma_run_replays(rs2, ms2);
    lemma_replay_permutation(t, rs1[0], ms1, ms2);
    lemma_replay_same_filter(t, rs1[0], rs2[0], ms2);
    if ms1.len() > 0 {
        let n1 = ms1.len() - 1;
        assert(rs1[n1 + 1].follows(&rs1[n1], ms1[n1].0, ms1[n1].1, ms1[n1].2, ms1[n1].3));
    }
    if ms2.len() > 0 {
        let n2 = ms2.len() - 1;
        assert(rs2[n2 + 1].follows(&rs2[n2], ms2[n2].0, ms2[n2].1, ms2[n2].2, ms2[n2].3));
    }
    lemma_standings_determined_by_totals(rs1.last().standings(), rs2.last().standings());
}

/// Replaying under two rankings with the same filter gives the same totals.
proof fn lemma_replay_same_filter(t: Map<Seq<char>, int>, r1: Ranking, r2: Ranking, ms: Seq<Event>)
    requires
        r1.actions() == r2.actions(),
        r1.range() == r2.range(),
    ensures
        replay(t, r1, ms) == replay(t, r2, ms),
    decreases ms.len(),
{
    if ms.len() > 0 {
        lemma_replay_same_filter(t, r1, r2, ms.drop_last());
    }
}

} // verus!
