use vstd::prelude::*;

use crate::action::Action;
use crate::metric::Metric;
use crate::order::{
    lemma_lex_lt_asymmetric, lemma_lex_lt_total,
    lemma_lex_lt_transitive, lex_less, lex_lt,
};

verus! {

/// A player's place in a ranking, seen as (player id, aggregated value).
pub type Standing = (Seq<char>, int);

/// `x` is listed before `y`: a higher value first, equal values by ascending id.
pub open spec fn ranks_before(x: Standing, y: Standing) -> bool {
    x.1 > y.1 || (x.1 == y.1 && lex_lt(x.0, y.0))
}

/// Every entry is listed before each later one.
pub open spec fn is_sorted(s: Seq<Standing>) -> bool {
    forall|i: int, j: int| 0 <= i < j < s.len() ==> ranks_before(#[trigger] s[i], #[trigger] s[j])
}

/// No player id occurs twice.
pub open spec fn has_unique_ids(s: Seq<Standing>) -> bool {
    forall|i: int, j: int| 0 <= i < j < s.len() ==> (#[trigger] s[i]).0 != (#[trigger] s[j]).0
}

/// `id` has an entry in `s`.
pub open spec fn is_listed(s: Seq<Standing>, id: Seq<char>) -> bool {
    exists|i: int| 0 <= i < s.len() && (#[trigger] s[i]).0 == id
}

/// The running total of each listed player.
pub open spec fn totals(s: Seq<Standing>) -> Map<Seq<char>, int> {
    Map::new(
        |id: Seq<char>| is_listed(s, id),
        |id: Seq<char>| s[choose|i: int| 0 <= i < s.len() && (#[trigger] s[i]).0 == id].1,
    )
}

/// The total of `id` in `t`, zero for a player not yet seen.
pub open spec fn total_of(t: Map<Seq<char>, int>, id: Seq<char>) -> int {
    if t.contains_key(id) {
        t[id]
    } else {
        0
    }
}

/// `t` with `value` added to the total of `id`.
pub open spec fn credit(t: Map<Seq<char>, int>, id: Seq<char>, value: int) -> Map<Seq<char>, int> {
    t.insert(id, total_of(t, id) + value)
}

pub proof fn lemma_ranks_before_asymmetric(x: Standing, y: Standing)
    ensures
        !(ranks_before(x, y) && ranks_before(y, x)),
{
    lemma_lex_lt_asymmetric(x.0, y.0);
}

pub proof fn lemma_ranks_before_transitive(x: Standing, y: Standing, z: Standing)
    requires
        ranks_before(x, y),
        ranks_before(y, z),
    ensures
        ranks_before(x, z),
{
    if x.1 == y.1 && y.1 == z.1 {
        lemma_lex_lt_transitive(x.0, y.0, z.0);
    }
}

pub proof fn lemma_ranks_before_total(x: Standing, y: Standing)
    requires
        x.0 != y.0,
    ensures
        ranks_before(x, y) || ranks_before(y, x),
{
    lemma_lex_lt_total(x.0, y.0);
}

/// The entry of a listed player holds its total.
pub proof fn lemma_totals_at(s: Seq<Standing>, i: int)
    requires
        has_unique_ids(s),
        0 <= i < s.len(),
    ensures
        totals(s).contains_key(s[i].0),
        totals(s)[s[i].0] == s[i].1,
{
    let id = s[i].0;
    assert(is_listed(s, id));
    let k = choose|k: int| 0 <= k < s.len() && (#[trigger] s[k]).0 == id;
    if k != i {
        if k < i {
            assert(s[k].0 != s[i].0);
        } else {
            assert(s[i].0 != s[k].0);
        }
    }
}

/// Totals after one player's entry is replaced: every other entry is kept,
/// and `id` now holds its old total plus `value`.
proof fn lemma_totals_credit(s: Seq<Standing>, u: Seq<Standing>, id: Seq<char>, value: int)
    requires
        has_unique_ids(s),
        has_unique_ids(u),
        forall|i: int| 0 <= i < s.len() && (#[trigger] s[i]).0 != id ==> u.contains(s[i]),
        forall|j: int| 0 <= j < u.len() && (#[trigger] u[j]).0 != id ==> s.contains(u[j]),
        u.contains((id, total_of(totals(s), id) + value)),
    ensures
        totals(u) =~= credit(totals(s), id, value),
{
    let jn = choose|j: int| 0 <= j < u.len() && u[j] == (id, total_of(totals(s), id) + value);
    lemma_totals_at(u, jn);
    assert forall|k: Seq<char>| is_listed(s, k) implies is_listed(u, k) by {
        let i = choose|i: int| 0 <= i < s.len() && (#[trigger] s[i]).0 == k;
        if k != id {
            let j = choose|j: int| 0 <= j < u.len() && u[j] == s[i];
            assert(u[j].0 == k);
        } else {
            assert(u[jn].0 == k);
        }
    }
    assert forall|k: Seq<char>| is_listed(u, k) && k != id implies is_listed(s, k) by {
        let j = choose|j: int| 0 <= j < u.len() && (#[trigger] u[j]).0 == k;
        let i = choose|i: int| 0 <= i < s.len() && s[i] == u[j];
        assert(s[i].0 == k);
    }
    assert forall|k: Seq<char>| #[trigger] totals(u).contains_key(k) && k != id
        implies totals(u)[k] == totals(s)[k] by {
        let j = choose|j: int| 0 <= j < u.len() && (#[trigger] u[j]).0 == k;
        let i = choose|i: int| 0 <= i < s.len() && s[i] == u[j];
        lemma_totals_at(s, i);
        lemma_totals_at(u, j);
    }
}

/// One player's place in a ranking: the player's id and aggregated value.
pub struct PlayerWithValue {
    player_id: String,
    value: isize,
}

impl View for PlayerWithValue {
    type V = Standing;

    closed spec fn view(&self) -> Standing {
        (self.player_id@, self.value as int)
    }
}

impl PlayerWithValue {
    pub fn player_id(&self) -> (r: &String)
        ensures
            r@ == self@.0,
    {
        &self.player_id
    }

    pub fn value(&self) -> (r: isize)
        ensures
            r as int == self@.1,
    {
        self.value
    }

    /// A copy of this entry.
    pub fn duplicate(&self) -> (r: PlayerWithValue)
        ensures
            r@ == self@,
    {
        PlayerWithValue { player_id: self.player_id.clone(), value: self.value }
    }

    /// Tells whether this entry is listed before `other`.
    pub fn ranks_before(&self, other: &PlayerWithValue) -> (r: bool)
        ensures
            r == ranks_before(self@, other@),
    {
        self.value > other.value || (self.value == other.value && lex_less(
            &self.player_id,
            &other.player_id,
        ))
    }
}

/// The standings that a sequence of entries shows.
pub open spec fn standings_of(list: Seq<PlayerWithValue>) -> Seq<Standing> {
    list.map_values(|e: PlayerWithValue| e@)
}

/// Finds the entry of `id` in `list`.
fn find_player(list: &Vec<PlayerWithValue>, id: &String) -> (r: Option<usize>)
    ensures
        match r {
            Some(i) => i < list@.len() && list@[i as int]@.0 == id@,
            None => !is_listed(standings_of(list@), id@),
        },
{
    let mut i: usize = 0;
    while i < list.len()
        invariant
            0 <= i <= list@.len(),
            forall|k: int| 0 <= k < i ==> (#[trigger] list@[k])@.0 != id@,
        decreases list@.len() - i,
    {
        if list[i].player_id == *id {
            return Some(i);
        }
        i = i + 1;
    }
    proof {
        let s = standings_of(list@);
        assert forall|k: int| 0 <= k < s.len() implies (#[trigger] s[k]).0 != id@ by {
            assert(s[k] == list@[k]@);
        }
    }
    None
}


/// A named leaderboard over the metrics of some actions within a date range.
pub struct Ranking {
    name: String,
    list: Vec<PlayerWithValue>,
    affected_actions: Vec<Action>,
    date_range: (u32, u32),
}

impl Ranking {
    /// The ranked entries, first place first.
    pub closed spec fn standings(&self) -> Seq<Standing> {
        standings_of(self.list@)
    }

    pub closed spec fn title(&self) -> Seq<char> {
        self.name@
    }

    pub closed spec fn actions(&self) -> Seq<Action> {
        self.affected_actions@
    }

    pub closed spec fn range(&self) -> (u32, u32) {
        self.date_range
    }

    /// A metric of `action` at `timestamp` counts for this ranking: its action
    /// is one of the ranking's and its timestamp lies in the inclusive range.
    pub open spec fn admits(&self, action: Action, timestamp: u32) -> bool {
        &&& self.actions().contains(action)
        &&& self.range().0 <= timestamp <= self.range().1
    }

    /// The list is sorted, holds each player at most once, and no total is
    /// negative, since no metric value is.
    pub open spec fn wf(&self) -> bool {
        &&& is_sorted(self.standings())
        &&& has_unique_ids(self.standings())
        &&& forall|i: int| 0 <= i < self.standings().len() ==> (#[trigger] self.standings()[i]).1 >= 0
    }

    /// `self` is what `before` becomes when a metric of player `id`, with
    /// `action`, `value` and `timestamp`, is applied to it.
    pub open spec fn follows(
        &self,
        before: &Ranking,
        id: Seq<char>,
        action: Action,
        value: u32,
        timestamp: u32,
    ) -> bool {
        &&& self.title() == before.title()
        &&& self.actions() == before.actions()
        &&& self.range() == before.range()
        &&& self.wf()
        &&& if before.admits(action, timestamp) {
            totals(self.standings()) == credit(totals(before.standings()), id, value as int)
        } else {
            self.standings() == before.standings()
        }
    }

    /// An empty ranking.
    pub fn new(name: String, affected_actions: Vec<Action>, date_range: (u32, u32)) -> (r: Ranking)
        ensures
            r.title() == name@,
            r.actions() == affected_actions@,
            r.range() == date_range,
            r.standings() == Seq::<Standing>::empty(),
            r.wf(),
    {
        let r = Ranking { name, list: Vec::new(), affected_actions, date_range };
        assert(r.standings() =~= Seq::<Standing>::empty());
        r
    }

    pub fn name(&self) -> (r: &String)
        ensures
            r@ == self.title(),
    {
        &self.name
    }

    pub fn affected_actions(&self) -> (r: &Vec<Action>)
        ensures
            r@ == self.actions(),
    {
        &self.affected_actions
    }

    pub fn date_range(&self) -> (r: (u32, u32))
        ensures
            r == self.range(),
    {
        self.date_range
    }

    /// The total of `player_id`, zero for a player not listed.
    pub fn score(&self, player_id: &String) -> (r: isize)
        requires
            self.wf(),
        ensures
            r as int == total_of(totals(self.standings()), player_id@),
    {
        match find_player(&self.list, player_id) {
            Some(p) => {
                proof {
                    assert(self.standings()[p as int] == self.list@[p as int]@);
                    lemma_totals_at(self.standings(), p as int);
                }
                self.list[p].value
            },
            None => 0,
        }
    }

    /// Tells whether a metric of `action` at `timestamp` counts for this ranking.
    pub fn accepts(&self, action: Action, timestamp: u32) -> (r: bool)
        ensures
            r == self.admits(action, timestamp),
    {
        action.is_in(&self.affected_actions) && self.date_range.0 <= timestamp && timestamp
            <= self.date_range.1
    }

    /// Applies one metric: when the ranking admits it, `value` is added to the
    /// total of `player_id` (a new entry if the player had none), and the entry
    /// moves to its place in the order.
    pub fn record(&mut self, player_id: &String, action: Action, value: u32, timestamp: u32)
        requires
            old(self).wf(),
            old(self).admits(action, timestamp) ==> total_of(totals(old(self).standings()), player_id@)
                + value <= isize::MAX,
        ensures
            final(self).follows(old(self), player_id@, action, value, timestamp),
    {
        if !self.accepts(action, timestamp) {
            return;
        }
        let ghost s0 = self.standings();
        let ghost id = player_id@;
        let total: isize;
        match find_player(&self.list, player_id) {
            Some(p) => {
                proof {
                    assert(s0[p as int] == self.list@[p as int]@);
                    lemma_totals_at(s0, p as int);
                }
                let previous = self.list.remove(p);
                total = previous.value + value as isize;
                proof {
                    assert(self.standings() =~= s0.remove(p as int));
                    lemma_remove_entry(s0, p as int);
                }
            },
            None => {
                total = value as isize;
                proof {
                    lemma_keep_all(s0, id);
                }
            },
        }
        let entry = PlayerWithValue { player_id: player_id.clone(), value: total };
        let ghost s1 = self.standings();
        proof {
            assert forall|k: int| 0 <= k < self.list@.len() implies (#[trigger] self.list@[k])@.0 != id by {
                assert(s1[k] == self.list@[k]@);
                assert(s0.contains(s1[k]));
            }
        }
        let j = place_for(&self.list, &entry);
        self.list.insert(j, entry);
        proof {
            assert(self.standings() =~= s1.insert(j as int, entry@));
            lemma_insert_entry(s0, s1, j as int, entry@, value as int);
        }
    }
}

/// The operations of a ranking fed by metrics whose values are of type `T`.
pub trait RankingMethods<T> {
    /// The invariant that every ranking keeps.
    spec fn well_formed(&self) -> bool;

    /// A metric of these fields can be applied without overflow.
    spec fn has_room(&self, id: Seq<char>, action: Action, value: T, timestamp: u32) -> bool;

    /// `self` is `before` with a metric of these fields applied.
    spec fn applied(&self, before: &Self, id: Seq<char>, action: Action, value: T, timestamp: u32) -> bool;

    /// The ranked entries, first place first.
    spec fn shown(&self) -> Seq<Standing>;

    /// Folds `metric` into the ranking, if the ranking counts its action and
    /// its timestamp; the list stays sorted.
    fn update<M: Metric<T>>(&mut self, metric: &M)
        requires
            old(self).well_formed(),
            old(self).has_room(
                metric.player_spec(),
                metric.action_spec(),
                metric.value_spec(),
                metric.timestamp_spec(),
            ),
        ensures
            final(self).applied(
                old(self),
                metric.player_spec(),
                metric.action_spec(),
                metric.value_spec(),
                metric.timestamp_spec(),
            ),
    ;

    /// The ranked entries, first place first.
    fn get_rank(&self) -> (r: Vec<PlayerWithValue>)
        ensures
            standings_of(r@) == self.shown(),
    ;
}

impl RankingMethods<u32> for Ranking {
    open spec fn well_formed(&self) -> bool {
        self.wf()
    }

    open spec fn has_room(&self, id: Seq<char>, action: Action, value: u32, timestamp: u32) -> bool {
        self.admits(action, timestamp) ==> total_of(totals(self.standings()), id) + value <= isize::MAX
    }

    open spec fn applied(&self, before: &Self, id: Seq<char>, action: Action, value: u32, timestamp: u32) -> bool {
        self.follows(before, id, action, value, timestamp)
    }

    open spec fn shown(&self) -> Seq<Standing> {
        self.standings()
    }

    fn update<M: Metric<u32>>(&mut self, metric: &M) {
        let (player_id, action, value, timestamp) = metric.get_data();
        self.record(&player_id, action, value, timestamp);
    }

    fn get_rank(&self) -> (r: Vec<PlayerWithValue>) {
        let mut r: Vec<PlayerWithValue> = Vec::new();
        let mut i: usize = 0;
        while i < self.list.len()
            invariant
                0 <= i <= self.list@.len(),
                standings_of(r@) =~= standings_of(self.list@).take(i as int),
            decreases self.list@.len() - i,
        {
            let ghost before = r@;
            r.push(self.list[i].duplicate());
            proof {
                assert(standings_of(before).len() == before.len());
                assert(before.len() == i);
                assert forall|k: int| 0 <= k < i implies standings_of(r@)[k] == standings_of(self.list@)[k] by {
                    assert(r@[k] == before[k]);
                    assert(standings_of(before)[k] == standings_of(self.list@).take(i as int)[k]);
                }
            }
            i = i + 1;
        }
        assert(standings_of(self.list@).take(i as int) =~= self.standings());
        r
    }
}

/// Where `entry` goes in a sorted list that does not hold its player.
fn place_for(list: &Vec<PlayerWithValue>, entry: &PlayerWithValue) -> (j: usize)
    requires
        is_sorted(standings_of(list@)),
        forall|k: int| 0 <= k < list@.len() ==> (#[trigger] list@[k])@.0 != entry@.0,
    ensures
        j <= list@.len(),
        forall|k: int| 0 <= k < j ==> ranks_before(#[trigger] standings_of(list@)[k], entry@),
        forall|k: int| j <= k < list@.len() ==> ranks_before(entry@, #[trigger] standings_of(list@)[k]),
{
    let ghost s = standings_of(list@);
    let mut j: usize = 0;
    while j < list.len() && !entry.ranks_before(&list[j])
        invariant
            0 <= j <= s.len(),
            s.len() == list@.len(),
            s == standings_of(list@),
            forall|k: int| 0 <= k < j ==> ranks_before(#[trigger] s[k], entry@),
            forall|k: int| 0 <= k < list@.len() ==> (#[trigger] list@[k])@.0 != entry@.0,
        decreases s.len() - j,
    {
        proof {
            assert(s[j as int] == list@[j as int]@);
            lemma_ranks_before_total(s[j as int], entry@);
        }
        j = j + 1;
    }
    proof {
        if j < s.len() {
            assert(s[j as int] == list@[j as int]@);
            assert forall|k: int| j <= k < s.len() implies ranks_before(entry@, #[trigger] s[k]) by {
                if k > j {
                    lemma_ranks_before_transitive(entry@, s[j as int], s[k]);
                }
            }
        }
    }
    j
}

/// What taking no entry out of `s0` keeps.
proof fn lemma_keep_all(s0: Seq<Standing>, id: Seq<char>)
    requires
        !is_listed(s0, id),
    ensures
        forall|i: int| 0 <= i < s0.len() && (#[trigger] s0[i]).0 != id ==> s0.contains(s0[i]),
        forall|j: int| 0 <= j < s0.len() ==> s0.contains(#[trigger] s0[j]) && s0[j].0 != id,
{
    assert forall|j: int| 0 <= j < s0.len() implies s0.contains(#[trigger] s0[j]) && s0[j].0 != id by {
        assert(s0[j].0 != id);
    }
}

/// What taking the entry at `p` out of a sorted list with unique ids keeps.
proof fn lemma_remove_entry(s0: Seq<Standing>, p: int)
    requires
        is_sorted(s0),
        has_unique_ids(s0),
        0 <= p < s0.len(),
    ensures
        is_sorted(s0.remove(p)),
        has_unique_ids(s0.remove(p)),
        !is_listed(s0.remove(p), s0[p].0),
        forall|i: int| 0 <= i < s0.len() && (#[trigger] s0[i]).0 != s0[p].0 ==> s0.remove(p).contains(s0[i]),
        forall|j: int| 0 <= j < s0.remove(p).len() ==> s0.contains(#[trigger] s0.remove(p)[j]) && s0.remove(p)[j].0 != s0[p].0,
{
    let s1 = s0.remove(p);
    let id = s0[p].0;
    assert forall|i: int, j: int| 0 <= i < j < s1.len() implies ranks_before(
        #[trigger] s1[i],
        #[trigger] s1[j],
    ) && s1[i].0 != s1[j].0 by {
        let a = if i < p { i } else { i + 1 };
        let b = if j < p { j } else { j + 1 };
        assert(s1[i] == s0[a] && s1[j] == s0[b]);
    }
    assert forall|j: int| 0 <= j < s1.len() implies s0.contains(#[trigger] s1[j]) && s1[j].0 != id by {
        if j < p {
            assert(s0[j] == s1[j]);
            assert(s0[j].0 != s0[p].0);
        } else {
            assert(s0[j + 1] == s1[j]);
            assert(s0[p].0 != s0[j + 1].0);
        }
    }
    assert forall|i: int| 0 <= i < s0.len() && (#[trigger] s0[i]).0 != id implies s1.contains(s0[i]) by {
        if i < p {
            assert(s1[i] == s0[i]);
        } else {
            assert(s1[i - 1] == s0[i]);
        }
    }
}

/// Inserting `e` at `j` into `s1`, which is `s0` without `e`'s player, in its
/// place in the order, gives a sorted list with `e`'s total credited.
proof fn lemma_insert_entry(s0: Seq<Standing>, s1: Seq<Standing>, j: int, e: Standing, v: int)
    requires
        has_unique_ids(s0),
        is_sorted(s1),
        has_unique_ids(s1),
        0 <= j <= s1.len(),
        forall|k: int| 0 <= k < j ==> ranks_before(#[trigger] s1[k], e),
        forall|k: int| j <= k < s1.len() ==> ranks_before(e, #[trigger] s1[k]),
        forall|i: int| 0 <= i < s0.len() && (#[trigger] s0[i]).0 != e.0 ==> s1.contains(s0[i]),
        forall|k: int| 0 <= k < s1.len() ==> s0.contains(#[trigger] s1[k]) && s1[k].0 != e.0,
        e.1 == total_of(totals(s0), e.0) + v,
    ensures
        is_sorted(s1.insert(j, e)),
        has_unique_ids(s1.insert(j, e)),
        totals(s1.insert(j, e)) =~= credit(totals(s0), e.0, v),
{
    let s2 = s1.insert(j, e);
    let id = e.0;
    assert forall|a: int, b: int| 0 <= a < b < s2.len() implies ranks_before(
        #[trigger] s2[a],
        #[trigger] s2[b],
    ) && s2[a].0 != s2[b].0 by {
        if a < j && b < j {
            assert(s2[a] == s1[a] && s2[b] == s1[b]);
        } else if a < j && b == j {
            assert(s2[a] == s1[a]);
        } else if a < j {
            assert(s2[a] == s1[a] && s2[b] == s1[b - 1]);
        } else if a == j {
            assert(s2[b] == s1[b - 1]);
        } else {
            assert(s2[a] == s1[a - 1] && s2[b] == s1[b - 1]);
        }
    }
    assert forall|i: int| 0 <= i < s0.len() && (#[trigger] s0[i]).0 != id implies s2.contains(s0[i]) by {
        let k = choose|k: int| 0 <= k < s1.len() && s1[k] == s0[i];
        if k < j {
            assert(s2[k] == s1[k]);
        } else {
            assert(s2[k + 1] == s1[k]);
        }
    }
    assert forall|k: int| 0 <= k < s2.len() && (#[trigger] s2[k]).0 != id implies s0.contains(s2[k]) by {
        if k < j {
            assert(s2[k] == s1[k]);
        } else if k > j {
            assert(s2[k] == s1[k - 1]);
        }
    }
    assert(s2[j] == e);
    lemma_totals_credit(s0, s2, id, v);
}

} // verus!
