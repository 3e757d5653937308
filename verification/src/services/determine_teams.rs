//! Distributing players into teams, and weighing how fair a match is by
//! the players' ratings (MMR) and roles.
use vstd::prelude::*;
use std::collections::HashMap;
use crate::models::submit::{Match, Team, TeamResponse, UserRole};
use crate::models::user::{same_user, User};
use crate::constants::{PLAYERS_PER_MATCH, TEAM_SIZE};
use crate::services::schedule::append_decimal;
use crate::sorting::{lemma_sort_seq, lemma_sort_seq_rearranged, sort_ascending, sort_seq};

verus! {

broadcast use vstd::std_specs::hash::group_hash_axioms, vstd::seq_lib::group_to_multiset_ensures;

// ---------------------------------------------------------------------------
// Players by id
// ---------------------------------------------------------------------------

/// The players keyed by id, a later player replacing an earlier one with the
/// same id.
pub open spec fn users_map(s: Seq<User>) -> Map<u128, User>
    decreases s.len(),
{
    if s.len() == 0 {
        Map::empty()
    } else {
        users_map(s.drop_last()).insert(s.last().user_id, s.last())
    }
}

/// The players keyed by id: exactly the ids of `users` are keys, and each
/// id gives the last player in `users` that has it.
pub proof fn lemma_users_map(s: Seq<User>)
    ensures
        forall|k: u128|
            users_map(s).contains_key(k) <==> exists|i: int| 0 <= i < s.len() && #[trigger] s[i].user_id == k,
        forall|i: int|
            #![trigger s[i]]
            0 <= i < s.len() && (forall|j: int| i < j < s.len() ==> #[trigger] s[j].user_id != s[i].user_id)
                ==> users_map(s)[s[i].user_id] == s[i],
    decreases s.len(),
{
    if s.len() > 0 {
        let init = s.drop_last();
        lemma_users_map(init);
        assert(users_map(s) == users_map(init).insert(s.last().user_id, s.last()));
        assert forall|k: u128|
            users_map(s).contains_key(k) implies exists|i: int| 0 <= i < s.len() && #[trigger] s[i].user_id == k by {
            if k != s.last().user_id {
                assert(users_map(init).contains_key(k));
                let i = choose|i: int| 0 <= i < init.len() && #[trigger] init[i].user_id == k;
                assert(s[i].user_id == k);
            } else {
                assert(s[s.len() - 1].user_id == k);
            }
        }
        assert forall|k: u128| (exists|i: int| 0 <= i < s.len() && #[trigger] s[i].user_id == k) implies users_map(
            s,
        ).contains_key(k) by {
            let i = choose|i: int| 0 <= i < s.len() && #[trigger] s[i].user_id == k;
            if i < s.len() - 1 {
                assert(init[i].user_id == k);
            }
        }
        assert forall|i: int|
            #![trigger s[i]]
            0 <= i < s.len() && (forall|j: int| i < j < s.len() ==> #[trigger] s[j].user_id != s[i].user_id)
                implies users_map(s)[s[i].user_id] == s[i] by {
            if i < s.len() - 1 {
                assert(s[s.len() - 1].user_id != s[i].user_id);
                assert(init[i] == s[i]);
                assert forall|j: int| i < j < init.len() implies #[trigger] init[j].user_id != init[i].user_id by {
                    assert(init[j] == s[j]);
                }
            }
        }
    }
}

/// The players keyed by their ids; where two players share an id, the later
/// one is kept.
pub fn users_to_data(users: Vec<User>) -> (data: HashMap<u128, User>)
    ensures
        data@ == users_map(users@),
{
    let ghost all = users@;
    let mut data: HashMap<u128, User> = HashMap::new();
    let mut rest = users;
    let mut done: usize = 0;
    let n = rest.len();
    while rest.len() > 0
        invariant
            n == all.len(),
            done + rest.len() == n,
            rest@ == all.skip(done as int),
            data@ == users_map(all.take(done as int)),
        decreases rest.len(),
    {
        let user = rest.remove(0);
        proof {
            assert(all.take(done + 1).drop_last() =~= all.take(done as int));
            assert(all.take(done + 1).last() == user);
        }
        data.insert(user.user_id, user);
        done = done + 1;
        assert(rest@ =~= all.skip(done as int));
    }
    assert(all.take(n as int) =~= all);
    data
}

impl UserRole {
    /// The data of the player with this entry's id.
    pub fn get(&self, user_data: &HashMap<u128, User>) -> (r: User)
        requires
            user_data@.contains_key(self.id),
        ensures
            same_user(r, user_data@[self.id]),
    {
        let found = user_data.get(&self.id);
        match found {
            Some(u) => u.duplicate(),
            None => {
                proof {
                    assert(false);
                }
                User { mmr: 0, roles: Vec::new(), user_id: 0, waiting_time: 0 }
            },
        }
    }
}

// ---------------------------------------------------------------------------
// Medians
// ---------------------------------------------------------------------------

/// Twice the median of an ascending, non-empty sequence: twice its middle
/// element for an odd length, the sum of its two middle elements for an even
/// one. Twice the median is a whole number, where the median may end in one
/// half.
pub open spec fn doubled_middle(s: Seq<u64>) -> int {
    let n = s.len() as int;
    if n % 2 == 1 {
        2 * s[n / 2]
    } else {
        s[n / 2 - 1] + s[n / 2]
    }
}

/// Twice the median of a non-empty sequence.
pub open spec fn doubled_median(s: Seq<u64>) -> int {
    doubled_middle(sort_seq(s))
}

/// What a median computation gives for `s`: `None` where `s` is empty (it
/// has no median), else twice its median.
pub open spec fn median_of(s: Seq<u64>) -> Option<u128> {
    if s.len() == 0 {
        None
    } else {
        Some(doubled_median(s) as u128)
    }
}

/// Twice the median of `list`, or `None` where `list` is empty.
pub fn get_median(list: Vec<u64>) -> (r: Option<u128>)
    ensures
        r == median_of(list@),
        r matches Some(d) ==> d == doubled_median(list@),
{
    if list.len() == 0 {
        return None;
    }
    let s = sort_ascending(&list);
    proof {
        lemma_sort_seq(list@);
    }
    let n = s.len();
    if n % 2 == 1 {
        let m = s[n / 2] as u128;
        Some(2 * m)
    } else {
        let a = s[n / 2 - 1] as u128;
        let b = s[n / 2] as u128;
        Some(a + b)
    }
}

/// The median does not depend on the order of the values: rearranging them
/// gives the same median.
pub proof fn lemma_median_rearranged(s: Seq<u64>, t: Seq<u64>)
    requires
        s.to_multiset() == t.to_multiset(),
    ensures
        median_of(s) == median_of(t),
{
    lemma_sort_seq_rearranged(s, t);
    lemma_sort_seq(s);
    lemma_sort_seq(t);
}

/// The median lies between the smallest and the largest value.
pub proof fn lemma_median_bounds(s: Seq<u64>)
    requires
        s.len() > 0,
    ensures
        exists|lo: int|
            0 <= lo < s.len() && (forall|i: int| 0 <= i < s.len() ==> s[lo] <= #[trigger] s[i]) && 2
                * s[lo] <= doubled_median(s),
        exists|hi: int|
            0 <= hi < s.len() && (forall|i: int| 0 <= i < s.len() ==> #[trigger] s[i] <= s[hi])
                && doubled_median(s) <= 2 * s[hi],
{
    lemma_sort_seq(s);
    let t = sort_seq(s);
    let n = t.len() as int;
    assert(t.contains(t[0]));
    assert(t.to_multiset().count(t[0]) > 0);
    assert(s.contains(t[0]));
    assert(t.contains(t[n - 1]));
    assert(t.to_multiset().count(t[n - 1]) > 0);
    assert(s.contains(t[n - 1]));
    let lo = choose|i: int| 0 <= i < s.len() && s[i] == t[0];
    let hi = choose|i: int| 0 <= i < s.len() && s[i] == t[n - 1];
    assert forall|i: int| 0 <= i < s.len() implies s[lo] <= #[trigger] s[i] && s[i] <= s[hi] by {
        assert(s.contains(s[i]));
        assert(t.to_multiset().count(s[i]) > 0);
        assert(t.contains(s[i]));
        let k = choose|k: int| 0 <= k < t.len() && t[k] == s[i];
        assert(t[0] <= t[k]);
        assert(t[k] <= t[n - 1]);
    }
    assert(t[0] <= t[n / 2]);
    assert(t[n / 2] <= t[n - 1]);
    if n % 2 == 0 {
        assert(t[0] <= t[n / 2 - 1]);
        assert(t[n / 2 - 1] <= t[n - 1]);
    }
    assert(2 * s[lo] <= doubled_median(s));
    assert(doubled_median(s) <= 2 * s[hi]);
}

// ---------------------------------------------------------------------------
// Skill medians of teams
// ---------------------------------------------------------------------------

/// Every player of `users` is known in `data`.
pub open spec fn all_known(users: Seq<UserRole>, data: Map<u128, User>) -> bool {
    forall|i: int| 0 <= i < users.len() ==> data.contains_key(#[trigger] users[i].id)
}

/// The ratings of the players of `users`, in their order, as `data` gives them.
pub open spec fn team_mmrs(users: Seq<UserRole>, data: Map<u128, User>) -> Seq<u64> {
    users.map_values(|u: UserRole| data[u.id].mmr)
}

/// The ratings of the players of a roster, in its order.
pub open spec fn roster_mmrs(users: Seq<(String, User)>) -> Seq<u64> {
    users.map_values(|e: (String, User)| e.1.mmr)
}

impl TeamResponse {
    /// Twice the median rating of this side's players, or `None` for a side
    /// without players.
    pub fn calc_skill_median(&self, user_data: &HashMap<u128, User>) -> (r: Option<u128>)
        requires
            all_known(self.users@, user_data@),
        ensures
            r == median_of(team_mmrs(self.users@, user_data@)),
    {
        let ghost want = team_mmrs(self.users@, user_data@);
        let n = self.users.len();
        let mut skill_levels: Vec<u64> = Vec::new();
        let mut i: usize = 0;
        while i < n
            invariant
                n == self.users.len(),
                i <= n,
                all_known(self.users@, user_data@),
                want == team_mmrs(self.users@, user_data@),
                skill_levels@ == want.take(i as int),
            decreases n - i,
        {
            let data = self.users[i].get(user_data);
            skill_levels.push(data.mmr);
            i = i + 1;
            assert(skill_levels@ =~= want.take(i as int));
        }
        assert(want.take(n as int) =~= want);
        get_median(skill_levels)
    }
}

impl Team {
    /// Twice the median rating of this side's players, or `None` for a side
    /// without players. The players' data are those of the roster itself,
    /// which takes each role once.
    pub fn calc_skill_median(&self, _user_data: &HashMap<u128, User>) -> (r: Option<u128>)
        requires
            self.well_formed(),
        ensures
            r == median_of(roster_mmrs(self.users@)),
    {
        let ghost want = roster_mmrs(self.users@);
        let n = self.users.len();
        let mut skill_levels: Vec<u64> = Vec::new();
        let mut i: usize = 0;
        while i < n
            invariant
                n == self.users.len(),
                i <= n,
                want == roster_mmrs(self.users@),
                skill_levels@ == want.take(i as int),
            decreases n - i,
        {
            skill_levels.push(self.users[i].1.mmr);
            i = i + 1;
            assert(skill_levels@ =~= want.take(i as int));
        }
        assert(want.take(n as int) =~= want);
        get_median(skill_levels)
    }
}

// ---------------------------------------------------------------------------
// Rating gaps by role
// ---------------------------------------------------------------------------

/// Each player of `users` as the pair of the role's text and the player's
/// rating.
pub open spec fn role_entries(users: Seq<UserRole>, data: Map<u128, User>) -> Seq<(Seq<char>, u64)> {
    users.map_values(|u: UserRole| (u.role@, data[u.id].mmr))
}

/// The value of the last entry of `s` with key `k`, as a map filled from `s`
/// in order holds it for `k`.
pub open spec fn last_value_for(s: Seq<(Seq<char>, u64)>, k: Seq<char>) -> Option<u64>
    decreases s.len(),
{
    if s.len() == 0 {
        None
    } else if s.last().0 == k {
        Some(s.last().1)
    } else {
        last_value_for(s.drop_last(), k)
    }
}

/// The distance between two ratings.
pub open spec fn gap(a: u64, b: u64) -> int {
    if a > b {
        a - b
    } else {
        b - a
    }
}

/// For each entry of `e2`, its role and the distance between its rating and
/// the rating that `e1` holds last for that role.
pub open spec fn role_gaps(e1: Seq<(Seq<char>, u64)>, e2: Seq<(Seq<char>, u64)>) -> Seq<(Seq<char>, int)> {
    e2.map_values(|e: (Seq<char>, u64)| (e.0, gap(last_value_for(e1, e.0).unwrap(), e.1)))
}

/// The sum over the keys of `s` outside `seen` of the value of each key's
/// last entry: the sum of the values of a map filled from `s` in order.
pub open spec fn sum_last_per_key(s: Seq<(Seq<char>, int)>, seen: Set<Seq<char>>) -> int
    decreases s.len(),
{
    if s.len() == 0 {
        0
    } else {
        let e = s.last();
        (if seen.contains(e.0) {
            0
        } else {
            e.1
        }) + sum_last_per_key(s.drop_last(), seen.insert(e.0))
    }
}

/// The rating gap by role between two sides: for each role of the second
/// side, the distance between the rating of its last player there and the
/// rating of the last player of the first side with that role, summed.
pub open spec fn role_delta(t1: Seq<UserRole>, t2: Seq<UserRole>, data: Map<u128, User>) -> int {
    sum_last_per_key(role_gaps(role_entries(t1, data), role_entries(t2, data)), Set::empty())
}

/// Every player of both sides is known in `data`, and every role of the
/// second side is taken on the first.
pub open spec fn roles_matched(t1: Seq<UserRole>, t2: Seq<UserRole>, data: Map<u128, User>) -> bool {
    &&& all_known(t1, data)
    &&& all_known(t2, data)
    &&& forall|i: int|
        0 <= i < t2.len() ==> (#[trigger] last_value_for(role_entries(t1, data), t2[i].role@)) is Some
}

/// The pairs of `keys` and `vals` at equal positions.
pub open spec fn pairs_of(keys: Seq<String>, vals: Seq<u64>) -> Seq<(Seq<char>, u64)> {
    Seq::new(keys.len(), |i: int| (keys[i]@, vals[i]))
}

/// The pairs of `keys` and `vals` at equal positions, with signed values.
pub open spec fn int_pairs_of(keys: Seq<String>, vals: Seq<u64>) -> Seq<(Seq<char>, int)> {
    Seq::new(keys.len(), |i: int| (keys[i]@, vals[i] as int))
}

proof fn lemma_sum_last_per_key_nonneg(s: Seq<(Seq<char>, int)>, seen: Set<Seq<char>>)
    requires
        forall|i: int| 0 <= i < s.len() ==> #[trigger] s[i].1 >= 0,
    ensures
        sum_last_per_key(s, seen) >= 0,
    decreases s.len(),
{
    if s.len() > 0 {
        assert(s.last().1 >= 0);
        lemma_sum_last_per_key_nonneg(s.drop_last(), seen.insert(s.last().0));
    }
}

/// The value that the last of `keys` equal to `key` stands beside.
fn lookup_last(keys: &Vec<String>, vals: &Vec<u64>, key: &String) -> (r: Option<u64>)
    requires
        keys.len() == vals.len(),
    ensures
        r == last_value_for(pairs_of(keys@, vals@), key@),
{
    let ghost p = pairs_of(keys@, vals@);
    let mut i = keys.len();
    assert(p.take(i as int) =~= p);
    while i > 0
        invariant
            i <= keys.len(),
            keys.len() == vals.len(),
            p == pairs_of(keys@, vals@),
            last_value_for(p, key@) == last_value_for(p.take(i as int), key@),
        decreases i,
    {
        proof {
            assert(p.take(i as int).drop_last() =~= p.take(i - 1));
        }
        i = i - 1;
        if keys[i] == *key {
            return Some(vals[i]);
        }
    }
    assert(p.take(0) =~= Seq::<(Seq<char>, u64)>::empty());
    None
}

/// Whether one of `keys` equals `key`.
fn has_key(keys: &Vec<String>, key: &String) -> (r: bool)
    ensures
        r == exists|k: int| 0 <= k < keys.len() && #[trigger] keys@[k]@ == key@,
{
    let mut i: usize = 0;
    while i < keys.len()
        invariant
            i <= keys.len(),
            forall|k: int| 0 <= k < i ==> #[trigger] keys@[k]@ != key@,
        decreases keys.len() - i,
    {
        if keys[i] == *key {
            return true;
        }
        i = i + 1;
    }
    false
}

/// The keys of the entries of `s` from position `from` on.
pub open spec fn keys_from(s: Seq<(Seq<char>, int)>, from: int) -> Set<Seq<char>> {
    Set::new(|r: Seq<char>| exists|k: int| from <= k < s.len() && #[trigger] s[k].0 == r)
}

/// Sums `vals`, counting for each key of `keys` only its last value.
fn sum_last_per_key_exec(keys: &Vec<String>, vals: &Vec<u64>) -> (r: i64)
    requires
        keys.len() == vals.len(),
        sum_last_per_key(int_pairs_of(keys@, vals@), Set::empty()) <= i64::MAX,
    ensures
        r == sum_last_per_key(int_pairs_of(keys@, vals@), Set::empty()),
{
    let ghost g = int_pairs_of(keys@, vals@);
    let ghost full = sum_last_per_key(g, Set::empty());
    let n = keys.len();
    let mut seen: Vec<String> = Vec::new();
    let mut total: i64 = 0;
    let mut i = n;
    proof {
        assert(g.take(n as int) =~= g);
        assert(keys_from(g, n as int) =~= Set::<Seq<char>>::empty());
    }
    while i > 0
        invariant
            n == keys.len(),
            keys.len() == vals.len(),
            i <= n,
            g == int_pairs_of(keys@, vals@),
            full == sum_last_per_key(g, Set::empty()),
            full <= i64::MAX,
            0 <= total,
            total + sum_last_per_key(g.take(i as int), keys_from(g, i as int)) == full,
            forall|r: Seq<char>|
                keys_from(g, i as int).contains(r) <==> exists|k: int| 0 <= k < seen.len() && #[trigger] seen@[k]@ == r,
        decreases i,
    {
        let ghost before = g.take(i as int);
        let ghost seen_set = keys_from(g, i as int);
        proof {
            assert(before.drop_last() =~= g.take(i - 1));
            assert(before.last() == g[i - 1]);
            assert(keys_from(g, i - 1) =~= seen_set.insert(g[i - 1].0));
            assert forall|j: int| 0 <= j < g.take(i - 1).len() implies #[trigger] g.take(i - 1)[j].1 >= 0 by {}
            lemma_sum_last_per_key_nonneg(g.take(i - 1), keys_from(g, i - 1));
        }
        i = i - 1;
        let counted = has_key(&seen, &keys[i]);
        if !counted {
            assert(!seen_set.contains(g[i as int].0));
            let v = vals[i];
            assert(total + v <= full);
            total = total + v as i64;
        } else {
            assert(seen_set.contains(g[i as int].0));
        }
        let ghost old_seen = seen@;
        seen.push(keys[i].clone());
        proof {
            assert forall|r: Seq<char>|
                keys_from(g, i as int).contains(r) implies exists|k: int|
                    0 <= k < seen.len() && #[trigger] seen@[k]@ == r by {
                if r == g[i as int].0 {
                    assert(seen@[seen.len() - 1]@ == r);
                } else {
                    assert(seen_set.contains(r));
                    let k = choose|k: int| 0 <= k < old_seen.len() && #[trigger] old_seen[k]@ == r;
                    assert(seen@[k] == old_seen[k]);
                }
            }
            assert forall|r: Seq<char>|
                (exists|k: int| 0 <= k < seen.len() && #[trigger] seen@[k]@ == r) implies keys_from(
                g,
                i as int,
            ).contains(r) by {
                let k = choose|k: int| 0 <= k < seen.len() && #[trigger] seen@[k]@ == r;
                if k < seen.len() - 1 {
                    assert(old_seen[k] == seen@[k]);
                    assert(seen_set.contains(r));
                }
            }
        }
    }
    assert(g.take(0) =~= Seq::<(Seq<char>, int)>::empty());
    total
}

/// The rating gap by role between two sides (see [`role_delta`]).
pub fn calc_skill_delta_by_role(
    team1: &TeamResponse,
    team2: &TeamResponse,
    user_data: &HashMap<u128, User>,
) -> (r: i64)
    requires
        roles_matched(team1.users@, team2.users@, user_data@),
        role_delta(team1.users@, team2.users@, user_data@) <= i64::MAX,
    ensures
        r == role_delta(team1.users@, team2.users@, user_data@),
        r >= 0,
{
    proof {
        lemma_role_delta_nonneg(team1.users@, team2.users@, user_data@);
    }
    let ghost e1 = role_entries(team1.users@, user_data@);
    let ghost e2 = role_entries(team2.users@, user_data@);
    let ghost gaps = role_gaps(e1, e2);
    let n1 = team1.users.len();
    let mut roles1: Vec<String> = Vec::new();
    let mut mmrs1: Vec<u64> = Vec::new();
    let mut i: usize = 0;
    while i < n1
        invariant
            n1 == team1.users.len(),
            i <= n1,
            all_known(team1.users@, user_data@),
            e1 == role_entries(team1.users@, user_data@),
            roles1.len() == i,
            mmrs1.len() == i,
            pairs_of(roles1@, mmrs1@) == e1.take(i as int),
        decreases n1 - i,
    {
        let user = &team1.users[i];
        let data = user.get(user_data);
        roles1.push(user.role.clone());
        mmrs1.push(data.mmr);
        i = i + 1;
        assert(pairs_of(roles1@, mmrs1@) =~= e1.take(i as int));
    }
    assert(e1.take(n1 as int) =~= e1);
    let n2 = team2.users.len();
    let mut roles2: Vec<String> = Vec::new();
    let mut gaps2: Vec<u64> = Vec::new();
    let mut j: usize = 0;
    while j < n2
        invariant
            n2 == team2.users.len(),
            j <= n2,
            roles_matched(team1.users@, team2.users@, user_data@),
            e1 == role_entries(team1.users@, user_data@),
            e2 == role_entries(team2.users@, user_data@),
            gaps == role_gaps(e1, e2),
            roles1.len() == mmrs1.len(),
            pairs_of(roles1@, mmrs1@) == e1,
            roles2.len() == j,
            gaps2.len() == j,
            int_pairs_of(roles2@, gaps2@) == gaps.take(j as int),
        decreases n2 - j,
    {
        let user = &team2.users[j];
        let data = user.get(user_data);
        let found = lookup_last(&roles1, &mmrs1, &user.role);
        assert(last_value_for(e1, team2.users@[j as int].role@) is Some);
        let entry = match found {
            Some(v) => v,
            None => {
                proof {
                    assert(false);
                }
                0
            },
        };
        let g: u64 = if entry > data.mmr {
            entry - data.mmr
        } else {
            data.mmr - entry
        };
        roles2.push(user.role.clone());
        gaps2.push(g);
        j = j + 1;
        assert(int_pairs_of(roles2@, gaps2@) =~= gaps.take(j as int));
    }
    assert(gaps.take(n2 as int) =~= gaps);
    sum_last_per_key_exec(&roles2, &gaps2)
}

// ---------------------------------------------------------------------------
// Fairness of a match
// ---------------------------------------------------------------------------

/// The whole-number part of the distance between two medians given twice
/// over, capped at `i64::MAX` as a conversion to `i64` caps it; 0 where a
/// side has no players and so no median.
pub open spec fn median_gap(d1: Option<u128>, d2: Option<u128>) -> int {
    match (d1, d2) {
        (Some(a), Some(b)) => {
            let half = (if a > b {
                a - b
            } else {
                b - a
            }) / 2;
            if half > i64::MAX {
                i64::MAX as int
            } else {
                half
            }
        },
        _ => 0,
    }
}

/// How unequal two sides are: their rating gap by role plus the distance
/// between their median ratings.
pub open spec fn team_delta(t1: Seq<UserRole>, t2: Seq<UserRole>, data: Map<u128, User>) -> int {
    role_delta(t1, t2, data) + median_gap(
        median_of(team_mmrs(t1, data)),
        median_of(team_mmrs(t2, data)),
    )
}

/// The rating gap by role is never negative.
pub proof fn lemma_role_delta_nonneg(t1: Seq<UserRole>, t2: Seq<UserRole>, data: Map<u128, User>)
    ensures
        role_delta(t1, t2, data) >= 0,
{
    let g = role_gaps(role_entries(t1, data), role_entries(t2, data));
    assert forall|i: int| 0 <= i < g.len() implies #[trigger] g[i].1 >= 0 by {}
    lemma_sum_last_per_key_nonneg(g, Set::empty());
}

fn median_gap_exec(d1: Option<u128>, d2: Option<u128>) -> (r: i64)
    ensures
        r == median_gap(d1, d2),
{
    match (d1, d2) {
        (Some(a), Some(b)) => {
            let half = (if a > b {
                a - b
            } else {
                b - a
            }) / 2;
            if half > i64::MAX as u128 {
                i64::MAX
            } else {
                half as i64
            }
        },
        _ => 0,
    }
}

/// How unequal two sides are (see [`team_delta`]).
pub fn calc_team_delta(
    team1: &TeamResponse,
    team2: &TeamResponse,
    user_data: &HashMap<u128, User>,
) -> (r: i64)
    requires
        roles_matched(team1.users@, team2.users@, user_data@),
        team_delta(team1.users@, team2.users@, user_data@) <= i64::MAX,
    ensures
        r == team_delta(team1.users@, team2.users@, user_data@),
        r >= 0,
{
    proof {
        lemma_role_delta_nonneg(team1.users@, team2.users@, user_data@);
    }
    let by_role = calc_skill_delta_by_role(team1, team2, user_data);
    let m1 = team1.calc_skill_median(user_data);
    let m2 = team2.calc_skill_median(user_data);
    let by_median = median_gap_exec(m1, m2);
    by_role + by_median
}

impl Match {
    /// How unequal the two sides of this match are (see [`team_delta`]).
    pub fn calc_fairness(&self, data: &HashMap<u128, User>) -> (r: i64)
        requires
            self.teams.len() == 2,
            roles_matched(self.teams@[0].users@, self.teams@[1].users@, data@),
            team_delta(self.teams@[0].users@, self.teams@[1].users@, data@) <= i64::MAX,
        ensures
            r == team_delta(self.teams@[0].users@, self.teams@[1].users@, data@),
            r >= 0,
    {
        calc_team_delta(&self.teams[0], &self.teams[1], data)
    }
}

proof fn lemma_last_value_for_last(s: Seq<(Seq<char>, u64)>, i: int)
    requires
        0 <= i < s.len(),
        forall|j: int| i < j < s.len() ==> #[trigger] s[j].0 != s[i].0,
    ensures
        last_value_for(s, s[i].0) == Some(s[i].1),
    decreases s.len(),
{
    if i < s.len() - 1 {
        let init = s.drop_last();
        assert(s[s.len() - 1].0 != s[i].0);
        assert forall|j: int| i < j < init.len() implies #[trigger] init[j].0 != init[i].0 by {
            assert(init[j] == s[j]);
        }
        lemma_last_value_for_last(init, i);
    }
}

proof fn lemma_last_value_for_some(s: Seq<(Seq<char>, u64)>, i: int)
    requires
        0 <= i < s.len(),
    ensures
        last_value_for(s, s[i].0) is Some,
    decreases s.len(),
{
    if s.last().0 != s[i].0 {
        lemma_last_value_for_some(s.drop_last(), i);
    }
}

proof fn lemma_sum_last_per_key_zero(s: Seq<(Seq<char>, int)>, seen: Set<Seq<char>>)
    requires
        forall|i: int|
            0 <= i < s.len() && !seen.contains(s[i].0) && (forall|j: int|
                i < j < s.len() ==> #[trigger] s[j].0 != s[i].0) ==> #[trigger] s[i].1 == 0,
    ensures
        sum_last_per_key(s, seen) == 0,
    decreases s.len(),
{
    if s.len() > 0 {
        let n = s.len() as int;
        let init = s.drop_last();
        let seen2 = seen.insert(s.last().0);
        if !seen.contains(s[n - 1].0) {
            assert(s[n - 1].1 == 0);
        }
        assert forall|i: int|
            0 <= i < init.len() && !seen2.contains(init[i].0) && (forall|j: int|
                i < j < init.len() ==> #[trigger] init[j].0 != init[i].0) implies #[trigger] init[i].1
            == 0 by {
            assert(init[i] == s[i]);
            assert forall|j: int| i < j < s.len() implies #[trigger] s[j].0 != s[i].0 by {
                if j < n - 1 {
                    assert(init[j] == s[j]);
                }
            }
        }
        lemma_sum_last_per_key_zero(init, seen2);
    }
}

/// A side weighed against itself is perfectly fair: wherever all its players
/// are known, the roles match and the delta is 0.
pub proof fn lemma_team_delta_self(t: Seq<UserRole>, data: Map<u128, User>)
    requires
        all_known(t, data),
    ensures
        roles_matched(t, t, data),
        team_delta(t, t, data) == 0,
{
    let e = role_entries(t, data);
    assert forall|i: int| 0 <= i < t.len() implies (#[trigger] last_value_for(e, t[i].role@)) is Some by {
        assert(e[i].0 == t[i].role@);
        lemma_last_value_for_some(e, i);
    }
    let g = role_gaps(e, e);
    assert forall|i: int|
        0 <= i < g.len() && !Set::<Seq<char>>::empty().contains(g[i].0) && (forall|j: int|
            i < j < g.len() ==> #[trigger] g[j].0 != g[i].0) implies #[trigger] g[i].1 == 0 by {
        assert forall|j: int| i < j < e.len() implies #[trigger] e[j].0 != e[i].0 by {
            assert(g[j].0 == e[j].0);
        }
        lemma_last_value_for_last(e, i);
    }
    lemma_sum_last_per_key_zero(g, Set::empty());
}

// ---------------------------------------------------------------------------
// Symmetry of the fairness of two sides
// ---------------------------------------------------------------------------

/// No role is taken twice on the side `t`.
pub open spec fn distinct_roles(t: Seq<UserRole>) -> bool {
    forall|i: int, j: int| 0 <= i < j < t.len() ==> #[trigger] t[i].role@ != #[trigger] t[j].role@
}

/// Some player of the side `t` takes the role `r`.
pub open spec fn role_taken(t: Seq<UserRole>, r: Seq<char>) -> bool {
    exists|j: int| 0 <= j < t.len() && #[trigger] t[j].role@ == r
}

/// Every role of `t1` is taken on `t2`, and every role of `t2` on `t1`.
pub open spec fn same_roles(t1: Seq<UserRole>, t2: Seq<UserRole>) -> bool {
    &&& forall|i: int| 0 <= i < t1.len() ==> #[trigger] role_taken(t2, t1[i].role@)
    &&& forall|j: int| 0 <= j < t2.len() ==> #[trigger] role_taken(t1, t2[j].role@)
}

/// The sum of the values of `s`.
pub open spec fn value_sum(s: Seq<(Seq<char>, int)>) -> int
    decreases s.len(),
{
    if s.len() == 0 {
        0
    } else {
        value_sum(s.drop_last()) + s.last().1
    }
}

/// The sum of `f` over `keys`, in order.
pub open spec fn sum_over(keys: Seq<Seq<char>>, f: spec_fn(Seq<char>) -> int) -> int
    decreases keys.len(),
{
    if keys.len() == 0 {
        0
    } else {
        sum_over(keys.drop_last(), f) + f(keys.last())
    }
}

spec fn distinct_keys(keys: Seq<Seq<char>>) -> bool {
    forall|i: int, j: int| 0 <= i < j < keys.len() ==> keys[i] != keys[j]
}

/// Where no key of `s` repeats and none is in `seen`, each entry counts:
/// the sum is the plain sum of the values.
pub proof fn lemma_sum_last_per_key_distinct(s: Seq<(Seq<char>, int)>, seen: Set<Seq<char>>)
    requires
        forall|i: int, j: int| 0 <= i < j < s.len() ==> #[trigger] s[i].0 != #[trigger] s[j].0,
        forall|i: int| 0 <= i < s.len() ==> !seen.contains(#[trigger] s[i].0),
    ensures
        sum_last_per_key(s, seen) == value_sum(s),
    decreases s.len(),
{
    if s.len() > 0 {
        let n = s.len() as int;
        let init = s.drop_last();
        assert(!seen.contains(s[n - 1].0));
        assert forall|i: int| 0 <= i < init.len() implies !seen.insert(s.last().0).contains(#[trigger] init[i].0) by {
            assert(init[i] == s[i]);
            assert(s[i].0 != s[n - 1].0);
        }
        assert forall|i: int, j: int| 0 <= i < j < init.len() implies #[trigger] init[i].0 != #[trigger] init[j].0 by {
            assert(init[i] == s[i]);
            assert(init[j] == s[j]);
        }
        lemma_sum_last_per_key_distinct(init, seen.insert(s.last().0));
    }
}

proof fn lemma_value_sum_as_sum_over(s: Seq<(Seq<char>, int)>, f: spec_fn(Seq<char>) -> int)
    requires
        forall|i: int| 0 <= i < s.len() ==> #[trigger] s[i].1 == f(s[i].0),
    ensures
        value_sum(s) == sum_over(s.map_values(|e: (Seq<char>, int)| e.0), f),
    decreases s.len(),
{
    let keys = s.map_values(|e: (Seq<char>, int)| e.0);
    if s.len() > 0 {
        let init = s.drop_last();
        assert forall|i: int| 0 <= i < init.len() implies #[trigger] init[i].1 == f(init[i].0) by {
            assert(init[i] == s[i]);
        }
        lemma_value_sum_as_sum_over(init, f);
        assert(keys.drop_last() =~= init.map_values(|e: (Seq<char>, int)| e.0));
        assert(keys.last() == s.last().0);
    }
}

proof fn lemma_sum_over_remove(keys: Seq<Seq<char>>, k: int, f: spec_fn(Seq<char>) -> int)
    requires
        0 <= k < keys.len(),
    ensures
        sum_over(keys, f) == sum_over(keys.remove(k), f) + f(keys[k]),
    decreases keys.len(),
{
    let n = keys.len() as int;
    if k == n - 1 {
        assert(keys.remove(k) =~= keys.drop_last());
    } else {
        lemma_sum_over_remove(keys.drop_last(), k, f);
        let r = keys.remove(k);
        assert(r.drop_last() =~= keys.drop_last().remove(k));
        assert(r.last() == keys.last());
    }
}

proof fn lemma_sum_over_same_keys(a: Seq<Seq<char>>, b: Seq<Seq<char>>, f: spec_fn(Seq<char>) -> int)
    requires
        distinct_keys(a),
        distinct_keys(b),
        forall|i: int| 0 <= i < a.len() ==> #[trigger] b.contains(a[i]),
        forall|j: int| 0 <= j < b.len() ==> #[trigger] a.contains(b[j]),
    ensures
        sum_over(a, f) == sum_over(b, f),
    decreases a.len(),
{
    if a.len() == 0 {
        if b.len() > 0 {
            assert(a.contains(b[0]));
        }
    } else {
        let n = a.len() as int;
        let x = a[n - 1];
        assert(b.contains(a[n - 1]));
        let k = choose|k: int| 0 <= k < b.len() && b[k] == x;
        lemma_sum_over_remove(b, k, f);
        let a2 = a.drop_last();
        let b2 = b.remove(k);
        assert forall|i: int| 0 <= i < a2.len() implies #[trigger] b2.contains(a2[i]) by {
            assert(a2[i] == a[i]);
            assert(b.contains(a[i]));
            let j = choose|j: int| 0 <= j < b.len() && b[j] == a[i];
            assert(a[i] != x);
            assert(j != k);
            if j < k {
                assert(b2[j] == b[j]);
            } else {
                assert(b2[j - 1] == b[j]);
            }
        }
        assert forall|j: int| 0 <= j < b2.len() implies #[trigger] a2.contains(b2[j]) by {
            let jj = if j < k { j } else { j + 1 };
            assert(b2[j] == b[jj]);
            assert(jj != k);
            assert(b[jj] != x);
            assert(a.contains(b[jj]));
            let i = choose|i: int| 0 <= i < a.len() && a[i] == b[jj];
            assert(i != n - 1);
            assert(a2[i] == a[i]);
        }
        assert forall|i: int, j: int| 0 <= i < j < b2.len() implies b2[i] != b2[j] by {
            let ii = if i < k { i } else { i + 1 };
            let jj = if j < k { j } else { j + 1 };
            assert(b2[i] == b[ii]);
            assert(b2[j] == b[jj]);
        }
        lemma_sum_over_same_keys(a2, b2, f);
    }
}

/// The rating of the player with role `k` on the side `e`, or 0 where no
/// player takes it.
pub open spec fn value_at(e: Seq<(Seq<char>, u64)>, k: Seq<char>) -> int {
    match last_value_for(e, k) {
        Some(v) => v as int,
        None => 0,
    }
}

/// Where the second side takes each role once and all its roles are taken
/// on the first, the rating gap by role is the plain sum, over the second
/// side's roles, of the distance between the two sides' ratings in the role.
pub proof fn lemma_role_delta_as_sum(t1: Seq<UserRole>, t2: Seq<UserRole>, data: Map<u128, User>)
    requires
        distinct_roles(t2),
        roles_matched(t1, t2, data),
    ensures
        role_delta(t1, t2, data) == sum_over(
            t2.map_values(|u: UserRole| u.role@),
            |k: Seq<char>|
                {
                    let a = value_at(role_entries(t1, data), k);
                    let b = value_at(role_entries(t2, data), k);
                    if a > b {
                        a - b
                    } else {
                        b - a
                    }
                },
        ),
{
    let e1 = role_entries(t1, data);
    let e2 = role_entries(t2, data);
    let g = role_gaps(e1, e2);
    let f = |k: Seq<char>|
        {
            let a = value_at(e1, k);
            let b = value_at(e2, k);
            if a > b {
                a - b
            } else {
                b - a
            }
        };
    assert forall|i: int, j: int| 0 <= i < j < g.len() implies #[trigger] g[i].0 != #[trigger] g[j].0 by {
        assert(t2[i].role@ != t2[j].role@);
    }
    lemma_sum_last_per_key_distinct(g, Set::empty());
    assert forall|i: int| 0 <= i < g.len() implies #[trigger] g[i].1 == f(g[i].0) by {
        assert forall|j: int| i < j < e2.len() implies #[trigger] e2[j].0 != e2[i].0 by {
            assert(t2[i].role@ != t2[j].role@);
        }
        lemma_last_value_for_last(e2, i);
        assert(last_value_for(e1, t2[i].role@) is Some);
    }
    lemma_value_sum_as_sum_over(g, f);
    assert(g.map_values(|e: (Seq<char>, int)| e.0) =~= t2.map_values(|u: UserRole| u.role@));
}

/// Where both sides fill the same roles, each role once, weighing the first
/// side against the second gives what weighing the second against the first
/// gives.
pub proof fn lemma_team_delta_symmetric(t1: Seq<UserRole>, t2: Seq<UserRole>, data: Map<u128, User>)
    requires
        all_known(t1, data),
        all_known(t2, data),
        distinct_roles(t1),
        distinct_roles(t2),
        same_roles(t1, t2),
    ensures
        roles_matched(t1, t2, data),
        roles_matched(t2, t1, data),
        team_delta(t1, t2, data) == team_delta(t2, t1, data),
{
    lemma_role_delta_symmetric(t1, t2, data);
}

/// Where both sides fill the same roles, each role once, the rating gap by
/// role of the first side against the second is that of the second against
/// the first.
pub proof fn lemma_role_delta_symmetric(t1: Seq<UserRole>, t2: Seq<UserRole>, data: Map<u128, User>)
    requires
        all_known(t1, data),
        all_known(t2, data),
        distinct_roles(t1),
        distinct_roles(t2),
        same_roles(t1, t2),
    ensures
        roles_matched(t1, t2, data),
        roles_matched(t2, t1, data),
        role_delta(t1, t2, data) == role_delta(t2, t1, data),
{
    let e1 = role_entries(t1, data);
    let e2 = role_entries(t2, data);
    assert forall|j: int| 0 <= j < t2.len() implies (#[trigger] last_value_for(e1, t2[j].role@)) is Some by {
        assert(role_taken(t1, t2[j].role@));
        let i = choose|i: int| 0 <= i < t1.len() && #[trigger] t1[i].role@ == t2[j].role@;
        assert(e1[i].0 == t2[j].role@);
        lemma_last_value_for_some(e1, i);
    }
    assert forall|i: int| 0 <= i < t1.len() implies (#[trigger] last_value_for(e2, t1[i].role@)) is Some by {
        assert(role_taken(t2, t1[i].role@));
        let j = choose|j: int| 0 <= j < t2.len() && #[trigger] t2[j].role@ == t1[i].role@;
        assert(e2[j].0 == t1[i].role@);
        lemma_last_value_for_some(e2, j);
    }
    let f12 = |k: Seq<char>|
        {
            let a = value_at(e1, k);
            let b = value_at(e2, k);
            if a > b {
                a - b
            } else {
                b - a
            }
        };
    let f21 = |k: Seq<char>|
        {
            let a = value_at(e2, k);
            let b = value_at(e1, k);
            if a > b {
                a - b
            } else {
                b - a
            }
        };
    assert(f12 =~= f21);
    lemma_role_delta_as_sum(t1, t2, data);
    lemma_role_delta_as_sum(t2, t1, data);
    let k1 = t1.map_values(|u: UserRole| u.role@);
    let k2 = t2.map_values(|u: UserRole| u.role@);
    assert forall|i: int| 0 <= i < k2.len() implies #[trigger] k1.contains(k2[i]) by {
        assert(role_taken(t1, t2[i].role@));
        let j = choose|j: int| 0 <= j < t1.len() && #[trigger] t1[j].role@ == t2[i].role@;
        assert(k1[j] == k2[i]);
    }
    assert forall|i: int| 0 <= i < k1.len() implies #[trigger] k2.contains(k1[i]) by {
        assert(role_taken(t2, t1[i].role@));
        let j = choose|j: int| 0 <= j < t2.len() && #[trigger] t2[j].role@ == t1[i].role@;
        assert(k2[j] == k1[i]);
    }
    assert forall|i: int, j: int| 0 <= i < j < k1.len() implies k1[i] != k1[j] by {
        assert(t1[i].role@ != t1[j].role@);
    }
    assert forall|i: int, j: int| 0 <= i < j < k2.len() implies k2[i] != k2[j] by {
        assert(t2[i].role@ != t2[j].role@);
    }
    lemma_sum_over_same_keys(k2, k1, f12);
}

// ---------------------------------------------------------------------------
// Forming matches
// ---------------------------------------------------------------------------

/// Some player of `s` has the id `id`.
pub open spec fn has_id(s: Seq<User>, id: u128) -> bool {
    exists|j: int| 0 <= j < s.len() && #[trigger] s[j].user_id == id
}

/// The player at `i` is the first in `s` with its id.
pub open spec fn first_with_id(s: Seq<User>, i: int) -> bool {
    !has_id(s.take(i), s[i].user_id)
}

/// How many different ids the players of `s` have.
pub open spec fn distinct_id_count(s: Seq<User>) -> nat
    decreases s.len(),
{
    if s.len() == 0 {
        0
    } else {
        distinct_id_count(s.drop_last()) + if has_id(s.drop_last(), s.last().user_id) {
            0nat
        } else {
            1nat
        }
    }
}

/// How many entries of `s` are `false`.
pub open spec fn count_false(s: Seq<bool>) -> nat
    decreases s.len(),
{
    if s.len() == 0 {
        0
    } else {
        count_false(s.drop_last()) + if s.last() {
            0nat
        } else {
            1nat
        }
    }
}

/// One of the players of `users` at the positions `picked` has the id `id`.
spec fn picked_id(users: Seq<User>, picked: Seq<usize>, id: u128) -> bool {
    exists|p: int| 0 <= p < picked.len() && #[trigger] users[picked[p] as int].user_id == id
}

/// The ids of the players of a side, in order.
pub open spec fn role_ids(t: Seq<UserRole>) -> Seq<u128> {
    t.map_values(|u: UserRole| u.id)
}

/// The ids of the players of a match: the first side's, then the second's.
pub open spec fn match_ids(m: Match) -> Seq<u128> {
    role_ids(m.teams@[0].users@) + role_ids(m.teams@[1].users@)
}

/// The ids of the players of all of `ms`, match after match.
pub open spec fn all_ids(ms: Seq<Match>) -> Seq<u128>
    decreases ms.len(),
{
    if ms.len() == 0 {
        Seq::empty()
    } else {
        all_ids(ms.drop_last()) + match_ids(ms.last())
    }
}

/// A match of two sides of [`TEAM_SIZE`] players each, in which no side
/// takes a role twice and both sides take the same roles.
pub open spec fn match_shape(m: Match) -> bool {
    &&& m.teams@.len() == 2
    &&& m.teams@[0].users@.len() == TEAM_SIZE
    &&& m.teams@[1].users@.len() == TEAM_SIZE
    &&& distinct_roles(m.teams@[0].users@)
    &&& distinct_roles(m.teams@[1].users@)
    &&& same_roles(m.teams@[0].users@, m.teams@[1].users@)
}

/// The position in the rating ranking of a match's players of the player
/// at position `q` of [`match_ids`]: the first side takes the ranks 0, 2, 4,
/// 6, 8, the second side the ranks 1, 3, 5, 7, 9, so that the players who
/// meet in a role are next to each other in rating.
pub open spec fn rank_of_slot(q: int) -> int {
    if q < 5 {
        2 * q
    } else {
        2 * (q - 5) + 1
    }
}

proof fn lemma_count_false_push(s: Seq<bool>, b: bool)
    ensures
        count_false(s.push(b)) == count_false(s) + if b {
            0nat
        } else {
            1nat
        },
{
    assert(s.push(b).drop_last() =~= s);
}

proof fn lemma_count_false_update(s: Seq<bool>, j: int)
    requires
        0 <= j < s.len(),
        !s[j],
    ensures
        count_false(s.update(j, true)) + 1 == count_false(s),
    decreases s.len(),
{
    let n = s.len() as int;
    if j == n - 1 {
        assert(s.update(j, true).drop_last() =~= s.drop_last());
    } else {
        lemma_count_false_update(s.drop_last(), j);
        assert(s.update(j, true).drop_last() =~= s.drop_last().update(j, true));
    }
}

proof fn lemma_count_false_exists(s: Seq<bool>)
    requires
        count_false(s) > 0,
    ensures
        exists|j: int| 0 <= j < s.len() && !s[j],
    decreases s.len(),
{
    if !s.last() {
        assert(!s[s.len() - 1]);
    } else {
        lemma_count_false_exists(s.drop_last());
        let j = choose|j: int| 0 <= j < s.len() - 1 && !s.drop_last()[j];
        assert(!s[j]);
    }
}

proof fn lemma_count_false_pos(s: Seq<bool>, j: int)
    requires
        0 <= j < s.len(),
        !s[j],
    ensures
        count_false(s) > 0,
    decreases s.len(),
{
    if j < s.len() - 1 {
        lemma_count_false_pos(s.drop_last(), j);
    }
}

/// Where all ids of `s` differ, there are as many different ids as players.
pub proof fn lemma_distinct_id_count_all_different(s: Seq<User>)
    requires
        forall|i: int, j: int| 0 <= i < j < s.len() ==> #[trigger] s[i].user_id != #[trigger] s[j].user_id,
    ensures
        distinct_id_count(s) == s.len(),
    decreases s.len(),
{
    if s.len() > 0 {
        let init = s.drop_last();
        assert forall|i: int, j: int| 0 <= i < j < init.len() implies #[trigger] init[i].user_id
            != #[trigger] init[j].user_id by {
            assert(init[i] == s[i]);
            assert(init[j] == s[j]);
        }
        lemma_distinct_id_count_all_different(init);
        if has_id(init, s.last().user_id) {
            let j = choose|j: int| 0 <= j < init.len() && #[trigger] init[j].user_id == s.last().user_id;
            assert(s[j].user_id != s[s.len() - 1].user_id);
        }
    }
}

proof fn lemma_first_with_id_unique(s: Seq<User>, a: int, b: int)
    requires
        0 <= a < s.len(),
        0 <= b < s.len(),
        first_with_id(s, a),
        first_with_id(s, b),
        s[a].user_id == s[b].user_id,
    ensures
        a == b,
{
    if a < b {
        assert(s.take(b)[a] == s[a]);
    } else if b < a {
        assert(s.take(a)[b] == s[b]);
    }
}

/// Whether an earlier player of `users` than the one at `i` has its id.
fn has_earlier_id(users: &Vec<User>, i: usize) -> (r: bool)
    requires
        i < users.len(),
    ensures
        r == has_id(users@.take(i as int), users@[i as int].user_id),
{
    let id = users[i].user_id;
    let mut j: usize = 0;
    while j < i
        invariant
            i < users.len(),
            j <= i,
            id == users@[i as int].user_id,
            forall|k: int| 0 <= k < j ==> users@[k].user_id != id,
        decreases i - j,
    {
        if users[j].user_id == id {
            assert(users@.take(i as int)[j as int].user_id == id);
            return true;
        }
        j = j + 1;
    }
    assert forall|k: int| 0 <= k < i implies #[trigger] users@.take(i as int)[k].user_id != id by {
        assert(users@.take(i as int)[k] == users@[k]);
    }
    false
}

/// The index of the entry with the largest key among those not yet used
/// (the first such where several share it), which is then marked used.
fn pick_best(used: &mut Vec<bool>, keys: &Vec<u64>) -> (r: usize)
    requires
        old(used).len() == keys.len(),
        count_false(old(used)@) > 0,
    ensures
        r < keys.len(),
        !old(used)@[r as int],
        final(used)@ == old(used)@.update(r as int, true),
        forall|i: int| 0 <= i < keys.len() && !old(used)@[i] ==> keys@[i] <= keys@[r as int],
        count_false(final(used)@) + 1 == count_false(old(used)@),
{
    proof {
        lemma_count_false_exists(used@);
    }
    let n = keys.len();
    let mut best: usize = n;
    let mut i: usize = 0;
    while i < n
        invariant
            n == keys.len(),
            used.len() == n,
            i <= n,
            best == n || (best < i && !used@[best as int]),
            best == n ==> forall|k: int| 0 <= k < i ==> used@[k],
            best < n ==> forall|k: int| 0 <= k < i && !used@[k] ==> keys@[k] <= keys@[best as int],
        decreases n - i,
    {
        if !used[i] && (best == n || keys[i] > keys[best]) {
            best = i;
        }
        i = i + 1;
    }
    proof {
        lemma_count_false_update(used@, best as int);
    }
    used.set(best, true);
    best
}

/// Marks the players of `users` whose id an earlier player has as used, so
/// that each id takes part once; gives how many are left unused.
fn mark_repeated_ids(users: &Vec<User>) -> (r: (Vec<bool>, usize))
    ensures
        r.0.len() == users.len(),
        forall|i: int| 0 <= i < users.len() ==> r.0@[i] == !first_with_id(users@, i),
        r.1 == count_false(r.0@),
        r.1 == distinct_id_count(users@),
{
    let n = users.len();
    let mut used: Vec<bool> = Vec::new();
    let mut free: usize = 0;
    let mut i: usize = 0;
    while i < n
        invariant
            n == users.len(),
            i <= n,
            used.len() == i,
            forall|k: int| 0 <= k < i ==> used@[k] == !first_with_id(users@, k),
            free == count_false(used@),
            free == distinct_id_count(users@.take(i as int)),
            free <= i,
        decreases n - i,
    {
        let repeated = has_earlier_id(users, i);
        proof {
            lemma_count_false_push(used@, repeated);
            let t = users@.take(i + 1);
            assert(t.drop_last() =~= users@.take(i as int));
            assert(t.last() == users@[i as int]);
        }
        used.push(repeated);
        if !repeated {
            free = free + 1;
        }
        i = i + 1;
    }
    assert(users@.take(n as int) =~= users@);
    (used, free)
}

/// Picks the [`PLAYERS_PER_MATCH`] unused players who have waited longest.
fn pick_group(used: &mut Vec<bool>, waits: &Vec<u64>) -> (group: Vec<usize>)
    requires
        old(used).len() == waits.len(),
        count_false(old(used)@) >= PLAYERS_PER_MATCH,
    ensures
        final(used).len() == old(used).len(),
        group@.len() == PLAYERS_PER_MATCH,
        group@.no_duplicates(),
        forall|p: int| 0 <= p < group.len() ==> #[trigger] group@[p] < waits.len() && !old(used)@[group@[p] as int],
        forall|i: int| 0 <= i < waits.len() ==> #[trigger] final(used)@[i] == (old(used)@[i] || group@.contains(i as usize)),
        count_false(final(used)@) + PLAYERS_PER_MATCH == count_false(old(used)@),
        forall|p: int, x: int|
            0 <= p < group.len() && 0 <= x < waits.len() && !final(used)@[x] ==> waits@[#[trigger] group@[p] as int]
                >= #[trigger] waits@[x],
{
    let ghost start = used@;
    let mut group: Vec<usize> = Vec::new();
    while group.len() < PLAYERS_PER_MATCH
        invariant
            used.len() == waits.len(),
            start.len() == waits.len(),
            count_false(start) >= PLAYERS_PER_MATCH,
            group.len() <= PLAYERS_PER_MATCH,
            group@.no_duplicates(),
            forall|p: int| 0 <= p < group.len() ==> #[trigger] group@[p] < waits.len() && !start[group@[p] as int],
            forall|i: int| 0 <= i < waits.len() ==> #[trigger] used@[i] == (start[i] || group@.contains(i as usize)),
            count_false(used@) + group.len() == count_false(start),
            forall|p: int, x: int|
                0 <= p < group.len() && 0 <= x < waits.len() && !used@[x] ==> waits@[#[trigger] group@[p] as int]
                    >= #[trigger] waits@[x],
        decreases PLAYERS_PER_MATCH - group.len(),
    {
        let ghost before = used@;
        let ghost before_group = group@;
        let j = pick_best(used, waits);
        assert(!before_group.contains(j));
        group.push(j);
        assert forall|p: int, x: int|
            0 <= p < group.len() && 0 <= x < waits.len() && !used@[x] implies waits@[#[trigger] group@[p] as int]
                >= #[trigger] waits@[x] by {
            assert(!before[x]);
            if p < group.len() - 1 {
                assert(group@[p] == before_group[p]);
            }
        }
        assert forall|i: int| 0 <= i < waits.len() implies #[trigger] used@[i] == (start[i] || group@.contains(i as usize)) by {
            if i == j as int {
                assert(group@[group.len() - 1] == j);
            } else {
                assert(before[i] == used@[i]);
                if group@.contains(i as usize) {
                    let p = choose|p: int| 0 <= p < group.len() && group@[p] == i as usize;
                    assert(before_group[p] == i as usize);
                }
                if before_group.contains(i as usize) {
                    let p = choose|p: int| 0 <= p < before_group.len() && before_group[p] == i as usize;
                    assert(group@[p] == i as usize);
                }
            }
        }
    }
    group
}

/// The positions in `group` ordered by the players' ratings, highest first
/// (the first position where several share a rating).
fn rank_group(users: &Vec<User>, group: &Vec<usize>) -> (ranked: Vec<usize>)
    requires
        group.len() == PLAYERS_PER_MATCH,
        forall|p: int| 0 <= p < group.len() ==> #[trigger] group@[p] < users.len(),
    ensures
        ranked@.len() == PLAYERS_PER_MATCH,
        ranked@.no_duplicates(),
        forall|p: int| 0 <= p < ranked.len() ==> #[trigger] ranked@[p] < PLAYERS_PER_MATCH,
        forall|g: int| 0 <= g < PLAYERS_PER_MATCH ==> #[trigger] ranked@.contains(g as usize),
        forall|p: int, q: int|
            0 <= p < q < ranked.len() ==> users@[group@[#[trigger] ranked@[p] as int] as int].mmr
                >= users@[group@[#[trigger] ranked@[q] as int] as int].mmr,
{
    let mut mmrs: Vec<u64> = Vec::new();
    let mut taken: Vec<bool> = Vec::new();
    let mut i: usize = 0;
    while i < PLAYERS_PER_MATCH
        invariant
            i <= PLAYERS_PER_MATCH,
            group.len() == PLAYERS_PER_MATCH,
            forall|p: int| 0 <= p < group.len() ==> #[trigger] group@[p] < users.len(),
            mmrs.len() == i,
            taken.len() == i,
            forall|p: int| 0 <= p < i ==> #[trigger] mmrs@[p] == users@[group@[p] as int].mmr,
            forall|p: int| 0 <= p < i ==> !#[trigger] taken@[p],
            count_false(taken@) == i,
        decreases PLAYERS_PER_MATCH - i,
    {
        mmrs.push(users[group[i]].mmr);
        proof {
            lemma_count_false_push(taken@, false);
        }
        taken.push(false);
        i = i + 1;
    }
    let mut ranked: Vec<usize> = Vec::new();
    while ranked.len() < PLAYERS_PER_MATCH
        invariant
            mmrs.len() == PLAYERS_PER_MATCH,
            taken.len() == PLAYERS_PER_MATCH,
            group.len() == PLAYERS_PER_MATCH,
            forall|p: int| 0 <= p < PLAYERS_PER_MATCH ==> #[trigger] mmrs@[p] == users@[group@[p] as int].mmr,
            ranked.len() <= PLAYERS_PER_MATCH,
            count_false(taken@) + ranked.len() == PLAYERS_PER_MATCH,
            ranked@.no_duplicates(),
            forall|p: int| 0 <= p < ranked.len() ==> #[trigger] ranked@[p] < PLAYERS_PER_MATCH && taken@[ranked@[p] as int],
            forall|x: int| 0 <= x < PLAYERS_PER_MATCH ==> (#[trigger] taken@[x] <==> ranked@.contains(x as usize)),
            forall|k: int| 0 <= k < PLAYERS_PER_MATCH && !taken@[k] ==> forall|p: int|
                0 <= p < ranked.len() ==> mmrs@[k] <= #[trigger] mmrs@[ranked@[p] as int],
            forall|p: int, q: int|
                0 <= p < q < ranked.len() ==> mmrs@[#[trigger] ranked@[p] as int] >= mmrs@[#[trigger] ranked@[q] as int],
        decreases PLAYERS_PER_MATCH - ranked.len(),
    {
        let ghost before = taken@;
        let ghost before_ranked = ranked@;
        let j = pick_best(&mut taken, &mmrs);
        assert(!before_ranked.contains(j));
        ranked.push(j);
        assert forall|p: int| 0 <= p < ranked.len() implies #[trigger] ranked@[p] < PLAYERS_PER_MATCH
            && taken@[ranked@[p] as int] by {
            if p < ranked.len() - 1 {
                assert(ranked@[p] == before_ranked[p]);
            }
        }
        assert forall|p: int, q: int| 0 <= p < q < ranked.len() implies mmrs@[#[trigger] ranked@[p] as int]
            >= mmrs@[#[trigger] ranked@[q] as int] by {
            if q == ranked.len() - 1 {
                assert(ranked@[p] == before_ranked[p]);
                assert(!before[j as int]);
            } else {
                assert(ranked@[p] == before_ranked[p]);
                assert(ranked@[q] == before_ranked[q]);
            }
        }
        assert forall|x: int| 0 <= x < PLAYERS_PER_MATCH implies (#[trigger] taken@[x] <==> ranked@.contains(x as usize)) by {
            if x == j as int {
                assert(ranked@[ranked.len() - 1] == j);
            } else {
                assert(taken@[x] == before[x]);
                if ranked@.contains(x as usize) {
                    let p = choose|p: int| 0 <= p < ranked.len() && ranked@[p] == x as usize;
                    assert(before_ranked[p] == x as usize);
                }
                if before_ranked.contains(x as usize) {
                    let p = choose|p: int| 0 <= p < before_ranked.len() && before_ranked[p] == x as usize;
                    assert(ranked@[p] == x as usize);
                }
            }
        }
        assert forall|k: int| 0 <= k < PLAYERS_PER_MATCH && !taken@[k] implies forall|p: int|
            0 <= p < ranked.len() ==> mmrs@[k] <= #[trigger] mmrs@[ranked@[p] as int] by {
            assert(!before[k]);
            assert forall|p: int| 0 <= p < ranked.len() implies mmrs@[k] <= #[trigger] mmrs@[ranked@[p] as int] by {
                if p < ranked.len() - 1 {
                    assert(ranked@[p] == before_ranked[p]);
                }
            }
        }
    }
    assert forall|g: int| 0 <= g < PLAYERS_PER_MATCH implies #[trigger] ranked@.contains(g as usize) by {
        if !taken@[g] {
            lemma_count_false_pos(taken@, g);
        }
    }
    ranked
}

/// The texts of `s`.
pub open spec fn texts(s: Seq<String>) -> Seq<Seq<char>> {
    s.map_values(|x: String| x@)
}

/// The five role names that stand in for preferences where a pair's
/// preferred roles are all taken.
pub open spec fn default_role_names() -> Seq<Seq<char>> {
    seq!["carry"@, "mid"@, "offlane"@, "soft_support"@, "hard_support"@]
}

/// The first of `cands` that `taken` does not hold, if any.
pub open spec fn first_free_of(cands: Seq<Seq<char>>, taken: Seq<Seq<char>>) -> Option<Seq<char>>
    decreases cands.len(),
{
    if cands.len() == 0 {
        None
    } else if taken.contains(cands[0]) {
        first_free_of(cands.drop_first(), taken)
    } else {
        Some(cands[0])
    }
}

/// The role of a pair of opponents whose preferences are `a` and `b`,
/// where the roles `taken` are already given: the first role that the first
/// player prefers and that is free, else the second player's, else the
/// first free default role.
pub open spec fn pair_role(a: Seq<Seq<char>>, b: Seq<Seq<char>>, taken: Seq<Seq<char>>) -> Seq<char> {
    match first_free_of(a, taken) {
        Some(r) => r,
        None => match first_free_of(b, taken) {
            Some(r) => r,
            None => first_free_of(default_role_names(), taken).unwrap(),
        },
    }
}

proof fn lemma_first_free_of(cands: Seq<Seq<char>>, taken: Seq<Seq<char>>)
    ensures
        first_free_of(cands, taken) matches Some(r) ==> !taken.contains(r),
        first_free_of(cands, taken) is None ==> forall|i: int| 0 <= i < cands.len() ==> #[trigger] taken.contains(cands[i]),
    decreases cands.len(),
{
    if cands.len() > 0 && taken.contains(cands[0]) {
        lemma_first_free_of(cands.drop_first(), taken);
        if first_free_of(cands, taken) is None {
            assert forall|i: int| 0 <= i < cands.len() implies #[trigger] taken.contains(cands[i]) by {
                if i > 0 {
                    assert(cands[i] == cands.drop_first()[i - 1]);
                }
            }
        }
    }
}

fn default_roles() -> (r: Vec<String>)
    ensures
        texts(r@) == default_role_names(),
        texts(r@).no_duplicates(),
{
    let r: Vec<String> = vec![
        String::from_str("carry"),
        String::from_str("mid"),
        String::from_str("offlane"),
        String::from_str("soft_support"),
        String::from_str("hard_support"),
    ];
    proof {
        reveal_strlit("carry");
        reveal_strlit("mid");
        reveal_strlit("offlane");
        reveal_strlit("soft_support");
        reveal_strlit("hard_support");
        let v = texts(r@);
        assert(v[0] == "carry"@);
        assert(v[1] == "mid"@);
        assert(v[2] == "offlane"@);
        assert(v[3] == "soft_support"@);
        assert(v[4] == "hard_support"@);
        assert(v =~= default_role_names());
        assert(v[0].len() != v[2].len() && v[0][0] != v[1][0] && v[0][0] != v[3][0] && v[0][0] != v[4][0]);
        assert(v[1][0] != v[2][0] && v[1][0] != v[3][0] && v[1][0] != v[4][0]);
        assert(v[2][0] != v[3][0] && v[2][0] != v[4][0] && v[3][0] != v[4][0]);
    }
    r
}

proof fn lemma_pigeonhole(cands: Seq<Seq<char>>, taken: Seq<Seq<char>>)
    requires
        cands.no_duplicates(),
        forall|i: int| 0 <= i < cands.len() ==> #[trigger] taken.contains(cands[i]),
    ensures
        cands.len() <= taken.len(),
{
    cands.unique_seq_to_set();
    taken.lemma_cardinality_of_set();
    vstd::seq_lib::seq_to_set_is_finite(taken);
    assert forall|x: Seq<char>| cands.to_set().contains(x) implies taken.to_set().contains(x) by {
        let i = choose|i: int| 0 <= i < cands.len() && cands[i] == x;
        assert(taken.contains(cands[i]));
    }
    vstd::set_lib::lemma_len_subset(cands.to_set(), taken.to_set());
}

/// The first of `cands` that none of `taken` equals, if any.
fn first_free(cands: &Vec<String>, taken: &Vec<String>) -> (r: Option<String>)
    ensures
        r matches Some(s) ==> first_free_of(texts(cands@), texts(taken@)) == Some(s@),
        r is None ==> first_free_of(texts(cands@), texts(taken@)) is None,
{
    let ghost c = texts(cands@);
    let ghost t = texts(taken@);
    let n = cands.len();
    let mut i: usize = 0;
    assert(c.skip(0) =~= c);
    while i < n
        invariant
            n == cands.len(),
            i <= n,
            c == texts(cands@),
            t == texts(taken@),
            first_free_of(c, t) == first_free_of(c.skip(i as int), t),
        decreases n - i,
    {
        let ghost rest = c.skip(i as int);
        assert(rest[0] == cands@[i as int]@);
        if !has_key(taken, &cands[i]) {
            assert(!t.contains(rest[0])) by {
                if t.contains(rest[0]) {
                    let k = choose|k: int| 0 <= k < t.len() && t[k] == rest[0];
                    assert(taken@[k]@ == cands@[i as int]@);
                }
            }
            return Some(cands[i].clone());
        }
        let ghost k = choose|k: int| 0 <= k < taken.len() && #[trigger] taken@[k]@ == cands@[i as int]@;
        assert(t[k] == rest[0]);
        assert(rest.drop_first() =~= c.skip(i + 1));
        i = i + 1;
    }
    assert(c.skip(n as int).len() == 0);
    None
}

/// The role of a pair of opponents (see [`pair_role`]).
fn choose_role(a: &User, b: &User, taken: &Vec<String>) -> (role: String)
    requires
        taken.len() < TEAM_SIZE,
    ensures
        role@ == pair_role(texts(a.roles@), texts(b.roles@), texts(taken@)),
        !texts(taken@).contains(role@),
{
    let ghost t = texts(taken@);
    proof {
        lemma_first_free_of(texts(a.roles@), t);
        lemma_first_free_of(texts(b.roles@), t);
        lemma_first_free_of(default_role_names(), t);
    }
    if let Some(r) = first_free(&a.roles, taken) {
        return r;
    }
    if let Some(r) = first_free(&b.roles, taken) {
        return r;
    }
    let defaults = default_roles();
    match first_free(&defaults, taken) {
        Some(r) => r,
        None => {
            proof {
                lemma_pigeonhole(texts(defaults@), t);
            }
            String::new()
        },
    }
}

/// The player of rank `r` (counted from 0) among the ten of a match:
/// the even ranks stand on the first side, the odd ranks on the second,
/// and the ranks `2k` and `2k + 1` meet in role `k`.
pub open spec fn side_player(m: Match, r: int) -> UserRole {
    if r % 2 == 0 {
        m.teams@[0].users@[r / 2]
    } else {
        m.teams@[1].users@[r / 2]
    }
}

/// The roles given in a match before role `k`.
pub open spec fn roles_before(m: Match, k: int) -> Seq<Seq<char>> {
    m.teams@[0].users@.take(k).map_values(|u: UserRole| u.role@)
}

/// The texts of a player's preferred roles.
pub open spec fn role_texts(u: User) -> Seq<Seq<char>> {
    texts(u.roles@)
}

/// The match of the players `group[ranked[..]]`: the ranks 0, 2, 4, 6, 8
/// on the first side and 1, 3, 5, 7, 9 on the second, each pair of
/// neighbouring ranks meeting in one role.
fn build_match(users: &Vec<User>, group: &Vec<usize>, ranked: &Vec<usize>, number: usize) -> (m: Match)
    requires
        group.len() == PLAYERS_PER_MATCH,
        forall|p: int| 0 <= p < group.len() ==> #[trigger] group@[p] < users.len(),
        ranked.len() == PLAYERS_PER_MATCH,
        forall|p: int| 0 <= p < ranked.len() ==> #[trigger] ranked@[p] < PLAYERS_PER_MATCH,
    ensures
        match_shape(m),
        match_ids(m).len() == PLAYERS_PER_MATCH,
        forall|q: int| 0 <= q < PLAYERS_PER_MATCH ==> #[trigger] match_ids(m)[q]
            == users@[group@[ranked@[rank_of_slot(q)] as int] as int].user_id,
        forall|r: int| 0 <= r < PLAYERS_PER_MATCH ==> #[trigger] side_player(m, r).id
            == users@[group@[ranked@[r] as int] as int].user_id,
        forall|k: int| 0 <= k < TEAM_SIZE ==> #[trigger] m.teams@[0].users@[k].role@ == pair_role(
            role_texts(users@[group@[ranked@[2 * k] as int] as int]),
            role_texts(users@[group@[ranked@[2 * k + 1] as int] as int]),
            roles_before(m, k),
        ),
        forall|k: int| 0 <= k < TEAM_SIZE ==> #[trigger] m.teams@[1].users@[k].role@ == m.teams@[0].users@[k].role@,
{
    let mut taken: Vec<String> = Vec::new();
    let mut first: Vec<UserRole> = Vec::new();
    let mut second: Vec<UserRole> = Vec::new();
    let mut k: usize = 0;
    while k < TEAM_SIZE
        invariant
            group.len() == PLAYERS_PER_MATCH,
            forall|p: int| 0 <= p < group.len() ==> #[trigger] group@[p] < users.len(),
            ranked.len() == PLAYERS_PER_MATCH,
            forall|p: int| 0 <= p < ranked.len() ==> #[trigger] ranked@[p] < PLAYERS_PER_MATCH,
            k <= TEAM_SIZE,
            taken.len() == k,
            first.len() == k,
            second.len() == k,
            forall|i: int, j: int| 0 <= i < j < k ==> #[trigger] taken@[i]@ != #[trigger] taken@[j]@,
            forall|i: int| 0 <= i < k ==> #[trigger] first@[i].role@ == taken@[i]@,
            forall|i: int| 0 <= i < k ==> #[trigger] second@[i].role@ == taken@[i]@,
            forall|i: int| 0 <= i < k ==> #[trigger] first@[i].id == users@[group@[ranked@[2 * i] as int] as int].user_id,
            forall|i: int| 0 <= i < k ==> #[trigger] second@[i].id == users@[group@[ranked@[2 * i + 1] as int] as int].user_id,
            forall|i: int| 0 <= i < k ==> #[trigger] taken@[i]@ == pair_role(
                role_texts(users@[group@[ranked@[2 * i] as int] as int]),
                role_texts(users@[group@[ranked@[2 * i + 1] as int] as int]),
                texts(taken@.take(i)),
            ),
        decreases TEAM_SIZE - k,
    {
        let a = &users[group[ranked[2 * k]]];
        let b = &users[group[ranked[2 * k + 1]]];
        let role = choose_role(a, b, &taken);
        let ghost before = taken@;
        taken.push(role.clone());
        first.push(UserRole { id: a.user_id, role: role.clone() });
        second.push(UserRole { id: b.user_id, role });
        assert forall|i: int, j: int| 0 <= i < j < k + 1 implies #[trigger] taken@[i]@ != #[trigger] taken@[j]@ by {
            assert(taken@[i] == before[i]);
            if j == k {
                if taken@[i]@ == taken@[j]@ {
                    assert(texts(before)[i] == taken@[j]@);
                }
            } else {
                assert(taken@[j] == before[j]);
            }
        }
        assert forall|i: int| 0 <= i < k + 1 implies #[trigger] taken@[i]@ == pair_role(
            role_texts(users@[group@[ranked@[2 * i] as int] as int]),
            role_texts(users@[group@[ranked@[2 * i + 1] as int] as int]),
            texts(taken@.take(i)),
        ) by {
            if i < k {
                assert(taken@.take(i) =~= before.take(i));
                assert(taken@[i] == before[i]);
            } else {
                assert(taken@.take(i) =~= before);
            }
        }
        k = k + 1;
    }
    let mut match_id = String::from_str("match_");
    append_decimal(&mut match_id, number as u64);
    let ghost f = first@;
    let ghost s2 = second@;
    let m = Match {
        match_id,
        teams: vec![
            TeamResponse { side: String::from_str("radiant"), users: first },
            TeamResponse { side: String::from_str("dire"), users: second },
        ],
    };
    assert(m.teams@.len() == 2);
    assert(m.teams@[0].users@ == f);
    assert(m.teams@[1].users@ == s2);
    assert(f.len() == TEAM_SIZE);
    assert(s2.len() == TEAM_SIZE);
    assert forall|i: int, j: int| 0 <= i < j < f.len() implies #[trigger] f[i].role@ != #[trigger] f[j].role@ by {
        assert(taken@[i]@ != taken@[j]@);
    }
    assert forall|i: int, j: int| 0 <= i < j < s2.len() implies #[trigger] s2[i].role@ != #[trigger] s2[j].role@ by {
        assert(taken@[i]@ != taken@[j]@);
    }
    assert(same_roles(f, s2)) by {
        assert forall|i: int| 0 <= i < f.len() implies #[trigger] role_taken(s2, f[i].role@) by {
            assert(s2[i].role@ == f[i].role@);
        }
        assert forall|j: int| 0 <= j < s2.len() implies #[trigger] role_taken(f, s2[j].role@) by {
            assert(s2[j].role@ == f[j].role@);
        }
    }
    assert forall|q: int| 0 <= q < PLAYERS_PER_MATCH implies #[trigger] match_ids(m)[q]
        == users@[group@[ranked@[rank_of_slot(q)] as int] as int].user_id by {
        if q < 5 {
            assert(match_ids(m)[q] == f[q].id);
        } else {
            assert(match_ids(m)[q] == s2[q - 5].id);
        }
    }
    assert forall|r: int| 0 <= r < PLAYERS_PER_MATCH implies #[trigger] side_player(m, r).id
        == users@[group@[ranked@[r] as int] as int].user_id by {
        if r % 2 == 0 {
            assert(side_player(m, r) == f[r / 2]);
            assert(2 * (r / 2) == r);
        } else {
            assert(side_player(m, r) == s2[r / 2]);
            assert(2 * (r / 2) + 1 == r);
        }
    }
    assert forall|k: int| 0 <= k < TEAM_SIZE implies #[trigger] m.teams@[0].users@[k].role@ == pair_role(
        role_texts(users@[group@[ranked@[2 * k] as int] as int]),
        role_texts(users@[group@[ranked@[2 * k + 1] as int] as int]),
        roles_before(m, k),
    ) by {
        assert(roles_before(m, k) =~= texts(taken@.take(k)));
        assert(f[k].role@ == taken@[k]@);
    }
    assert forall|k: int| 0 <= k < TEAM_SIZE implies #[trigger] m.teams@[1].users@[k].role@ == m.teams@[0].users@[k].role@ by {
        assert(s2[k].role@ == taken@[k]@);
        assert(f[k].role@ == taken@[k]@);
    }
    assert(distinct_roles(m.teams@[0].users@));
    assert(distinct_roles(m.teams@[1].users@));
    assert(same_roles(m.teams@[0].users@, m.teams@[1].users@));
    m
}

/// The player of `users` that is the first with the id `id`.
pub open spec fn user_of_id(users: Seq<User>, id: u128) -> User {
    users[choose|j: int| 0 <= j < users.len() && first_with_id(users, j) && users[j].user_id == id]
}

/// The ten players of `m`, taken by rank, have ratings from highest to
/// lowest.
pub open spec fn ranked_by_rating(users: Seq<User>, m: Match) -> bool {
    forall|r: int|
        0 <= r < PLAYERS_PER_MATCH - 1 ==> user_of_id(users, #[trigger] side_player(m, r).id).mmr >= user_of_id(
            users,
            side_player(m, r + 1).id,
        ).mmr
}

/// Each role of `m` is the one that [`pair_role`] gives its two players,
/// with the roles before it taken, and both sides take it.
pub open spec fn roles_by_preference(users: Seq<User>, m: Match) -> bool {
    forall|k: int|
        0 <= k < TEAM_SIZE ==> {
            &&& #[trigger] m.teams@[0].users@[k].role@ == pair_role(
                role_texts(user_of_id(users, side_player(m, 2 * k).id)),
                role_texts(user_of_id(users, side_player(m, 2 * k + 1).id)),
                roles_before(m, k),
            )
            &&& m.teams@[1].users@[k].role@ == m.teams@[0].users@[k].role@
        }
}

/// Every placed player has waited at least as long as every player left
/// unplaced (among the first player of each id).
pub open spec fn placed_waited_longest(users: Seq<User>, ms: Seq<Match>) -> bool {
    forall|x: int, k: int|
        0 <= x < users.len() && first_with_id(users, x) && !all_ids(ms).contains(users[x].user_id) && 0 <= k
            < all_ids(ms).len() ==> #[trigger] user_of_id(users, all_ids(ms)[k]).waiting_time
            >= #[trigger] users[x].waiting_time
}

proof fn lemma_user_of_id(users: Seq<User>, x: int)
    requires
        0 <= x < users.len(),
        first_with_id(users, x),
    ensures
        user_of_id(users, users[x].user_id) == users[x],
{
    let id = users[x].user_id;
    let j = choose|j: int| 0 <= j < users.len() && first_with_id(users, j) && users[j].user_id == id;
    lemma_first_with_id_unique(users, j, x);
}

/// Distributes the waiting players into matches by waiting time, rating and
/// preferred roles. Each id takes part once (a later player with an id seen
/// before is passed over). While ten unplaced players are left, the ten who
/// have waited longest form a match: ranked by rating, the players of ranks
/// 0, 2, 4, 6, 8 form one side and those of ranks 1, 3, 5, 7, 9 the other,
/// and the players of neighbouring ranks meet in the same role, the first
/// free role that either of them prefers, else a free default role.
pub fn determine(users: Vec<User>) -> (matches: Vec<Match>)
    ensures
        matches@.len() == distinct_id_count(users@) / (PLAYERS_PER_MATCH as nat),
        forall|i: int| 0 <= i < matches.len() ==> match_shape(#[trigger] matches@[i]),
        all_ids(matches@).no_duplicates(),
        forall|k: int| 0 <= k < all_ids(matches@).len() ==> has_id(users@, #[trigger] all_ids(matches@)[k]),
        forall|i: int| 0 <= i < matches.len() ==> ranked_by_rating(users@, #[trigger] matches@[i]),
        forall|i: int| 0 <= i < matches.len() ==> roles_by_preference(users@, #[trigger] matches@[i]),
        placed_waited_longest(users@, matches@),
{
    let n = users.len();
    let (mut used, mut free) = mark_repeated_ids(&users);
    let mut waits: Vec<u64> = Vec::new();
    let mut i: usize = 0;
    while i < n
        invariant
            n == users.len(),
            i <= n,
            waits.len() == i,
            forall|p: int| 0 <= p < i ==> #[trigger] waits@[p] == users@[p].waiting_time,
        decreases n - i,
    {
        waits.push(users[i].waiting_time as u64);
        i = i + 1;
    }
    let ghost mut picked: Seq<usize> = Seq::empty();
    let mut matches: Vec<Match> = Vec::new();
    while free >= PLAYERS_PER_MATCH
        invariant
            n == users.len(),
            used.len() == n,
            waits.len() == n,
            free == count_false(used@),
            distinct_id_count(users@) == free + picked.len(),
            picked.len() == PLAYERS_PER_MATCH * matches.len(),
            picked.no_duplicates(),
            forall|p: int| 0 <= p < picked.len() ==> #[trigger] picked[p] < n && used@[picked[p] as int]
                && first_with_id(users@, picked[p] as int),
            forall|x: int| 0 <= x < n && !used@[x] ==> first_with_id(users@, x),
            forall|i: int| 0 <= i < matches.len() ==> match_shape(#[trigger] matches@[i]),
            all_ids(matches@).no_duplicates(),
            all_ids(matches@).len() == picked.len(),
            forall|q: int| 0 <= q < all_ids(matches@).len() ==> #[trigger] picked_id(users@, picked, all_ids(matches@)[q]),
            forall|p: int| 0 <= p < n ==> #[trigger] waits@[p] == users@[p].waiting_time,
            forall|i: int| 0 <= i < matches.len() ==> ranked_by_rating(users@, #[trigger] matches@[i]),
            forall|i: int| 0 <= i < matches.len() ==> roles_by_preference(users@, #[trigger] matches@[i]),
            forall|p: int, x: int|
                0 <= p < picked.len() && 0 <= x < n && !used@[x] ==> waits@[#[trigger] picked[p] as int]
                    >= #[trigger] waits@[x],
            forall|x: int| 0 <= x < n && #[trigger] used@[x] && first_with_id(users@, x) ==> picked.contains(x as usize),
            forall|p: int| 0 <= p < picked.len() ==> all_ids(matches@).contains(users@[#[trigger] picked[p] as int].user_id),
        decreases free,
    {
        let ghost before_used = used@;
        let group = pick_group(&mut used, &waits);
        let ranked = rank_group(&users, &group);
        let m = build_match(&users, &group, &ranked, matches.len());
        let ghost old_ids = all_ids(matches@);
        let ghost new_ids = match_ids(m);
        let ghost old_picked = picked;
        let ghost old_matches = matches@;
        proof {
            picked = picked + group@;
            // every new id belongs to a player of the group
            assert forall|q: int| 0 <= q < PLAYERS_PER_MATCH implies exists|g: int|
                0 <= g < PLAYERS_PER_MATCH && #[trigger] new_ids[q] == users@[group@[g] as int].user_id
                    && ranked@[rank_of_slot(q)] as int == g by {
                let g = ranked@[rank_of_slot(q)] as int;
                assert(new_ids[q] == users@[group@[g] as int].user_id);
            }
            assert forall|a: int, b: int| 0 <= a < b < new_ids.len() implies new_ids[a] != new_ids[b] by {
                let ga = ranked@[rank_of_slot(a)] as int;
                let gb = ranked@[rank_of_slot(b)] as int;
                assert(new_ids[a] == users@[group@[ga] as int].user_id);
                assert(new_ids[b] == users@[group@[gb] as int].user_id);
                assert(ranked@[rank_of_slot(a)] != ranked@[rank_of_slot(b)]);
                assert(group@[ga] != group@[gb]);
                let xa = group@[ga] as int;
                let xb = group@[gb] as int;
                assert(!before_used[xa] && !before_used[xb]);
                if new_ids[a] == new_ids[b] {
                    lemma_first_with_id_unique(users@, xa, xb);
                }
            }
            assert forall|a: int, b: int| 0 <= a < old_ids.len() && 0 <= b < new_ids.len() implies old_ids[a]
                != new_ids[b] by {
                assert(picked_id(users@, old_picked, old_ids[a]));
                let p = choose|p: int| 0 <= p < old_picked.len() && #[trigger] users@[old_picked[p] as int].user_id == old_ids[a];
                let gb = ranked@[rank_of_slot(b)] as int;
                let xb = group@[gb] as int;
                assert(new_ids[b] == users@[xb].user_id);
                assert(!before_used[xb]);
                assert(before_used[old_picked[p] as int]);
                if old_ids[a] == new_ids[b] {
                    lemma_first_with_id_unique(users@, old_picked[p] as int, xb);
                }
            }
            vstd::seq_lib::lemma_no_dup_in_concat(old_ids, new_ids);
            assert forall|a: int, b: int| 0 <= a < old_picked.len() && 0 <= b < group.len() implies old_picked[a]
                != group@[b] by {
                assert(before_used[old_picked[a] as int]);
                assert(!before_used[group@[b] as int]);
            }
            vstd::seq_lib::lemma_no_dup_in_concat(old_picked, group@);
        }
        matches.push(m);
        free = free - PLAYERS_PER_MATCH;
        proof {
            assert(matches@.drop_last() =~= old_matches);
            assert(matches@.last() == m);
            assert(all_ids(matches@) == old_ids + new_ids);
            assert(group@.len() == 10);
            assert(picked.len() == old_picked.len() + 10);
            assert(matches.len() == old_matches.len() + 1);
            let mo = old_matches.len() as int;
            assert(PLAYERS_PER_MATCH * (mo + 1) == PLAYERS_PER_MATCH * mo + PLAYERS_PER_MATCH) by (nonlinear_arith);
            assert forall|i: int| 0 <= i < matches.len() implies match_shape(#[trigger] matches@[i]) by {
                if i < matches.len() - 1 {
                    assert(matches@[i] == old_matches[i]);
                }
            }
            assert forall|p: int| 0 <= p < picked.len() implies #[trigger] picked[p] < n && used@[picked[p] as int]
                && first_with_id(users@, picked[p] as int) by {
                if p < old_picked.len() {
                    assert(picked[p] == old_picked[p]);
                } else {
                    let g = p - old_picked.len();
                    assert(picked[p] == group@[g]);
                    assert(group@.contains(group@[g]));
                }
            }
            // the new match, by the first players of their ids
            assert forall|r: int| 0 <= r < PLAYERS_PER_MATCH implies user_of_id(users@, #[trigger] side_player(m, r).id)
                == users@[group@[ranked@[r] as int] as int] by {
                let g = ranked@[r] as int;
                assert(!before_used[group@[g] as int]);
                lemma_user_of_id(users@, group@[g] as int);
            }
            assert(ranked_by_rating(users@, m)) by {
                assert forall|r: int| 0 <= r < PLAYERS_PER_MATCH - 1 implies user_of_id(users@, #[trigger] side_player(m, r).id).mmr
                    >= user_of_id(users@, side_player(m, r + 1).id).mmr by {
                    assert(user_of_id(users@, side_player(m, r + 1).id) == users@[group@[ranked@[r + 1] as int] as int]);
                }
            }
            assert(roles_by_preference(users@, m)) by {
                assert forall|k: int| 0 <= k < TEAM_SIZE implies {
                    &&& #[trigger] m.teams@[0].users@[k].role@ == pair_role(
                        role_texts(user_of_id(users@, side_player(m, 2 * k).id)),
                        role_texts(user_of_id(users@, side_player(m, 2 * k + 1).id)),
                        roles_before(m, k),
                    )
                    &&& m.teams@[1].users@[k].role@ == m.teams@[0].users@[k].role@
                } by {
                    assert(user_of_id(users@, side_player(m, 2 * k).id) == users@[group@[ranked@[2 * k] as int] as int]);
                    assert(user_of_id(users@, side_player(m, 2 * k + 1).id) == users@[group@[ranked@[2 * k + 1] as int] as int]);
                }
            }
            assert forall|i: int| 0 <= i < matches.len() implies ranked_by_rating(users@, #[trigger] matches@[i])
                && roles_by_preference(users@, matches@[i]) by {
                if i < matches.len() - 1 {
                    assert(matches@[i] == old_matches[i]);
                }
            }
            assert forall|p: int, x: int|
                0 <= p < picked.len() && 0 <= x < n && !used@[x] implies waits@[#[trigger] picked[p] as int]
                    >= #[trigger] waits@[x] by {
                assert(!before_used[x]);
                if p < old_picked.len() {
                    assert(picked[p] == old_picked[p]);
                } else {
                    assert(picked[p] == group@[p - old_picked.len()]);
                }
            }
            assert forall|x: int| 0 <= x < n && #[trigger] used@[x] && first_with_id(users@, x) implies picked.contains(x as usize) by {
                if before_used[x] {
                    let p = choose|p: int| 0 <= p < old_picked.len() && old_picked[p] == x as usize;
                    assert(picked[p] == x as usize);
                } else {
                    assert(group@.contains(x as usize));
                    let g = choose|g: int| 0 <= g < group.len() && group@[g] == x as usize;
                    assert(picked[old_picked.len() + g] == x as usize);
                }
            }
            assert forall|p: int| 0 <= p < picked.len() implies all_ids(matches@).contains(users@[#[trigger] picked[p] as int].user_id) by {
                if p < old_picked.len() {
                    assert(picked[p] == old_picked[p]);
                    assert(old_ids.contains(users@[old_picked[p] as int].user_id));
                    let q = choose|q: int| 0 <= q < old_ids.len() && old_ids[q] == users@[old_picked[p] as int].user_id;
                    assert(all_ids(matches@)[q] == old_ids[q]);
                } else {
                    let g = p - old_picked.len();
                    assert(picked[p] == group@[g]);
                    assert(ranked@.contains(g as usize));
                    let r = choose|r: int| 0 <= r < ranked.len() && ranked@[r] == g as usize;
                    let q = if r % 2 == 0 { r / 2 } else { 5 + r / 2 };
                    assert(rank_of_slot(q) == r);
                    assert(new_ids[q] == users@[group@[g] as int].user_id);
                    assert(all_ids(matches@)[old_ids.len() + q] == new_ids[q]);
                }
            }
            assert forall|q: int| 0 <= q < all_ids(matches@).len() implies #[trigger] picked_id(users@, picked, all_ids(matches@)[q]) by {
                if q < old_ids.len() {
                    assert(all_ids(matches@)[q] == old_ids[q]);
                    assert(picked_id(users@, old_picked, old_ids[q]));
                    let p = choose|p: int| 0 <= p < old_picked.len() && #[trigger] users@[old_picked[p] as int].user_id == old_ids[q];
                    assert(picked[p] == old_picked[p]);
                    assert(users@[picked[p] as int].user_id == all_ids(matches@)[q]);
                } else {
                    let r = q - old_ids.len();
                    assert(all_ids(matches@)[q] == new_ids[r]);
                    let g = ranked@[rank_of_slot(r)] as int;
                    assert(new_ids[r] == users@[group@[g] as int].user_id);
                    assert(picked[old_picked.len() + g] == group@[g]);
                    assert(users@[picked[old_picked.len() + g] as int].user_id == all_ids(matches@)[q]);
                }
            }
        }
    }
    proof {
        let ids = all_ids(matches@);
        assert forall|k: int| 0 <= k < ids.len() implies has_id(users@, #[trigger] ids[k]) by {
            assert(picked_id(users@, picked, ids[k]));
            let p = choose|p: int| 0 <= p < picked.len() && #[trigger] users@[picked[p] as int].user_id == ids[k];
            assert(users@[picked[p] as int].user_id == ids[k]);
        }
        assert forall|x: int, k: int|
            0 <= x < users.len() && first_with_id(users@, x) && !ids.contains(users@[x].user_id) && 0 <= k
                < ids.len() implies #[trigger] user_of_id(users@, ids[k]).waiting_time >= #[trigger] users@[x].waiting_time by {
            if used@[x] {
                let p = choose|p: int| 0 <= p < picked.len() && picked[p] == x as usize;
                assert(ids.contains(users@[picked[p] as int].user_id));
            }
            assert(picked_id(users@, picked, ids[k]));
            let p = choose|p: int| 0 <= p < picked.len() && #[trigger] users@[picked[p] as int].user_id == ids[k];
            lemma_user_of_id(users@, picked[p] as int);
            assert(waits@[picked[p] as int] >= waits@[x]);
        }
        let m = matches.len() as int;
        let d = distinct_id_count(users@) as int;
        assert(d == free + 10 * m);
        assert(d / 10 == m) by (nonlinear_arith)
            requires
                d == free + 10 * m,
                0 <= free < 10,
                m >= 0,
        ;
    }
    matches
}

/// With at least [`PLAYERS_PER_MATCH`] waiting players whose ids all
/// differ, at least one match is formed.
pub proof fn lemma_enough_players_form_a_match(users: Seq<User>)
    requires
        users.len() >= PLAYERS_PER_MATCH,
        forall|i: int, j: int| 0 <= i < j < users.len() ==> #[trigger] users[i].user_id != #[trigger] users[j].user_id,
    ensures
        distinct_id_count(users) / (PLAYERS_PER_MATCH as nat) >= 1,
{
    lemma_distinct_id_count_all_different(users);
    let d = distinct_id_count(users) as int;
    assert(d / 10 >= 1) by (nonlinear_arith)
        requires
            d >= 10,
    ;
}

// ---------------------------------------------------------------------------
// What the median is, by counting
// ---------------------------------------------------------------------------

/// How many entries of `s` satisfy `f`.
pub open spec fn count_where(s: Seq<u64>, f: spec_fn(u64) -> bool) -> nat
    decreases s.len(),
{
    if s.len() == 0 {
        0
    } else {
        count_where(s.drop_last(), f) + if f(s.last()) {
            1nat
        } else {
            0nat
        }
    }
}

/// Being smaller than `v`.
pub open spec fn below(v: u64) -> spec_fn(u64) -> bool {
    |x: u64| x < v
}

/// Being at most `v`.
pub open spec fn at_most(v: u64) -> spec_fn(u64) -> bool {
    |x: u64| x <= v
}

/// `v` is the value of rank `k` (counted from 0, smallest first) among the
/// values of `s`: a value of `s` with at most `k` values below it and more
/// than `k` values at most it.
pub open spec fn is_rank(s: Seq<u64>, k: int, v: u64) -> bool {
    &&& s.contains(v)
    &&& count_where(s, below(v)) <= k
    &&& k < count_where(s, at_most(v))
}

proof fn lemma_count_where_len(s: Seq<u64>, f: spec_fn(u64) -> bool)
    ensures
        count_where(s, f) <= s.len(),
    decreases s.len(),
{
    if s.len() > 0 {
        lemma_count_where_len(s.drop_last(), f);
    }
}

proof fn lemma_count_where_mono(s: Seq<u64>, f: spec_fn(u64) -> bool, g: spec_fn(u64) -> bool)
    requires
        forall|x: u64| #[trigger] f(x) ==> g(x),
    ensures
        count_where(s, f) <= count_where(s, g),
    decreases s.len(),
{
    if s.len() > 0 {
        lemma_count_where_mono(s.drop_last(), f, g);
    }
}

proof fn lemma_count_where_upper(t: Seq<u64>, f: spec_fn(u64) -> bool, m: int)
    requires
        0 <= m,
        forall|j: int| m <= j < t.len() ==> !f(#[trigger] t[j]),
    ensures
        count_where(t, f) <= m,
    decreases t.len(),
{
    if t.len() <= m {
        lemma_count_where_len(t, f);
    } else {
        assert(!f(t[t.len() - 1]));
        let init = t.drop_last();
        assert forall|j: int| m <= j < init.len() implies !f(#[trigger] init[j]) by {
            assert(init[j] == t[j]);
        }
        lemma_count_where_upper(init, f, m);
    }
}

proof fn lemma_count_where_lower(t: Seq<u64>, f: spec_fn(u64) -> bool, m: int)
    requires
        0 <= m <= t.len(),
        forall|j: int| 0 <= j < m ==> f(#[trigger] t[j]),
    ensures
        count_where(t, f) >= m,
    decreases t.len(),
{
    if t.len() > 0 {
        let init = t.drop_last();
        if m == t.len() {
            assert(f(t[t.len() - 1]));
            assert forall|j: int| 0 <= j < m - 1 implies f(#[trigger] init[j]) by {
                assert(init[j] == t[j]);
            }
            lemma_count_where_lower(init, f, m - 1);
        } else {
            assert forall|j: int| 0 <= j < m implies f(#[trigger] init[j]) by {
                assert(init[j] == t[j]);
            }
            lemma_count_where_lower(init, f, m);
        }
    }
}

proof fn lemma_count_where_remove(t: Seq<u64>, f: spec_fn(u64) -> bool, k: int)
    requires
        0 <= k < t.len(),
    ensures
        count_where(t, f) == count_where(t.remove(k), f) + if f(t[k]) {
            1nat
        } else {
            0nat
        },
    decreases t.len(),
{
    let n = t.len() as int;
    if k == n - 1 {
        assert(t.remove(k) =~= t.drop_last());
    } else {
        lemma_count_where_remove(t.drop_last(), f, k);
        let r = t.remove(k);
        assert(r.drop_last() =~= t.drop_last().remove(k));
        assert(r.last() == t.last());
    }
}

/// Counting does not depend on the order of the values.
pub proof fn lemma_count_where_rearranged(s: Seq<u64>, t: Seq<u64>, f: spec_fn(u64) -> bool)
    requires
        s.to_multiset() == t.to_multiset(),
    ensures
        count_where(s, f) == count_where(t, f),
    decreases s.len(),
{
    assert(s.len() == s.to_multiset().len());
    assert(t.len() == t.to_multiset().len());
    if s.len() > 0 {
        let x = s.last();
        let init = s.drop_last();
        assert(init.push(x) =~= s);
        assert(s.contains(x));
        assert(t.to_multiset().count(x) > 0);
        assert(t.contains(x));
        let k = choose|k: int| 0 <= k < t.len() && t[k] == x;
        assert(t.remove(k).to_multiset() == t.to_multiset().remove(x));
        assert(s.to_multiset() =~= init.to_multiset().insert(x));
        assert(t.remove(k).to_multiset() =~= init.to_multiset());
        lemma_count_where_rearranged(init, t.remove(k), f);
        lemma_count_where_remove(t, f, k);
    }
}

/// The value at position `k` of the ascending rearrangement of `s` is the
/// value of rank `k` of `s`.
pub proof fn lemma_sorted_rank(s: Seq<u64>, k: int)
    requires
        0 <= k < s.len(),
    ensures
        is_rank(s, k, sort_seq(s)[k]),
{
    lemma_sort_seq(s);
    let t = sort_seq(s);
    let v = t[k];
    assert forall|j: int| k <= j < t.len() implies !below(v)(#[trigger] t[j]) by {
        assert(t[k] <= t[j]);
    }
    lemma_count_where_upper(t, below(v), k);
    assert forall|j: int| 0 <= j < k + 1 implies at_most(v)(#[trigger] t[j]) by {
        assert(t[j] <= t[k]);
    }
    lemma_count_where_lower(t, at_most(v), k + 1);
    lemma_count_where_rearranged(s, t, below(v));
    lemma_count_where_rearranged(s, t, at_most(v));
    assert(t.contains(v));
    assert(t.to_multiset().count(v) > 0);
    assert(s.contains(v));
}

/// A rank holds one value only.
pub proof fn lemma_rank_unique(s: Seq<u64>, k: int, v: u64, w: u64)
    requires
        is_rank(s, k, v),
        is_rank(s, k, w),
    ensures
        v == w,
{
    if v < w {
        assert forall|x: u64| #[trigger] at_most(v)(x) implies below(w)(x) by {}
        lemma_count_where_mono(s, at_most(v), below(w));
    } else if w < v {
        assert forall|x: u64| #[trigger] at_most(w)(x) implies below(v)(x) by {}
        lemma_count_where_mono(s, at_most(w), below(v));
    }
}

/// What a median computation gives: nothing for no values; for an odd
/// number `n` of values, twice the value of rank `n / 2`; for an even
/// number, the sum of the values of ranks `n / 2 - 1` and `n / 2`. With
/// [`lemma_rank_unique`], this fixes the median by counting alone.
pub proof fn lemma_median_is_middle(s: Seq<u64>)
    ensures
        s.len() == 0 <==> median_of(s) is None,
        s.len() % 2 == 1 ==> exists|v: u64| #[trigger] is_rank(s, s.len() as int / 2, v) && doubled_median(s) == 2 * v,
        s.len() > 0 && s.len() % 2 == 0 ==> exists|a: u64, b: u64|
            #[trigger] is_rank(s, s.len() as int / 2 - 1, a) && #[trigger] is_rank(s, s.len() as int / 2, b) && doubled_median(s) == a + b,
        s.len() > 0 ==> median_of(s) == Some(doubled_median(s) as u128),
        s.len() > 0 ==> 0 <= doubled_median(s) <= 2 * u64::MAX,
{
    if s.len() > 0 {
        lemma_sort_seq(s);
        let t = sort_seq(s);
        let n = s.len() as int;
        if n % 2 == 1 {
            lemma_sorted_rank(s, n / 2);
            assert(is_rank(s, n / 2, t[n / 2]) && doubled_median(s) == 2 * t[n / 2]);
        } else {
            lemma_sorted_rank(s, n / 2 - 1);
            lemma_sorted_rank(s, n / 2);
            assert(is_rank(s, n / 2 - 1, t[n / 2 - 1]) && is_rank(s, n / 2, t[n / 2]) && doubled_median(s)
                == t[n / 2 - 1] + t[n / 2]);
        }
    }
}

// ---------------------------------------------------------------------------
// What the fairness measure is made of, in terms of the players
// ---------------------------------------------------------------------------

/// The ratings of a side, as the median sees them: one per player, in the
/// side's order, each the rating that `data` gives the player's id.
pub proof fn lemma_team_mmrs(t: Seq<UserRole>, data: Map<u128, User>)
    ensures
        team_mmrs(t, data).len() == t.len(),
        forall|i: int| 0 <= i < t.len() ==> #[trigger] team_mmrs(t, data)[i] == data[t[i].id].mmr,
{
}

/// The ratings of a roster, as the median sees them: one per entry, in the
/// roster's order, each the rating of the entry's player.
pub proof fn lemma_roster_mmrs(users: Seq<(String, User)>)
    ensures
        roster_mmrs(users).len() == users.len(),
        forall|i: int| 0 <= i < users.len() ==> #[trigger] roster_mmrs(users)[i] == users[i].1.mmr,
{
}

/// The median term of the fairness measure: 0 where a side has no median;
/// else the whole-number part of the distance between the two medians,
/// which, given twice over as `a` and `b`, is half their distance, rounded
/// down; a distance beyond `i64::MAX` counts as `i64::MAX`. It does not
/// depend on which side comes first.
pub proof fn lemma_median_gap(a: u128, b: u128)
    ensures
        median_gap(None, Some(b)) == 0,
        median_gap(Some(a), None) == 0,
        median_gap(None, None) == 0,
        a >= b && (a - b) / 2 <= i64::MAX ==> median_gap(Some(a), Some(b)) == (a - b) / 2,
        b >= a && (b - a) / 2 <= i64::MAX ==> median_gap(Some(a), Some(b)) == (b - a) / 2,
        a >= b && (a - b) / 2 > i64::MAX ==> median_gap(Some(a), Some(b)) == i64::MAX,
        b >= a && (b - a) / 2 > i64::MAX ==> median_gap(Some(a), Some(b)) == i64::MAX,
        median_gap(Some(a), Some(b)) == median_gap(Some(b), Some(a)),
{
}

/// How unequal two sides are: where both sides have players and their
/// medians lie less than `i64::MAX + 1` apart, the rating gap by role plus
/// the whole-number part of the distance between the medians; where a side
/// has no players, the rating gap by role alone.
pub proof fn lemma_team_delta_parts(t1: Seq<UserRole>, t2: Seq<UserRole>, data: Map<u128, User>)
    ensures
        t1.len() > 0 && t2.len() > 0 && doubled_median(team_mmrs(t1, data)) >= doubled_median(team_mmrs(t2, data))
            && (doubled_median(team_mmrs(t1, data)) - doubled_median(team_mmrs(t2, data))) / 2 <= i64::MAX
            ==> team_delta(t1, t2, data) == role_delta(t1, t2, data) + (doubled_median(team_mmrs(t1, data))
            - doubled_median(team_mmrs(t2, data))) / 2,
        t1.len() > 0 && t2.len() > 0 && doubled_median(team_mmrs(t2, data)) >= doubled_median(team_mmrs(t1, data))
            && (doubled_median(team_mmrs(t2, data)) - doubled_median(team_mmrs(t1, data))) / 2 <= i64::MAX
            ==> team_delta(t1, t2, data) == role_delta(t1, t2, data) + (doubled_median(team_mmrs(t2, data))
            - doubled_median(team_mmrs(t1, data))) / 2,
        t1.len() == 0 || t2.len() == 0 ==> team_delta(t1, t2, data) == role_delta(t1, t2, data),
{
    let m1 = team_mmrs(t1, data);
    let m2 = team_mmrs(t2, data);
    lemma_median_is_middle(m1);
    lemma_median_is_middle(m2);
    if t1.len() > 0 && t2.len() > 0 {
        let a = doubled_median(m1) as u128;
        let b = doubled_median(m2) as u128;
        lemma_median_gap(a, b);
    }
}

/// The player of the side `t` who takes the role `r`.
pub open spec fn player_with_role(t: Seq<UserRole>, r: Seq<char>) -> UserRole {
    t[choose|j: int| 0 <= j < t.len() && t[j].role@ == r]
}

proof fn lemma_sum_over_congruent(keys: Seq<Seq<char>>, f: spec_fn(Seq<char>) -> int, g: spec_fn(Seq<char>) -> int)
    requires
        forall|i: int| 0 <= i < keys.len() ==> f(#[trigger] keys[i]) == g(keys[i]),
    ensures
        sum_over(keys, f) == sum_over(keys, g),
    decreases keys.len(),
{
    if keys.len() > 0 {
        let init = keys.drop_last();
        assert forall|i: int| 0 <= i < init.len() implies f(#[trigger] init[i]) == g(init[i]) by {
            assert(init[i] == keys[i]);
        }
        lemma_sum_over_congruent(init, f, g);
        assert(f(keys[keys.len() - 1]) == g(keys[keys.len() - 1]));
    }
}

proof fn lemma_value_at_player(t: Seq<UserRole>, data: Map<u128, User>, r: Seq<char>)
    requires
        distinct_roles(t),
        role_taken(t, r),
    ensures
        value_at(role_entries(t, data), r) == data[player_with_role(t, r).id].mmr,
{
    let e = role_entries(t, data);
    let j = choose|j: int| 0 <= j < t.len() && t[j].role@ == r;
    assert forall|k: int| j < k < e.len() implies #[trigger] e[k].0 != e[j].0 by {
        assert(t[j].role@ != t[k].role@);
    }
    lemma_last_value_for_last(e, j);
}

/// The rating gap by role, in terms of the players: where each side takes
/// each of its roles once and every role of the second side is taken on
/// the first, it is the sum, over the roles of the second side, of the
/// distance between the ratings of the two players who take the role.
pub proof fn lemma_role_delta_by_players(t1: Seq<UserRole>, t2: Seq<UserRole>, data: Map<u128, User>)
    requires
        all_known(t1, data),
        all_known(t2, data),
        distinct_roles(t1),
        distinct_roles(t2),
        forall|i: int| 0 <= i < t2.len() ==> #[trigger] role_taken(t1, t2[i].role@),
    ensures
        roles_matched(t1, t2, data),
        role_delta(t1, t2, data) == sum_over(
            t2.map_values(|u: UserRole| u.role@),
            |r: Seq<char>|
                {
                    let a = data[player_with_role(t1, r).id].mmr as int;
                    let b = data[player_with_role(t2, r).id].mmr as int;
                    if a > b {
                        a - b
                    } else {
                        b - a
                    }
                },
        ),
{
    let e1 = role_entries(t1, data);
    let e2 = role_entries(t2, data);
    assert forall|j: int| 0 <= j < t2.len() implies (#[trigger] last_value_for(e1, t2[j].role@)) is Some by {
        assert(role_taken(t1, t2[j].role@));
        let i = choose|i: int| 0 <= i < t1.len() && #[trigger] t1[i].role@ == t2[j].role@;
        assert(e1[i].0 == t2[j].role@);
        lemma_last_value_for_some(e1, i);
    }
    lemma_role_delta_as_sum(t1, t2, data);
    let keys = t2.map_values(|u: UserRole| u.role@);
    let f = |k: Seq<char>|
        {
            let a = value_at(e1, k);
            let b = value_at(e2, k);
            if a > b {
                a - b
            } else {
                b - a
            }
        };
    let g = |r: Seq<char>|
        {
            let a = data[player_with_role(t1, r).id].mmr as int;
            let b = data[player_with_role(t2, r).id].mmr as int;
            if a > b {
                a - b
            } else {
                b - a
            }
        };
    assert forall|i: int| 0 <= i < keys.len() implies f(#[trigger] keys[i]) == g(keys[i]) by {
        assert(keys[i] == t2[i].role@);
        assert(role_taken(t1, t2[i].role@));
        assert(role_taken(t2, t2[i].role@));
        lemma_value_at_player(t1, data, keys[i]);
        lemma_value_at_player(t2, data, keys[i]);
    }
    lemma_sum_over_congruent(keys, f, g);
}

} // verus!
