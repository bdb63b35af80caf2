use vstd::prelude::*;

use crate::bitset::BitSet;
use crate::data::{Data, UserData};

verus! {

/// A status line pushed by a running game.
pub enum UpdateType {
    StatusUpdate(String),
    GameEnded,
}

pub struct StatusUpdate {
    pub chat_id: i64,
    pub update_type: UpdateType,
}

/// What a proposal or the matchmaker hands over to start a game.
pub struct GameStartData {
    pub chat_ids: Vec<i64>,
    pub set_id: Option<String>,
    pub topic_count: u8,
    pub players: Vec<(i64, UserData)>,
    pub spectators: Vec<(i64, UserData)>,
}

/// One profile as the lists render it.
pub open spec fn spec_player_entry(u: crate::data::UserDataView) -> Seq<char> {
    u.display_name + (" (")@ + crate::text::dec_str((u.rating + 5) / 10) + (")")@
}

/// The profiles joined by ", ", in input order.
pub open spec fn spec_player_list(users: Seq<crate::data::UserDataView>, i: int) -> Seq<char>
    decreases i,
{
    if i <= 0 {
        Seq::empty()
    } else if i == 1 {
        spec_player_entry(users[0])
    } else {
        spec_player_list(users, i - 1) + (", ")@ + spec_player_entry(users[i - 1])
    }
}

/// "name (rating), name (rating), ..." for a list of profiles.
pub fn player_list(users: &Vec<UserData>) -> (r: String)
    ensures
        r@ == spec_player_list(users.deep_view(), users@.len() as int),
{
    let mut r = String::new();
    let n = users.len();
    let mut i: usize = 0;
    while i < n
        invariant
            n == users@.len(),
            i <= n,
            r@ == spec_player_list(users.deep_view(), i as int),
        decreases n - i,
    {
        if i > 0 {
            r.append(", ");
        }
        r.append(users[i].display_name.as_str());
        r.append(" (");
        let shown = crate::display_rating(users[i].rating);
        let sr = crate::text::u64_string(shown as u64);
        r.append(sr.as_str());
        r.append(")");
        proof {
            assert(users.deep_view()[i as int] == users@[i as int]@);
        }
        i += 1;
    }
    r
}

/// Whether a package can host a game: every player has at least
/// `topic_count` unplayed topics left (a blocked package counts as empty),
/// and the union of the players' bitmaps leaves at least `topic_count`
/// topics unset.
pub open spec fn spec_feasible(d: Data, set_id: Seq<char>, users: Seq<i64>, topic_count: int) -> bool {
    &&& d.set_of(set_id) is Some
    &&& (forall|i: int|
        0 <= i < users.len() ==> crate::data::spec_topics_remain(d, (#[trigger] users[i]) as int, set_id)
            >= topic_count)
    &&& crate::data::spec_set_total(d, set_id) - popcount_union(d, set_id, users) >= topic_count
}

/// The number of topics some participant has already played, counted over
/// the union of their bitmaps.
pub open spec fn popcount_union(d: Data, set_id: Seq<char>, users: Seq<i64>) -> int {
    crate::bitset::popcount(union_bits(d, set_id, users, crate::data::spec_set_total(d, set_id)))
}

/// The bitwise union of the players' bitmaps, padded to the package size.
pub open spec fn union_bits(d: Data, set_id: Seq<char>, users: Seq<i64>, total: int) -> Seq<bool>
    decreases users.len(),
{
    if users.len() == 0 {
        Seq::new(total as nat, |i: int| false)
    } else {
        let rest = union_bits(d, set_id, users.drop_last(), total);
        match d.played_of(users.last() as int, set_id) {
            Some(b) => Seq::new(
                total as nat,
                |i: int| rest[i] || (i < b.bits().len() && b.bits()[i]),
            ),
            None => rest,
        }
    }
}

impl Data {
    /// The §4.5 topic selection: walk the candidate packages (the preferred
    /// one, or the active list in order), take the first that is feasible,
    /// and pick the lowest unplayed topic indices.
    pub fn find_topics(&self, game_data: &mut GameStartData) -> (res: Option<(String, Vec<usize>)>)
        requires
            self.inv(),
        ensures
            final(game_data).chat_ids == old(game_data).chat_ids,
            final(game_data).topic_count == old(game_data).topic_count,
            final(game_data).players == old(game_data).players,
            final(game_data).spectators == old(game_data).spectators,
            final(game_data).set_id is None,
            match res {
                Some(r) => {
                    &&& spec_feasible(
                        *self,
                        r.0@,
                        player_ids(old(game_data).players@),
                        old(game_data).topic_count as int,
                    )
                    &&& r.1@.len() == old(game_data).topic_count as int
                    &&& (forall|a: int, b: int|
                        0 <= a < b < r.1@.len() ==> #[trigger] r.1@[a] < #[trigger] r.1@[b])
                    &&& (forall|a: int|
                        0 <= a < r.1@.len() ==> ((#[trigger] r.1@[a]) as int) < crate::data::spec_set_total(*self, r.0@))
                    &&& (match old(game_data).set_id {
                        Some(p) => r.0@ == p@,
                        // the first feasible package in listing order wins
                        None => exists|w: int|
                            0 <= w < self.av().len() && (#[trigger] self.av()[w]) == r.0@
                                && forall|v: int|
                                0 <= v < w ==> !spec_feasible(
                                    *self,
                                    #[trigger] self.av()[v],
                                    player_ids(old(game_data).players@),
                                    old(game_data).topic_count as int,
                                ),
                    })
                },
                // no candidate package can host this group
                None => match old(game_data).set_id {
                    Some(p) => !spec_feasible(
                        *self,
                        p@,
                        player_ids(old(game_data).players@),
                        old(game_data).topic_count as int,
                    ),
                    None => forall|v: int|
                        0 <= v < self.av().len() ==> !spec_feasible(
                            *self,
                            #[trigger] self.av()[v],
                            player_ids(old(game_data).players@),
                            old(game_data).topic_count as int,
                        ),
                },
            },
    {
        let users = player_id_vec(&game_data.players);
        let topic_count = game_data.topic_count as usize;
        let set_ids: Vec<String> = match game_data.set_id.take() {
            None => self.get_active_set_ids(),
            Some(set_id) => {
                let mut v: Vec<String> = Vec::new();
                v.push(set_id);
                v
            },
        };
        let ghost chosen_from = set_ids;
        let m = set_ids.len();
        let mut s: usize = 0;
        while s < m
            invariant
                self.inv(),
                m == set_ids@.len(),
                s <= m,
                users@ == player_ids(old(game_data).players@),
                topic_count == old(game_data).topic_count as usize,
                game_data.chat_ids == old(game_data).chat_ids,
                game_data.topic_count == old(game_data).topic_count,
                game_data.players == old(game_data).players,
                game_data.spectators == old(game_data).spectators,
                game_data.set_id is None,
                match old(game_data).set_id {
                    Some(p) => set_ids@.len() == 1 && set_ids@[0]@ == p@,
                    None => set_ids.deep_view() == self.av(),
                },
                forall|v: int|
                    0 <= v < s ==> !spec_feasible(
                        *self,
                        (#[trigger] set_ids@[v])@,
                        player_ids(old(game_data).players@),
                        old(game_data).topic_count as int,
                    ),
            decreases m - s,
        {
            match self.try_set(&set_ids[s], &users, topic_count) {
                Some(topics) => {
                    proof {
                        match old(game_data).set_id {
                            Some(p) => {},
                            None => {
                                assert(self.av()[s as int] == set_ids@[s as int]@);
                                assert forall|v: int|
                                    0 <= v < s implies !spec_feasible(
                                    *self,
                                    #[trigger] self.av()[v],
                                    player_ids(old(game_data).players@),
                                    old(game_data).topic_count as int,
                                ) by {
                                    assert(self.av()[v] == set_ids@[v]@);
                                }
                            },
                        }
                    }
                    let id = set_ids[s].clone();
                    return Some((id, topics));
                },
                None => {},
            }
            s += 1;
        }
        proof {
            match old(game_data).set_id {
                Some(p) => {
                    assert(set_ids@[0]@ == p@);
                },
                None => {
                    assert forall|v: int|
                        0 <= v < self.av().len() implies !spec_feasible(
                        *self,
                        #[trigger] self.av()[v],
                        player_ids(old(game_data).players@),
                        old(game_data).topic_count as int,
                    ) by {
                        assert(self.av()[v] == set_ids@[v]@);
                    }
                },
            }
        }
        None
    }

    /// One candidate package: checks feasibility and picks the topics.
    fn try_set(&self, set_id: &String, users: &Vec<i64>, topic_count: usize) -> (res: Option<
        Vec<usize>,
    >)
        requires
            self.inv(),
        ensures
            (res is Some) == spec_feasible(*self, set_id@, users@, topic_count as int),
            match res {
                Some(topics) => {
                    &&& topics@.len() == topic_count
                    &&& (forall|a: int, b: int|
                        0 <= a < b < topics@.len() ==> #[trigger] topics@[a] < #[trigger] topics@[b])
                    &&& (forall|a: int|
                        0 <= a < topics@.len() ==> ((#[trigger] topics@[a]) as int) < crate::data::spec_set_total(*self, set_id@))
                },
                None => true,
            },
    {
        let set = match self.get_set(set_id) {
            None => {
                return None;
            },
            Some(set) => set,
        };
        let total = set.topics.len();
        let n = users.len();
        let mut i: usize = 0;
        while i < n
            invariant
                self.inv(),
                self.set_of(set_id@) is Some,
                n == users@.len(),
                i <= n,
                total as int == crate::data::spec_set_total(*self, set_id@),
                forall|j: int|
                    0 <= j < i ==> crate::data::spec_topics_remain(
                        *self,
                        (#[trigger] users@[j]) as int,
                        set_id@,
                    ) >= topic_count as int,
            decreases n - i,
        {
            let remain = self.topics_in_set_remain(users[i], set_id);
            if remain < topic_count {
                proof {
                    assert(crate::data::spec_topics_remain(*self, users@[i as int] as int, set_id@)
                        < topic_count as int);
                }
                return None;
            }
            i += 1;
        }
        // union of the played bitmaps
        let mut unused = crate::bitset::BitSet::new(total);
        let mut i: usize = 0;
        while i < n
            invariant
                self.inv(),
                self.set_of(set_id@) is Some,
                n == users@.len(),
                i <= n,
                total as int == crate::data::spec_set_total(*self, set_id@),
                unused.inv(),
                unused.bits().len() == total,
                unused.bits() == union_bits(*self, set_id@, users@.subrange(0, i as int), total as int),
            decreases n - i,
        {
            proof {
                assert(users@.subrange(0, i + 1).drop_last() =~= users@.subrange(0, i as int));
                assert(users@.subrange(0, i + 1).last() == users@[i as int]);
            }
            match self.get_played(users[i], set_id) {
                None => {},
                Some(bit_set) => {
                    let aligned = align_bits(&bit_set, total);
                    unused.unite(&aligned);
                    proof {
                        let prev = union_bits(*self, set_id@, users@.subrange(0, i as int), total as int);
                        let sp = self.played_of(users@[i as int] as int, set_id@);
                        match sp {
                            Some(stored) => {
                                assert(bit_set.bits() == stored.bits());
                                assert forall|j: int|
                                    0 <= j < total implies unused.bits()[j] == (prev[j] || (j
                                    < stored.bits().len() && stored.bits()[j])) by {
                                    assert(aligned.bits()[j] == (j < bit_set.bits().len()
                                        && bit_set.bits()[j]));
                                }
                                assert(unused.bits() =~= union_bits(
                                    *self,
                                    set_id@,
                                    users@.subrange(0, i + 1),
                                    total as int,
                                ));
                            },
                            None => {
                                assert(false);
                            },
                        }
                    }
                },
            }
            proof {
                if self.played_of(users@[i as int] as int, set_id@) is None {
                    assert(unused.bits() =~= union_bits(
                        *self,
                        set_id@,
                        users@.subrange(0, i + 1),
                        total as int,
                    ));
                }
            }
            i += 1;
        }
        proof {
            assert(users@.subrange(0, n as int) =~= users@);
        }
        proof {
            crate::bitset::lemma_popcount_le_len(unused.bits());
        }
        if unused.size > total || total - unused.size < topic_count {
            proof {
                assert(crate::data::spec_set_total(*self, set_id@) - popcount_union(
                    *self,
                    set_id@,
                    users@,
                ) < topic_count as int);
            }
            return None;
        }
        proof {
            assert(spec_feasible(*self, set_id@, users@, topic_count as int));
        }
        // the lowest unset indices
        let mut topics: Vec<usize> = Vec::new();
        let mut t: usize = 0;
        while t < total && topics.len() < topic_count
            invariant
                total == unused.bits().len(),
                unused.inv(),
                total - unused.size >= topic_count,
                t <= total,
                topics@.len() <= topic_count,
                forall|a: int, b: int| 0 <= a < b < topics@.len() ==> #[trigger] topics@[a] < #[trigger] topics@[b],
                forall|a: int| 0 <= a < topics@.len() ==> (#[trigger] topics@[a]) < t,
                topics@.len() < topic_count ==> count_unset(unused.bits(), t as int) == topics@.len(),
            decreases total - t,
        {
            if !unused.is_set(t) {
                topics.push(t);
            }
            proof {
                assert(count_unset(unused.bits(), t + 1) == count_unset(unused.bits(), t as int)
                    + (if !unused.bits()[t as int] {
                    1int
                } else {
                    0int
                }));
            }
            t += 1;
        }
        if topics.len() == topic_count {
            proof {
                crate::bitset::lemma_popcount_le_len(unused.bits());
                lemma_count_unset_total(unused.bits());
            }
            Some(topics)
        } else {
            proof {
                lemma_count_unset_total(unused.bits());
                assert(false);
            }
            None
        }
    }
}

/// How many of the first `t` bits are unset.
pub open spec fn count_unset(bits: Seq<bool>, t: int) -> int
    decreases t,
{
    if t <= 0 {
        0
    } else {
        count_unset(bits, t - 1) + (if t <= bits.len() && !bits[t - 1] {
            1int
        } else {
            0int
        })
    }
}

proof fn lemma_count_unset_total(bits: Seq<bool>)
    ensures
        count_unset(bits, bits.len() as int) == bits.len() - crate::bitset::popcount(bits),
    decreases bits.len(),
{
    if bits.len() > 0 {
        lemma_count_unset_total(bits.drop_last());
        assert forall|t: int|
            0 <= t < bits.len() implies count_unset(bits.drop_last(), t) == count_unset(
            bits,
            t,
        ) by {
            lemma_count_unset_prefix(bits, t);
        }
        assert(count_unset(bits, bits.len() as int) == count_unset(bits, bits.len() - 1) + (
        if !bits[bits.len() - 1] {
            1int
        } else {
            0int
        }));
        assert(count_unset(bits, bits.len() - 1) == count_unset(bits.drop_last(), bits.len() - 1));
        assert(count_unset(bits.drop_last(), bits.len() - 1) == count_unset(
            bits.drop_last(),
            bits.drop_last().len() as int,
        ));
    }
}

proof fn lemma_count_unset_prefix(bits: Seq<bool>, t: int)
    requires
        0 <= t < bits.len(),
    ensures
        count_unset(bits.drop_last(), t) == count_unset(bits, t),
    decreases t,
{
    if t > 0 {
        lemma_count_unset_prefix(bits, t - 1);
        assert(bits.drop_last()[t - 1] == bits[t - 1]);
    }
}

/// A copy of the bitmap stretched or cut to the package size.
fn align_bits(b: &BitSet, total: usize) -> (r: BitSet)
    ensures
        r.bits().len() == total,
        forall|i: int|
            0 <= i < total ==> r.bits()[i] == (i < b.bits().len() && b.bits()[i]),
{
    let mut set: Vec<bool> = Vec::new();
    let bl = b.set.len();
    let mut i: usize = 0;
    while i < total
        invariant
            bl == b.bits().len(),
            i <= total,
            set@.len() == i,
            forall|j: int| 0 <= j < i ==> set@[j] == (j < b.bits().len() && b.bits()[j]),
        decreases total - i,
    {
        if i < bl {
            set.push(b.set[i]);
        } else {
            set.push(false);
        }
        i += 1;
    }
    BitSet { size: 0, set }
}

pub open spec fn player_ids(ps: Seq<(i64, UserData)>) -> Seq<i64> {
    Seq::new(ps.len(), |i: int| ps[i].0)
}

fn player_id_vec(ps: &Vec<(i64, UserData)>) -> (r: Vec<i64>)
    ensures
        r@ == player_ids(ps@),
{
    let n = ps.len();
    let mut r: Vec<i64> = Vec::new();
    let mut i: usize = 0;
    while i < n
        invariant
            n == ps@.len(),
            i <= n,
            r@.len() == i,
            forall|j: int| 0 <= j < i ==> r@[j] == ps@[j].0,
        decreases n - i,
    {
        r.push(ps[i].0);
        i += 1;
    }
    proof {
        assert(r@ =~= player_ids(ps@));
    }
    r
}


/// A group chat's pending game configuration; a mutation bumps the version
/// that gates the five-minute expiry timer.
pub struct GameData {
    pub chat_id: i64,
    pub set_id: Option<String>,
    pub topic_count: u8,
    pub min_players: u8,
    pub max_players: u8,
    pub players: Vec<(i64, UserData)>,
    pub spectators: Vec<(i64, UserData)>,
    pub update_id: u32,
}

pub open spec fn pair_ids(ps: Seq<(i64, UserData)>) -> Seq<i64> {
    Seq::new(ps.len(), |i: int| ps[i].0)
}

impl GameData {
    pub open spec fn inv(&self) -> bool {
        &&& 1 <= self.min_players
        &&& self.min_players <= self.max_players
        &&& self.max_players <= 20
        &&& 1 <= self.topic_count <= 20
        &&& (forall|i: int, j: int|
            0 <= i < j < self.players@.len() ==> (#[trigger] self.players@[i]).0 != (
            #[trigger] self.players@[j]).0)
        &&& (forall|i: int, j: int|
            0 <= i < j < self.spectators@.len() ==> (#[trigger] self.spectators@[i]).0 != (
            #[trigger] self.spectators@[j]).0)
        &&& self.players@.len() <= self.max_players as int
    }

    /// A fresh proposal: six topics, three to four players.
    pub fn new(chat_id: i64) -> (r: GameData)
        ensures
            r.inv(),
            r.chat_id == chat_id,
            r.set_id is None,
            r.topic_count == 6,
            r.min_players == 3,
            r.max_players == 4,
            r.players@.len() == 0,
            r.spectators@.len() == 0,
            r.update_id == 1,
    {
        GameData {
            chat_id,
            set_id: None,
            topic_count: 6,
            min_players: 3,
            max_players: 4,
            players: Vec::new(),
            spectators: Vec::new(),
            update_id: 1,
        }
    }

    fn bump(&mut self)
        requires
            old(self).inv(),
        ensures
            final(self).inv(),
            *final(self) == (GameData {
                update_id: final(self).update_id,
                ..*old(self)
            }),
            final(self).update_id as int == if old(self).update_id < u32::MAX {
                old(self).update_id + 1
            } else {
                old(self).update_id as int
            },
    {
        if self.update_id < u32::MAX {
            self.update_id = self.update_id + 1;
        }
    }

    pub fn set_set_id(&mut self, set_id: String)
        requires
            old(self).inv(),
        ensures
            final(self).inv(),
            *final(self) == (GameData {
                set_id: Some(set_id),
                update_id: final(self).update_id,
                ..*old(self)
            }),
            final(self).update_id != old(self).update_id || old(self).update_id == u32::MAX,
    {
        self.set_id = Some(set_id);
        self.bump();
    }

    pub fn set_topic_count(&mut self, topic_count: u8)
        requires
            old(self).inv(),
            1 <= topic_count <= 20,
        ensures
            final(self).inv(),
            *final(self) == (GameData {
                topic_count,
                update_id: final(self).update_id,
                ..*old(self)
            }),
    {
        self.topic_count = topic_count;
        self.bump();
    }

    pub fn set_min_players(&mut self, min_players: u8)
        requires
            old(self).inv(),
            1 <= min_players <= old(self).max_players,
        ensures
            final(self).inv(),
            *final(self) == (GameData {
                min_players,
                update_id: final(self).update_id,
                ..*old(self)
            }),
    {
        self.min_players = min_players;
        self.bump();
    }

    pub fn set_max_players(&mut self, max_players: u8)
        requires
            old(self).inv(),
            old(self).min_players <= max_players <= 20,
            old(self).players@.len() <= max_players as int,
        ensures
            final(self).inv(),
            *final(self) == (GameData {
                max_players,
                update_id: final(self).update_id,
                ..*old(self)
            }),
    {
        self.max_players = max_players;
        self.bump();
    }

    /// Joins as a player; a spectator seat is given up first.
    pub fn add_player(&mut self, user_id: i64, user_data: UserData)
        requires
            old(self).inv(),
            pair_ids(old(self).players@).contains(user_id) || old(self).players@.len() < old(
                self,
            ).max_players as int,
        ensures
            final(self).inv(),
            pair_ids(final(self).players@).contains(user_id),
            !pair_ids(final(self).spectators@).contains(user_id),
            forall|u: i64|
                u != user_id ==> pair_ids(final(self).players@).contains(u) == pair_ids(
                    old(self).players@,
                ).contains(u),
            forall|u: i64|
                u != user_id ==> pair_ids(final(self).spectators@).contains(u) == pair_ids(
                    old(self).spectators@,
                ).contains(u),
            final(self).update_id as int == (if old(self).update_id < u32::MAX {
                old(self).update_id + 1
            } else {
                old(self).update_id as int
            }),
    {
        remove_pair(&mut self.spectators, user_id);
        remove_pair(&mut self.players, user_id);
        let ghost pre = self.players@;
        proof {
            if pair_ids(old(self).players@).contains(user_id) {
                assert(pre.len() < old(self).players@.len());
            } else {
                assert(pre.len() == old(self).players@.len());
            }
        }
        self.players.push((user_id, user_data));
        proof {
            assert(pair_ids(self.players@)[self.players@.len() - 1] == user_id);
            assert(pair_ids(self.players@).contains(user_id));
            assert forall|i: int, j: int|
                0 <= i < j < self.players@.len() implies (#[trigger] self.players@[i]).0 != (
            #[trigger] self.players@[j]).0 by {
                if j == self.players@.len() - 1 {
                    assert(self.players@[i] == pre[i]);
                    if pre[i].0 == user_id {
                        assert(pair_ids(pre)[i] == user_id);
                        assert(pair_ids(pre).contains(user_id));
                    }
                } else {
                    assert(self.players@[i] == pre[i]);
                    assert(self.players@[j] == pre[j]);
                }
            }
            assert forall|u: i64|
                u != user_id implies pair_ids(self.players@).contains(u) == pair_ids(pre).contains(
                u,
            ) by {
                if pair_ids(self.players@).contains(u) {
                    let q = choose|q: int|
                        0 <= q < pair_ids(self.players@).len() && pair_ids(self.players@)[q] == u;
                    assert(q < pre.len());
                    assert(pair_ids(pre)[q] == u);
                }
                if pair_ids(pre).contains(u) {
                    let q = choose|q: int| 0 <= q < pair_ids(pre).len() && pair_ids(pre)[q] == u;
                    assert(pair_ids(self.players@)[q] == u);
                }
            }
        }
        self.bump();
    }

    /// Joins as a spectator; the player seat, if any, is given up.
    pub fn add_spectator(&mut self, user_id: i64, user_data: UserData)
        requires
            old(self).inv(),
        ensures
            final(self).inv(),
            pair_ids(final(self).spectators@).contains(user_id),
            !pair_ids(final(self).players@).contains(user_id),
            forall|u: i64|
                u != user_id ==> pair_ids(final(self).players@).contains(u) == pair_ids(
                    old(self).players@,
                ).contains(u),
            forall|u: i64|
                u != user_id ==> pair_ids(final(self).spectators@).contains(u) == pair_ids(
                    old(self).spectators@,
                ).contains(u),
            final(self).update_id as int == (if old(self).update_id < u32::MAX {
                old(self).update_id + 1
            } else {
                old(self).update_id as int
            }),
    {
        remove_pair(&mut self.players, user_id);
        remove_pair(&mut self.spectators, user_id);
        let ghost pre = self.spectators@;
        self.spectators.push((user_id, user_data));
        proof {
            assert(pair_ids(self.spectators@)[self.spectators@.len() - 1] == user_id);
            assert(pair_ids(self.spectators@).contains(user_id));
            assert forall|i: int, j: int|
                0 <= i < j < self.spectators@.len() implies (#[trigger] self.spectators@[i]).0 != (
            #[trigger] self.spectators@[j]).0 by {
                if j == self.spectators@.len() - 1 {
                    assert(self.spectators@[i] == pre[i]);
                    if pre[i].0 == user_id {
                        assert(pair_ids(pre)[i] == user_id);
                        assert(pair_ids(pre).contains(user_id));
                    }
                } else {
                    assert(self.spectators@[i] == pre[i]);
                    assert(self.spectators@[j] == pre[j]);
                }
            }
            assert forall|u: i64|
                u != user_id implies pair_ids(self.spectators@).contains(u) == pair_ids(
                pre,
            ).contains(u) by {
                if pair_ids(self.spectators@).contains(u) {
                    let q = choose|q: int|
                        0 <= q < pair_ids(self.spectators@).len() && pair_ids(self.spectators@)[q]
                            == u;
                    assert(q < pre.len());
                    assert(pair_ids(pre)[q] == u);
                }
                if pair_ids(pre).contains(u) {
                    let q = choose|q: int| 0 <= q < pair_ids(pre).len() && pair_ids(pre)[q] == u;
                    assert(pair_ids(self.spectators@)[q] == u);
                }
            }
        }
        self.bump();
    }

    /// Withdraws from the proposal entirely.
    pub fn remove(&mut self, user_id: i64)
        requires
            old(self).inv(),
        ensures
            final(self).inv(),
            !pair_ids(final(self).players@).contains(user_id),
            !pair_ids(final(self).spectators@).contains(user_id),
            forall|u: i64|
                u != user_id ==> pair_ids(final(self).players@).contains(u) == pair_ids(
                    old(self).players@,
                ).contains(u),
            forall|u: i64|
                u != user_id ==> pair_ids(final(self).spectators@).contains(u) == pair_ids(
                    old(self).spectators@,
                ).contains(u),
            final(self).update_id as int == (if old(self).update_id < u32::MAX {
                old(self).update_id + 1
            } else {
                old(self).update_id as int
            }),
    {
        remove_pair(&mut self.players, user_id);
        remove_pair(&mut self.spectators, user_id);
        self.bump();
    }

    /// Hands the configuration to the room allocation.
    pub fn to_data(&self) -> (r: GameStartData)
        ensures
            r.chat_ids@ == seq![self.chat_id],
            r.set_id == self.set_id,
            r.topic_count == self.topic_count,
            r.players@.len() == self.players@.len(),
            forall|i: int|
                0 <= i < self.players@.len() ==> (#[trigger] r.players@[i]).0 == self.players@[i].0
                    && r.players@[i].1@ == self.players@[i].1@,
            r.spectators@.len() == self.spectators@.len(),
            forall|i: int|
                0 <= i < self.spectators@.len() ==> (#[trigger] r.spectators@[i]).0
                    == self.spectators@[i].0 && r.spectators@[i].1@ == self.spectators@[i].1@,
    {
        let mut ids: Vec<i64> = Vec::new();
        ids.push(self.chat_id);
        proof {
            assert(ids@ =~= seq![self.chat_id]);
        }
        let set_id = match &self.set_id {
            Some(sid) => Some(sid.clone()),
            None => None,
        };
        proof {
            match self.set_id {
                Some(_) => {},
                None => {},
            }
        }
        GameStartData {
            chat_ids: ids,
            set_id,
            topic_count: self.topic_count,
            players: clone_pairs(&self.players),
            spectators: clone_pairs(&self.spectators),
        }
    }
}

/// Removes every pair with the given key, keeping the order of the rest.
fn remove_pair(v: &mut Vec<(i64, UserData)>, user_id: i64)
    ensures
        !pair_ids(final(v)@).contains(user_id),
        forall|u: i64|
            u != user_id ==> pair_ids(final(v)@).contains(u) == pair_ids(old(v)@).contains(u),
        final(v)@.len() <= old(v)@.len(),
        (forall|i: int, j: int|
            0 <= i < j < old(v)@.len() ==> (#[trigger] old(v)@[i]).0 != (#[trigger] old(v)@[j]).0)
            ==> (forall|i: int, j: int|
            0 <= i < j < final(v)@.len() ==> (#[trigger] final(v)@[i]).0 != (
            #[trigger] final(v)@[j]).0),
        !pair_ids(old(v)@).contains(user_id) ==> *final(v) == *old(v),
        pair_ids(old(v)@).contains(user_id) ==> final(v)@.len() < old(v)@.len(),
{
    let ghost uniq0 = forall|i: int, j: int|
        0 <= i < j < old(v)@.len() ==> (#[trigger] old(v)@[i]).0 != (#[trigger] old(v)@[j]).0;
    loop
        invariant
            forall|u: i64|
                u != user_id ==> pair_ids(v@).contains(u) == pair_ids(old(v)@).contains(u),
            v@.len() <= old(v)@.len(),
            uniq0 == (forall|i: int, j: int|
                0 <= i < j < old(v)@.len() ==> (#[trigger] old(v)@[i]).0 != (
                #[trigger] old(v)@[j]).0),
            uniq0 ==> forall|i: int, j: int|
                0 <= i < j < v@.len() ==> (#[trigger] v@[i]).0 != (#[trigger] v@[j]).0,
            !pair_ids(old(v)@).contains(user_id) ==> *v == *old(v),
            pair_ids(old(v)@).contains(user_id) ==> (v@.len() < old(v)@.len() || pair_ids(
                v@,
            ).contains(user_id)),
        ensures
            !pair_ids(v@).contains(user_id),
            pair_ids(old(v)@).contains(user_id) ==> v@.len() < old(v)@.len(),
        decreases v@.len(),
    {
        let mut at: Option<usize> = None;
        let n = v.len();
        let mut i: usize = 0;
        while i < n
            invariant_except_break
                (at is None),
            invariant
                n == v@.len(),
                i <= n,
                forall|j: int| 0 <= j < i ==> (#[trigger] v@[j]).0 != user_id,
            ensures
                (match at {
                    Some(w) => w < n && v@[w as int].0 == user_id,
                    None => forall|j: int| 0 <= j < n ==> (#[trigger] v@[j]).0 != user_id,
                }),
            decreases n - i,
        {
            if v[i].0 == user_id {
                at = Some(i);
                break ;
            }
            i += 1;
        }
        match at {
            None => {
                proof {
                    assert forall|w: int|
                        0 <= w < pair_ids(v@).len() implies #[trigger] pair_ids(v@)[w]
                        != user_id by {
                        assert(pair_ids(v@)[w] == v@[w].0);
                    }
                }
                break ;
            },
            Some(w) => {
                let ghost pre = v@;
                v.remove(w);
                proof {
                    assert(pair_ids(pre)[w as int] == user_id);
                    assert(pair_ids(pre).contains(user_id));
                    assert forall|u: i64|
                        u != user_id implies pair_ids(v@).contains(u) == pair_ids(pre).contains(
                        u,
                    ) by {
                        if pair_ids(v@).contains(u) {
                            let q = choose|q: int|
                                0 <= q < pair_ids(v@).len() && pair_ids(v@)[q] == u;
                            let oq: int = if q < w as int {
                                q
                            } else {
                                q + 1
                            };
                            assert(v@[q] == pre[oq]);
                            assert(pair_ids(pre)[oq] == u);
                        }
                        if pair_ids(pre).contains(u) {
                            let q = choose|q: int|
                                0 <= q < pair_ids(pre).len() && pair_ids(pre)[q] == u;
                            assert(q != w as int);
                            let nq: int = if q < w as int {
                                q
                            } else {
                                q - 1
                            };
                            assert(v@[nq] == pre[q]);
                            assert(pair_ids(v@)[nq] == u);
                        }
                    }
                    if uniq0 {
                        assert forall|a: int, b: int|
                            0 <= a < b < v@.len() implies (#[trigger] v@[a]).0 != (
                        #[trigger] v@[b]).0 by {
                            let oa: int = if a < w as int {
                                a
                            } else {
                                a + 1
                            };
                            let ob: int = if b < w as int {
                                b
                            } else {
                                b + 1
                            };
                            assert(v@[a] == pre[oa]);
                            assert(v@[b] == pre[ob]);
                        }
                    }
                }
            },
        }
    }
}

fn clone_pairs(v: &Vec<(i64, UserData)>) -> (r: Vec<(i64, UserData)>)
    ensures
        r@.len() == v@.len(),
        forall|i: int|
            0 <= i < v@.len() ==> (#[trigger] r@[i]).0 == v@[i].0 && r@[i].1@ == v@[i].1@,
{
    let n = v.len();
    let mut r: Vec<(i64, UserData)> = Vec::new();
    let mut i: usize = 0;
    while i < n
        invariant
            n == v@.len(),
            i <= n,
            r@.len() == i,
            forall|j: int|
                0 <= j < i ==> (#[trigger] r@[j]).0 == v@[j].0 && r@[j].1@ == v@[j].1@,
        decreases n - i,
    {
        r.push((v[i].0, v[i].1.clone()));
        i += 1;
    }
    r
}

impl GameData {
    /// The group register command: a newcomer only gets a seat while one is
    /// free; a full table leaves the proposal untouched, its expiry clock
    /// included.
    pub fn register_player(&mut self, user_id: i64, user_data: UserData) -> (seated: bool)
        requires
            old(self).inv(),
        ensures
            final(self).inv(),
            seated == (pair_ids(old(self).players@).contains(user_id) || old(
                self,
            ).players@.len() < old(self).max_players as int),
            !seated ==> *final(self) == *old(self),
            seated ==> pair_ids(final(self).players@).contains(user_id) && !pair_ids(
                final(self).spectators@,
            ).contains(user_id) && final(self).update_id as int == (if old(self).update_id
                < u32::MAX {
                old(self).update_id + 1
            } else {
                old(self).update_id as int
            }),
    {
        let already = contains_pair(&self.players, user_id);
        if !already && self.players.len() >= self.max_players as usize {
            return false;
        }
        self.add_player(user_id, user_data);
        true
    }

    /// Whether the start command may proceed: enough players signed up.
    pub fn start_allowed(&self) -> (r: bool)
        ensures
            r == (self.players@.len() >= self.min_players as int),
    {
        self.players.len() >= self.min_players as usize
    }

    /// Whether a firing expiry timer is still current.
    pub fn expiry_current(&self, version: u32) -> (r: bool)
        ensures
            r == (self.update_id == version),
    {
        self.update_id == version
    }
}

fn contains_pair(v: &Vec<(i64, UserData)>, user_id: i64) -> (r: bool)
    ensures
        r == pair_ids(v@).contains(user_id),
{
    let n = v.len();
    let mut i: usize = 0;
    while i < n
        invariant
            n == v@.len(),
            i <= n,
            forall|j: int| 0 <= j < i ==> (#[trigger] v@[j]).0 != user_id,
        decreases n - i,
    {
        if v[i].0 == user_id {
            proof {
                assert(pair_ids(v@)[i as int] == user_id);
            }
            return true;
        }
        i += 1;
    }
    proof {
        if pair_ids(v@).contains(user_id) {
            let w = choose|w: int| 0 <= w < pair_ids(v@).len() && pair_ids(v@)[w] == user_id;
            assert(v@[w].0 == user_id);
        }
    }
    false
}

/// The first enrolled room with no live game, in enrolment order.
pub fn pick_free_room(rooms: &Vec<i64>, busy: &Vec<i64>) -> (r: Option<i64>)
    ensures
        match r {
            Some(c) => exists|i: int|
                0 <= i < rooms@.len() && (#[trigger] rooms@[i]) == c && !busy@.contains(c)
                    && forall|j: int| 0 <= j < i ==> busy@.contains(#[trigger] rooms@[j]),
            None => forall|i: int| 0 <= i < rooms@.len() ==> busy@.contains(#[trigger] rooms@[i]),
        },
{
    let n = rooms.len();
    let mut i: usize = 0;
    while i < n
        invariant
            n == rooms@.len(),
            i <= n,
            forall|j: int| 0 <= j < i ==> busy@.contains(#[trigger] rooms@[j]),
        decreases n - i,
    {
        let room = rooms[i];
        let m = busy.len();
        let mut k: usize = 0;
        let mut taken = false;
        while k < m && !taken
            invariant
                m == busy@.len(),
                k <= m,
                taken ==> busy@.contains(room),
                !taken ==> forall|w: int| 0 <= w < k ==> busy@[w] != room,
            decreases m - k, (if taken {
                0int
            } else {
                1int
            }),
        {
            if busy[k] == room {
                taken = true;
            } else {
                k += 1;
            }
        }
        if !taken {
            proof {
                assert(!busy@.contains(room)) by {
                    if busy@.contains(room) {
                        let w = choose|w: int| 0 <= w < busy@.len() && busy@[w] == room;
                    }
                }
                assert(rooms@[i as int] == room);
            }
            return Some(room);
        }
        i += 1;
    }
    None
}

/// The group commands that open or join a game.
pub open spec fn spec_opens_game(cmd: Seq<char>) -> bool {
    ||| cmd == ("game")@
    ||| cmd == ("игра")@
    ||| cmd == ("register")@
    ||| cmd == ("+")@
    ||| cmd == ("spectator")@
    ||| cmd == ("зритель")@
    ||| cmd == ("start")@
    ||| cmd == ("старт")@
}

/// While the process is shutting down, the commands that would open or join
/// a game are refused; everything else proceeds.
pub fn shutdown_gate(shutting_down: bool, command: &str) -> (proceed: bool)
    ensures
        proceed == !(shutting_down && spec_opens_game(command@)),
{
    if !shutting_down {
        return true;
    }
    let opens = crate::text::str_eq(command, "game") || crate::text::str_eq(command, "игра")
        || crate::text::str_eq(command, "register") || crate::text::str_eq(command, "+")
        || crate::text::str_eq(command, "spectator") || crate::text::str_eq(command, "зритель")
        || crate::text::str_eq(command, "start") || crate::text::str_eq(command, "старт");
    !opens
}
} // verus!
