use vstd::prelude::*;

use crate::data::{Data, UserData};
use crate::supervisor::GameStartData;

verus! {

/// A waiting player with the tolerance window of the moment.
pub struct QueueEntry {
    pub user_id: i64,
    pub user_data: UserData,
    pub min_rating: i64,
    pub max_rating: i64,
    pub will_play_with_three: bool,
}

/// Both tolerance windows accept the other rating and neither side has the
/// other banned.
pub open spec fn spec_compatible(d: Data, one: QueueEntry, another: QueueEntry) -> bool {
    &&& one.max_rating >= another.user_data.rating as i64
    &&& one.min_rating <= another.user_data.rating as i64
    &&& another.max_rating >= one.user_data.rating as i64
    &&& another.min_rating <= one.user_data.rating as i64
    &&& !d.ban_list_of(one.user_id as int).contains(another.user_id)
    &&& !d.ban_list_of(another.user_id as int).contains(one.user_id)
}

/// Every pair of the chosen entries is compatible.
pub open spec fn spec_group_compatible(d: Data, entries: Seq<QueueEntry>, idxs: Seq<usize>) -> bool {
    &&& (forall|a: int| 0 <= a < idxs.len() ==> ((#[trigger] idxs[a]) as int) < entries.len())
    &&& (forall|a: int, b: int|
        0 <= a < b < idxs.len() ==> spec_compatible(
            d,
            entries[(#[trigger] idxs[a]) as int],
            entries[(#[trigger] idxs[b]) as int],
        ))
}

fn compatible(data: &Data, one: &QueueEntry, another: &QueueEntry) -> (r: bool)
    ensures
        r == spec_compatible(*data, *one, *another),
{
    one.max_rating >= another.user_data.rating as i64 && one.min_rating
        <= another.user_data.rating as i64 && another.max_rating >= one.user_data.rating as i64
        && another.min_rating <= one.user_data.rating as i64 && !data.in_ban_list(
        one.user_id,
        another.user_id,
    ) && !data.in_ban_list(another.user_id, one.user_id)
}

/// One waiting entry of the matchmaking queue.
pub struct QueueItem {
    pub user_id: i64,
    pub message_id: i64,
    pub entered_at: u64,
    pub last_activity: u64,
}

/// The matchmaking queue: insertion-ordered waiting players.
pub struct PlayQueue {
    pub queue: Vec<QueueItem>,
}

pub open spec fn queue_ids(q: Seq<QueueItem>) -> Seq<i64> {
    Seq::new(q.len(), |i: int| q[i].user_id)
}

impl PlayQueue {
    /// No player waits twice.
    pub open spec fn inv(&self) -> bool {
        forall|i: int, j: int|
            0 <= i < j < self.queue@.len() ==> (#[trigger] self.queue@[i]).user_id != (
            #[trigger] self.queue@[j]).user_id
    }

    pub fn new() -> (r: PlayQueue)
        ensures
            r.inv(),
            r.queue@.len() == 0,
    {
        PlayQueue { queue: Vec::new() }
    }

    pub fn find_in_queue(&self, user_id: i64) -> (res: Option<usize>)
        ensures
            match res {
                Some(i) => i < self.queue@.len() && self.queue@[i as int].user_id == user_id,
                None => !queue_ids(self.queue@).contains(user_id),
            },
    {
        let n = self.queue.len();
        let mut i: usize = 0;
        while i < n
            invariant
                n == self.queue@.len(),
                i <= n,
                forall|j: int| 0 <= j < i ==> (#[trigger] self.queue@[j]).user_id != user_id,
            decreases n - i,
        {
            if self.queue[i].user_id == user_id {
                return Some(i);
            }
            i += 1;
        }
        proof {
            if queue_ids(self.queue@).contains(user_id) {
                let w = choose|w: int|
                    0 <= w < queue_ids(self.queue@).len() && queue_ids(self.queue@)[w] == user_id;
            }
        }
        None
    }

    /// A repeated enqueue refreshes the activity clock but keeps the entry
    /// time, so the tolerance keeps growing.
    pub fn refresh_entry(&mut self, user_id: i64, now: u64) -> (was_waiting: bool)
        requires
            old(self).inv(),
        ensures
            final(self).inv(),
            was_waiting == queue_ids(old(self).queue@).contains(user_id),
            final(self).queue@.len() == old(self).queue@.len(),
            forall|i: int|
                0 <= i < old(self).queue@.len() ==> {
                    let o = old(self).queue@[i];
                    let f = #[trigger] final(self).queue@[i];
                    if o.user_id == user_id {
                        f == (QueueItem { last_activity: now, ..o })
                    } else {
                        f == o
                    }
                },
    {
        match self.find_in_queue(user_id) {
            None => {
                proof {
                    assert forall|i: int|
                        0 <= i < old(self).queue@.len() implies (#[trigger] old(self).queue@[i]).user_id != user_id by {
                        if old(self).queue@[i].user_id == user_id {
                            assert(queue_ids(old(self).queue@)[i] == user_id);
                        }
                    }
                }
                false
            },
            Some(i) => {
                let item = QueueItem {
                    user_id,
                    message_id: self.queue[i].message_id,
                    entered_at: self.queue[i].entered_at,
                    last_activity: now,
                };
                self.queue[i] = item;
                proof {
                    assert(queue_ids(old(self).queue@)[i as int] == user_id);
                    assert forall|a: int, b: int|
                        0 <= a < b < self.queue@.len() implies (#[trigger] self.queue@[a]).user_id
                        != (#[trigger] self.queue@[b]).user_id by {
                        assert(self.queue@[a].user_id == old(self).queue@[a].user_id);
                        assert(self.queue@[b].user_id == old(self).queue@[b].user_id);
                    }
                }
                true
            },
        }
    }

    /// Stores the id of the queue-status message shown to the user.
    pub fn set_message(&mut self, user_id: i64, message_id: i64)
        requires
            old(self).inv(),
        ensures
            final(self).inv(),
            final(self).queue@.len() == old(self).queue@.len(),
            forall|i: int|
                0 <= i < old(self).queue@.len() ==> {
                    let o = old(self).queue@[i];
                    let f = #[trigger] final(self).queue@[i];
                    if o.user_id == user_id {
                        f == (QueueItem { message_id, ..o })
                    } else {
                        f == o
                    }
                },
    {
        match self.find_in_queue(user_id) {
            None => {
                proof {
                    assert forall|i: int|
                        0 <= i < old(self).queue@.len() implies (#[trigger] old(self).queue@[i]).user_id != user_id by {
                        if old(self).queue@[i].user_id == user_id {
                            assert(queue_ids(old(self).queue@)[i] == user_id);
                        }
                    }
                }
            },
            Some(i) => {
                let item = QueueItem {
                    user_id,
                    message_id,
                    entered_at: self.queue[i].entered_at,
                    last_activity: self.queue[i].last_activity,
                };
                self.queue[i] = item;
                proof {
                    assert forall|a: int, b: int|
                        0 <= a < b < self.queue@.len() implies (#[trigger] self.queue@[a]).user_id
                        != (#[trigger] self.queue@[b]).user_id by {
                        assert(self.queue@[a].user_id == old(self).queue@[a].user_id);
                        assert(self.queue@[b].user_id == old(self).queue@[b].user_id);
                    }
                }
            },
        }
    }

    /// A fresh player joins at the tail.
    pub fn push_entry(&mut self, user_id: i64, message_id: i64, now: u64)
        requires
            old(self).inv(),
            !queue_ids(old(self).queue@).contains(user_id),
        ensures
            final(self).inv(),
            final(self).queue@ == old(self).queue@.push(
                QueueItem { user_id, message_id, entered_at: now, last_activity: now },
            ),
    {
        self.queue.push(QueueItem { user_id, message_id, entered_at: now, last_activity: now });
        proof {
            assert forall|a: int, b: int|
                0 <= a < b < self.queue@.len() implies (#[trigger] self.queue@[a]).user_id != (
            #[trigger] self.queue@[b]).user_id by {
                if b == self.queue@.len() - 1 {
                    if old(self).queue@[a].user_id == user_id {
                        assert(queue_ids(old(self).queue@)[a] == user_id);
                    }
                } else {
                    assert(self.queue@[a] == old(self).queue@[a]);
                    assert(self.queue@[b] == old(self).queue@[b]);
                }
            }
        }
    }

    /// Leaving the queue removes the entry; asking again is a no-op.
    pub fn remove_user(&mut self, user_id: i64) -> (was_waiting: bool)
        requires
            old(self).inv(),
        ensures
            final(self).inv(),
            was_waiting == queue_ids(old(self).queue@).contains(user_id),
            !was_waiting ==> *final(self) == *old(self),
            was_waiting ==> exists|i: int|
                0 <= i < old(self).queue@.len() && old(self).queue@[i].user_id == user_id && final(self).queue@ == old(self).queue@.remove(i),
            !queue_ids(final(self).queue@).contains(user_id),
            forall|u: i64|
                u != user_id ==> queue_ids(final(self).queue@).contains(u) == queue_ids(
                    old(self).queue@,
                ).contains(u),
    {
        match self.find_in_queue(user_id) {
            None => {
                proof {
                    assert forall|i: int|
                        0 <= i < queue_ids(self.queue@).len() implies #[trigger] queue_ids(
                        self.queue@,
                    )[i] != user_id by {
                        assert(queue_ids(self.queue@)[i] == self.queue@[i].user_id);
                        if self.queue@[i].user_id == user_id {
                            assert(queue_ids(self.queue@)[i] == user_id);
                        }
                    }
                }
                false
            },
            Some(i) => {
                self.queue.remove(i);
                proof {
                    assert(queue_ids(old(self).queue@)[i as int] == user_id);
                    assert forall|a: int, b: int|
                        0 <= a < b < self.queue@.len() implies (#[trigger] self.queue@[a]).user_id
                        != (#[trigger] self.queue@[b]).user_id by {
                        let oa: int = if a < i as int {
                            a
                        } else {
                            a + 1
                        };
                        let ob: int = if b < i as int {
                            b
                        } else {
                            b + 1
                        };
                        assert(self.queue@[a] == old(self).queue@[oa]);
                        assert(self.queue@[b] == old(self).queue@[ob]);
                    }
                    assert forall|w: int|
                        0 <= w < queue_ids(self.queue@).len() implies #[trigger] queue_ids(
                        self.queue@,
                    )[w] != user_id by {
                        let ow: int = if w < i as int {
                            w
                        } else {
                            w + 1
                        };
                        assert(self.queue@[w] == old(self).queue@[ow]);
                        assert(old(self).queue@[ow].user_id != user_id);
                    }
                    assert forall|u: i64|
                        u != user_id implies queue_ids(self.queue@).contains(u) == queue_ids(
                        old(self).queue@,
                    ).contains(u) by {
                        if queue_ids(self.queue@).contains(u) {
                            let w = choose|w: int|
                                0 <= w < queue_ids(self.queue@).len() && queue_ids(
                                    self.queue@,
                                )[w] == u;
                            let ow: int = if w < i as int {
                                w
                            } else {
                                w + 1
                            };
                            assert(self.queue@[w] == old(self).queue@[ow]);
                            assert(queue_ids(old(self).queue@)[ow] == u);
                        }
                        if queue_ids(old(self).queue@).contains(u) {
                            let w = choose|w: int|
                                0 <= w < queue_ids(old(self).queue@).len() && queue_ids(
                                    old(self).queue@,
                                )[w] == u;
                            assert(old(self).queue@[w].user_id == u);
                            assert(w != i as int);
                            let nw: int = if w < i as int {
                                w
                            } else {
                                w - 1
                            };
                            assert(self.queue@[nw] == old(self).queue@[w]);
                            assert(queue_ids(self.queue@)[nw] == u);
                        }
                    }
                }
                true
            },
        }
    }

    pub fn queue_size(&self) -> (r: usize)
        ensures
            r == self.queue@.len(),
    {
        self.queue.len()
    }

    /// Drops everyone whose last activity is older than ten minutes and
    /// returns them for notification.
    pub fn expire(&mut self, now: u64) -> (removed: Vec<i64>)
        requires
            old(self).inv(),
        ensures
            final(self).inv(),
            forall|i: int|
                0 <= i < final(self).queue@.len() ==> now <= (#[trigger] final(self).queue@[i]).last_activity + 600000,
            final(self).queue@.len() + removed@.len() == old(self).queue@.len(),
    {
        let n = self.queue.len();
        let mut kept: Vec<QueueItem> = Vec::new();
        let mut removed: Vec<i64> = Vec::new();
        let mut i: usize = 0;
        while i < n
            invariant
                *self == *old(self),
                n == self.queue@.len(),
                forall|a: int, b: int|
                    0 <= a < b < n ==> (#[trigger] self.queue@[a]).user_id != (
                    #[trigger] self.queue@[b]).user_id,
                i <= n,
                kept@.len() + removed@.len() == i,
                forall|j: int|
                    0 <= j < kept@.len() ==> now <= (#[trigger] kept@[j]).last_activity + 600000,
                forall|j: int|
                    0 <= j < kept@.len() ==> exists|w: int|
                        0 <= w < i && #[trigger] kept@[j] == self.queue@[w],
                forall|a: int, b: int|
                    0 <= a < b < kept@.len() ==> (#[trigger] kept@[a]).user_id != (
                    #[trigger] kept@[b]).user_id,
            decreases n - i,
        {
            let it = &self.queue[i];
            let keep = now < it.last_activity || now - it.last_activity <= 600000;
            if keep {
                let copy = QueueItem {
                    user_id: it.user_id,
                    message_id: it.message_id,
                    entered_at: it.entered_at,
                    last_activity: it.last_activity,
                };
                let ghost prek = kept@;
                kept.push(copy);
                proof {
                    assert(kept@[kept@.len() - 1] == self.queue@[i as int]);
                    assert forall|a: int, b: int|
                        0 <= a < b < kept@.len() implies (#[trigger] kept@[a]).user_id != (
                    #[trigger] kept@[b]).user_id by {
                        if b == kept@.len() - 1 {
                            let w = choose|w: int|
                                0 <= w < i && #[trigger] prek[a] == self.queue@[w];
                            assert(self.queue@[w].user_id != self.queue@[i as int].user_id);
                        } else {
                            assert(kept@[a] == prek[a]);
                            assert(kept@[b] == prek[b]);
                        }
                    }
                    assert forall|j: int|
                        0 <= j < kept@.len() implies exists|w: int|
                            0 <= w < i + 1 && #[trigger] kept@[j] == self.queue@[w] by {
                        if j < kept@.len() - 1 {
                            let w = choose|w: int|
                                0 <= w < i && #[trigger] prek[j] == self.queue@[w];
                            assert(kept@[j] == self.queue@[w]);
                        } else {
                            assert(kept@[j] == self.queue@[i as int]);
                        }
                    }
                }
            } else {
                removed.push(it.user_id);
            }
            i += 1;
        }
        self.queue = kept;
        removed
    }
}



/// The tolerance entry a queue item carries at the given instant: the window
/// grows by one point per hundred milliseconds of waiting, held inside the
/// machine range, and a minute of patience admits three-player games.
pub open spec fn spec_entry(item: QueueItem, d: Data, now: u64) -> QueueEntry {
    let waited = if now >= item.entered_at {
        now - item.entered_at
    } else {
        0
    };
    let rating = (match d.user_of(item.user_id as int) {
        Some(u) => u.rating,
        None => 0,
    }) as i64;
    let delta = waited as int / 100;
    QueueEntry {
        user_id: item.user_id,
        user_data: arbitrary(),
        min_rating: if rating - delta >= i64::MIN as int {
            (rating - delta) as i64
        } else {
            i64::MIN
        },
        max_rating: if rating + delta <= i64::MAX as int {
            (rating + delta) as i64
        } else {
            i64::MAX
        },
        will_play_with_three: waited >= 60000,
    }
}

/// The windows and patience flags of the whole queue at one instant; the
/// profile payload is irrelevant to matching and left out of the claim.
pub open spec fn entries_ok(entries: Seq<QueueEntry>, q: Seq<QueueItem>, d: Data, now: u64) -> bool {
    &&& entries.len() == q.len()
    &&& forall|i: int|
        0 <= i < q.len() ==> {
            let e = #[trigger] entries[i];
            let m = spec_entry(q[i], d, now);
            e.user_id == m.user_id && e.min_rating == m.min_rating && e.max_rating == m.max_rating
                && e.will_play_with_three == m.will_play_with_three
        }
}

/// Four players are required while anyone has waited under a minute.
pub open spec fn spec_min_party(q: Seq<QueueItem>, now: u64) -> int {
    if exists|i: int|
        0 <= i < q.len() && (if now >= (#[trigger] q[i]).entered_at {
            now - q[i].entered_at
        } else {
            0
        }) < 60000 {
        4
    } else {
        3
    }
}

/// The players a start hands over, drawn from the chosen entries in order.
pub open spec fn chosen_players(entries: Seq<QueueEntry>, idxs: Seq<usize>) -> Seq<(i64, UserData)> {
    Seq::new(idxs.len(), |i: int| (entries[idxs[i] as int].user_id, entries[idxs[i] as int].user_data))
}

/// A found match: the subset is pairwise compatible, sized as asked, drawn
/// without repetition, and—unless four play—made of players patient enough
/// for three.
pub open spec fn spec_match_found(
    d: Data,
    entries: Seq<QueueEntry>,
    num_players: int,
    r: (GameStartData, String, Vec<usize>),
) -> bool {
    exists|idxs: Seq<usize>|
        {
            &&& idxs.len() == num_players
            &&& (forall|a: int, b: int| 0 <= a < b < idxs.len() ==> #[trigger] idxs[a] != #[trigger] idxs[b])
            &&& spec_group_compatible(d, entries, idxs)
            &&& (num_players != 4 ==> forall|a: int|
                0 <= a < idxs.len() ==> entries[(#[trigger] idxs[a]) as int].will_play_with_three)
            &&& r.0.players@ == chosen_players(entries, idxs)
            &&& r.0.chat_ids@ == Seq::new(idxs.len(), |i: int| entries[idxs[i] as int].user_id)
        }
}

/// The backtracking subset search of the matchmaker: indices run downward,
/// and a subset only survives if some package fits it.
fn do_find_game(
    data: &Data,
    players: &Vec<QueueEntry>,
    num_players: usize,
    left_players: usize,
    limit: usize,
    chosen: &mut Vec<usize>,
) -> (res: Option<(GameStartData, String, Vec<usize>)>)
    requires
        data.inv(),
        limit <= players@.len(),
        old(chosen)@.len() + left_players == num_players,
        num_players <= 4,
        forall|a: int| 0 <= a < old(chosen)@.len() ==> ((#[trigger] old(chosen)@[a]) as int) < players@.len(),
        forall|a: int, b: int|
            0 <= a < b < old(chosen)@.len() ==> #[trigger] old(chosen)@[a] != #[trigger] old(chosen)@[b],
        spec_group_compatible(*data, players@, old(chosen)@),
        forall|a: int| 0 <= a < old(chosen)@.len() ==> limit <= ((#[trigger] old(chosen)@[a]) as int),
        num_players != 4 ==> forall|a: int|
            0 <= a < old(chosen)@.len() ==> players@[(#[trigger] old(chosen)@[a]) as int].will_play_with_three,
    ensures
        final(chosen)@ == old(chosen)@,
        match res {
            Some(r) => spec_match_found(*data, players@, num_players as int, r),
            None => true,
        },
    decreases left_players, limit,
{
    if left_players == 0 {
        let mut ids: Vec<i64> = Vec::new();
        let mut ps: Vec<(i64, UserData)> = Vec::new();
        let n = chosen.len();
        let mut i: usize = 0;
        while i < n
            invariant
                n == chosen@.len(),
                i <= n,
                forall|a: int| 0 <= a < n ==> ((#[trigger] chosen@[a]) as int) < players@.len(),
                ids@.len() == i,
                ps@.len() == i,
                forall|j: int|
                    0 <= j < i ==> #[trigger] ps@[j] == (
                        players@[chosen@[j] as int].user_id,
                        players@[chosen@[j] as int].user_data,
                    ),
                forall|j: int| 0 <= j < i ==> #[trigger] ids@[j] == players@[chosen@[j] as int].user_id,
            decreases n - i,
        {
            let idx = chosen[i];
            ids.push(players[idx].user_id);
            let ud = players[idx].user_data.clone();
            proof {
                assert(ud@ == players@[chosen@[i as int] as int].user_data@);
            }
            let ud2 = UserData {
                display_name: players[idx].user_data.display_name.clone(),
                rating: players[idx].user_data.rating,
            };
            ps.push((players[idx].user_id, ud2));
            proof {
                assert(ps@[i as int].1.display_name@ == players@[chosen@[i as int] as int].user_data.display_name@);
            }
            i += 1;
        }
        let mut game_start_data = GameStartData {
            chat_ids: ids,
            set_id: None,
            topic_count: 6,
            players: ps,
            spectators: Vec::new(),
        };
        let ghost built = game_start_data.players@;
        match data.find_topics(&mut game_start_data) {
            Some((set_id, topics)) => {
                proof {
                    assert(game_start_data.players@ == built);
                }
                let r = (game_start_data, set_id, topics);
                proof {
                    assert forall|j: int|
                        0 <= j < built.len() implies #[trigger] built[j] == chosen_players(
                        players@,
                        chosen@,
                    )[j] by {}
                    assert(built =~= chosen_players(players@, chosen@));
                    assert(spec_match_found(*data, players@, num_players as int, r)) by {
                        let idxs = chosen@;
                        assert(idxs.len() == num_players);
                        assert(r.0.players@ == chosen_players(players@, idxs));
                        assert(r.0.chat_ids@ =~= Seq::new(
                            idxs.len(),
                            |i: int| players@[idxs[i] as int].user_id,
                        ));
                    }
                }
                Some(r)
            },
            None => None,
        }
    } else if left_players > limit {
        None
    } else {
        let mut next: usize = left_players - 1;
        while next < limit
            invariant
                data.inv(),
                limit <= players@.len(),
                chosen@ == old(chosen)@,
                chosen@.len() + left_players == num_players,
                num_players <= 4,
                1 <= left_players,
                left_players <= limit,
                forall|a: int| 0 <= a < chosen@.len() ==> ((#[trigger] chosen@[a]) as int) < players@.len(),
                forall|a: int, b: int|
                    0 <= a < b < chosen@.len() ==> #[trigger] chosen@[a] != #[trigger] chosen@[b],
                spec_group_compatible(*data, players@, chosen@),
                forall|a: int| 0 <= a < chosen@.len() ==> limit <= ((#[trigger] chosen@[a]) as int),
                num_players != 4 ==> forall|a: int|
                    0 <= a < chosen@.len() ==> players@[(#[trigger] chosen@[a]) as int].will_play_with_three,
            decreases limit - next,
        {
            if num_players == 4 || players[next].will_play_with_three {
                let mut good = true;
                let m = chosen.len();
                let mut k: usize = 0;
                while k < m
                    invariant
                        data.inv(),
                        m == chosen@.len(),
                        k <= m,
                        next < players@.len(),
                        forall|a: int| 0 <= a < m ==> ((#[trigger] chosen@[a]) as int) < players@.len(),
                        good ==> forall|a: int|
                            0 <= a < k ==> spec_compatible(
                                *data,
                                players@[(#[trigger] chosen@[a]) as int],
                                players@[next as int],
                            ),
                    decreases m - k,
                {
                    if !compatible(data, &players[chosen[k]], &players[next]) {
                        good = false;
                        proof {
                            assert(!good);
                        }
                        k = m;
                    } else {
                        k += 1;
                    }
                }
                if good {
                    let ghost pre = chosen@;
                    chosen.push(next);
                    proof {
                        assert(chosen@.drop_last() =~= pre);
                        assert forall|a: int, b: int|
                            0 <= a < b < chosen@.len() implies spec_compatible(
                            *data,
                            players@[(#[trigger] chosen@[a]) as int],
                            players@[(#[trigger] chosen@[b]) as int],
                        ) by {
                            if b == chosen@.len() - 1 {
                                assert(chosen@[a] == pre[a]);
                                assert(chosen@[b] == next);
                            } else {
                                assert(chosen@[a] == pre[a]);
                                assert(chosen@[b] == pre[b]);
                            }
                        }
                        assert forall|a: int, b: int|
                            0 <= a < b < chosen@.len() implies #[trigger] chosen@[a]
                            != #[trigger] chosen@[b] by {
                            if b == chosen@.len() - 1 {
                                assert(limit <= pre[a] as int);
                            }
                        }
                    }
                    let found = do_find_game(
                        data,
                        players,
                        num_players,
                        left_players - 1,
                        next,
                        chosen,
                    );
                    match found {
                        Some(res2) => {
                            chosen.pop();
                            proof {
                                assert(chosen@ =~= pre);
                            }
                            return Some(res2);
                        },
                        None => {
                            chosen.pop();
                            proof {
                                assert(chosen@ =~= pre);
                            }
                        },
                    }
                }
            }
            next += 1;
        }
        None
    }
}

impl PlayQueue {
    /// One matchmaking pass over the queue, the per-tick search: tolerances
    /// grow with the wait, four seats are tried first and three only when
    /// every waiter is patient enough, and a found group must fit some
    /// package; the matched players leave the queue.
    pub fn find_games(&mut self, data: &Data, now: u64) -> (res: Option<(GameStartData, String, Vec<usize>)>)
        requires
            old(self).inv(),
            data.inv(),
            forall|i: int|
                0 <= i < old(self).queue@.len() ==> data.user_of(
                    (#[trigger] old(self).queue@[i]).user_id as int,
                ) is Some,
        ensures
            final(self).inv(),
            res is None ==> *final(self) == *old(self),
            match res {
                Some(r) => {
                    &&& exists|entries: Seq<QueueEntry>|
                        #[trigger] entries_ok(entries, old(self).queue@, *data, now) && (
                        spec_match_found(*data, entries, 4, r) || (spec_min_party(
                            old(self).queue@,
                            now,
                        ) == 3 && spec_match_found(*data, entries, 3, r)))
                    &&& forall|u: i64|
                        queue_ids(final(self).queue@).contains(u) == (queue_ids(
                            old(self).queue@,
                        ).contains(u) && !r.0.chat_ids@.contains(u))
                },
                None => true,
            },
    {
        if self.queue.len() < 3 {
            return None;
        }
        let n = self.queue.len();
        let mut entries: Vec<QueueEntry> = Vec::new();
        let mut min_num_players: usize = 3;
        let mut i: usize = 0;
        while i < n
            invariant
                *self == *old(self),
                data.inv(),
                n == self.queue@.len(),
                i <= n,
                entries@.len() == i,
                3 <= min_num_players <= 4,
                forall|j: int|
                    0 <= j < n ==> data.user_of(
                        (#[trigger] self.queue@[j]).user_id as int,
                    ) is Some,
                forall|j: int|
                    0 <= j < i ==> {
                        let e = #[trigger] entries@[j];
                        let m = spec_entry(self.queue@[j], *data, now);
                        e.user_id == m.user_id && e.min_rating == m.min_rating && e.max_rating
                            == m.max_rating && e.will_play_with_three == m.will_play_with_three
                    },
                min_num_players == 4 <==> exists|j: int|
                    0 <= j < i && (if now >= (#[trigger] self.queue@[j]).entered_at {
                        now - self.queue@[j].entered_at
                    } else {
                        0
                    }) < 60000,
            decreases n - i,
        {
            let item = &self.queue[i];
            let since_entered: u64 = if now >= item.entered_at {
                now - item.entered_at
            } else {
                0
            };
            let user_data = match data.get_user_data(&item.user_id) {
                Some(u) => u,
                None => {
                    proof {
                        assert(false);
                    }
                    UserData { display_name: String::new(), rating: 0 }
                },
            };
            let delta: i64 = (since_entered / 100) as i64;
            let rating = user_data.rating as i64;
            let min_rating = if rating >= i64::MIN + delta {
                rating - delta
            } else {
                i64::MIN
            };
            let max_rating = if rating <= i64::MAX - delta {
                rating + delta
            } else {
                i64::MAX
            };
            entries.push(
                QueueEntry {
                    user_id: item.user_id,
                    user_data,
                    min_rating,
                    max_rating,
                    will_play_with_three: since_entered >= 60000,
                },
            );
            if since_entered < 60000 {
                min_num_players = 4;
            }
            i += 1;
        }
        proof {
            assert(entries_ok(entries@, self.queue@, *data, now));
            assert(spec_min_party(self.queue@, now) == min_num_players as int);
        }
        let ghost oldq = self.queue@;
        let mut num_players: usize = 4;
        while num_players >= min_num_players
            invariant
                *self == *old(self),
                self.inv(),
                data.inv(),
                oldq == old(self).queue@,
                3 <= min_num_players <= 4,
                min_num_players - 1 <= num_players <= 4,
                entries_ok(entries@, oldq, *data, now),
                spec_min_party(oldq, now) == min_num_players as int,
            decreases num_players,
        {
            let mut chosen: Vec<usize> = Vec::new();
            let lim = entries.len();
            match do_find_game(data, &entries, num_players, num_players, lim, &mut chosen) {
                Some(res2) => {
                    let ids = crate::data::copy_i64_vec(&res2.0.chat_ids);
                    let m = ids.len();
                    proof {
                        assert(ids@.subrange(0, 0) =~= Seq::<i64>::empty());
                        assert forall|u: i64|
                            queue_ids(self.queue@).contains(u) == (queue_ids(oldq).contains(u)
                                && !ids@.subrange(0, 0).contains(u)) by {
                            assert(!Seq::<i64>::empty().contains(u));
                        }
                    }
                    let mut k: usize = 0;
                    while k < m
                        invariant
                            self.inv(),
                            m == ids@.len(),
                            k <= m,
                            forall|u: i64|
                                queue_ids(self.queue@).contains(u) == (queue_ids(oldq).contains(u)
                                    && !ids@.subrange(0, k as int).contains(u)),
                        decreases m - k,
                    {
                        let ghost mid = self.queue@;
                        proof {
                            assert forall|u: i64|
                                queue_ids(mid).contains(u) == (queue_ids(oldq).contains(u)
                                    && !ids@.subrange(0, k as int).contains(u)) by {}
                        }
                        self.remove_user(ids[k]);
                        proof {
                            assert forall|u: i64|
                                queue_ids(self.queue@).contains(u) == (queue_ids(oldq).contains(u)
                                    && !ids@.subrange(0, k + 1).contains(u)) by {
                                if u == ids@[k as int] {
                                    assert(ids@.subrange(0, k + 1)[k as int] == u);
                                    assert(ids@.subrange(0, k + 1).contains(u));
                                } else {
                                    assert(queue_ids(self.queue@).contains(u) == queue_ids(
                                        mid,
                                    ).contains(u));
                                    assert(ids@.subrange(0, k + 1).contains(u) == ids@.subrange(
                                        0,
                                        k as int,
                                    ).contains(u)) by {
                                        if ids@.subrange(0, k + 1).contains(u) {
                                            let w = choose|w: int|
                                                0 <= w < ids@.subrange(0, k + 1).len()
                                                    && #[trigger] ids@.subrange(0, k + 1)[w] == u;
                                            assert(w != k as int);
                                            assert(ids@.subrange(0, k as int)[w] == u);
                                        }
                                        if ids@.subrange(0, k as int).contains(u) {
                                            let w = choose|w: int|
                                                0 <= w < ids@.subrange(0, k as int).len()
                                                    && #[trigger] ids@.subrange(0, k as int)[w]
                                                    == u;
                                            assert(ids@.subrange(0, k + 1)[w] == u);
                                        }
                                    }
                                }
                            }
                        }
                        k += 1;
                    }
                    proof {
                        assert(ids@.subrange(0, m as int) =~= ids@);
                        assert(ids@ == res2.0.chat_ids@);
                        if num_players == 3 {
                            assert(spec_min_party(oldq, now) == 3);
                        }
                        assert(entries_ok(entries@, oldq, *data, now) && (spec_match_found(
                            *data,
                            entries@,
                            4,
                            res2,
                        ) || (spec_min_party(oldq, now) == 3 && spec_match_found(
                            *data,
                            entries@,
                            3,
                            res2,
                        ))));
                    }
                    return Some(res2);
                },
                None => {},
            }
            if num_players == 0 {
                return None;
            }
            num_players = num_players - 1;
        }
        None
    }
}

/// Joining and immediately leaving puts the queue back exactly as it was.
pub proof fn lemma_enqueue_dequeue(q: Seq<QueueItem>, e: QueueItem)
    requires
        !queue_ids(q).contains(e.user_id),
    ensures
        queue_ids(q.push(e)).contains(e.user_id),
        q.push(e).remove(q.len() as int) == q,
{
    assert(queue_ids(q.push(e))[q.len() as int] == e.user_id);
    assert(q.push(e).remove(q.len() as int) =~= q);
}
} // verus!
