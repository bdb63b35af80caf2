use vstd::prelude::*;

use crate::bot::KeyboardOptions;
use crate::data::{UserData, UserDataView};

verus! {

// ---------------------------------------------------------------------------
// Game phases
// ---------------------------------------------------------------------------

/// The persisted phase of a running game.
pub enum GameState {
    BeforeGame(bool, u8),
    BeforeTopic(bool),
    BeforeFirstQuestion(bool),
    BeforeQuestion(bool),
    Question(i64, Vec<i64>),
    Answer(i64, Vec<i64>, i64),
    AfterQuestion(bool, Vec<i64>, Option<i64>),
    SpecialScore(bool),
    AfterGame,
}

pub ghost enum GameStateView {
    BeforeGame(bool, int),
    BeforeTopic(bool),
    BeforeFirstQuestion(bool),
    BeforeQuestion(bool),
    Question(int, Seq<i64>),
    Answer(int, Seq<i64>, i64),
    AfterQuestion(bool, Seq<i64>, Option<i64>),
    SpecialScore(bool),
    AfterGame,
}

impl View for GameState {
    type V = GameStateView;

    open spec fn view(&self) -> GameStateView {
        match self {
            GameState::BeforeGame(p, m) => GameStateView::BeforeGame(*p, *m as int),
            GameState::BeforeTopic(p) => GameStateView::BeforeTopic(*p),
            GameState::BeforeFirstQuestion(p) => GameStateView::BeforeFirstQuestion(*p),
            GameState::BeforeQuestion(p) => GameStateView::BeforeQuestion(*p),
            GameState::Question(m, a) => GameStateView::Question(*m as int, a@),
            GameState::Answer(m, a, c) => GameStateView::Answer(*m as int, a@, *c),
            GameState::AfterQuestion(p, a, c) => GameStateView::AfterQuestion(*p, a@, *c),
            GameState::SpecialScore(p) => GameStateView::SpecialScore(*p),
            GameState::AfterGame => GameStateView::AfterGame,
        }
    }
}

pub open spec fn spec_pausable(s: GameStateView) -> bool {
    match s {
        GameStateView::Question(_, _) => false,
        GameStateView::Answer(_, _, _) => false,
        GameStateView::AfterGame => false,
        _ => true,
    }
}

pub open spec fn spec_paused(s: GameStateView) -> bool {
    match s {
        GameStateView::BeforeGame(p, _) => p,
        GameStateView::BeforeTopic(p) => p,
        GameStateView::BeforeFirstQuestion(p) => p,
        GameStateView::BeforeQuestion(p) => p,
        GameStateView::AfterQuestion(p, _, _) => p,
        GameStateView::SpecialScore(p) => p,
        _ => false,
    }
}

/// The same phase with its pause flag set as given.
pub open spec fn spec_with_pause(s: GameStateView, to: bool) -> GameStateView {
    match s {
        GameStateView::BeforeGame(_, m) => GameStateView::BeforeGame(to, m),
        GameStateView::BeforeTopic(_) => GameStateView::BeforeTopic(to),
        GameStateView::BeforeFirstQuestion(_) => GameStateView::BeforeFirstQuestion(to),
        GameStateView::BeforeQuestion(_) => GameStateView::BeforeQuestion(to),
        GameStateView::AfterQuestion(_, a, c) => GameStateView::AfterQuestion(to, a, c),
        GameStateView::SpecialScore(_) => GameStateView::SpecialScore(to),
        other => other,
    }
}

impl GameState {
    /// Whether the game still waits for players to arrive.
    pub fn before(&self) -> (r: bool)
        ensures
            r == (self@ is BeforeGame),
    {
        match self {
            GameState::BeforeGame(_, _) => true,
            _ => false,
        }
    }

    pub fn keyboard_options(&self) -> (r: KeyboardOptions)
        ensures
            r == spec_keyboard(self@),
    {
        match self {
            GameState::BeforeGame(_, _) => KeyboardOptions::Remove,
            GameState::BeforeTopic(_) => KeyboardOptions::Remove,
            GameState::BeforeFirstQuestion(_) => KeyboardOptions::Remove,
            GameState::BeforeQuestion(_) => KeyboardOptions::Plus,
            GameState::Question(_, _) => KeyboardOptions::Plain,
            GameState::Answer(_, _, _) => KeyboardOptions::Remove,
            GameState::AfterQuestion(false, _, _) => KeyboardOptions::YesNoPause,
            GameState::AfterQuestion(true, _, _) => KeyboardOptions::YesNoContinue,
            GameState::SpecialScore(_) => KeyboardOptions::Remove,
            GameState::AfterGame => KeyboardOptions::Remove,
        }
    }

    /// Sets the pause flag on a pausable phase; the result is the flag's old
    /// value on pausable phases and false elsewhere, as the callers expect.
    pub fn set_pause(&mut self, to_pause: bool) -> (was: bool)
        ensures
            spec_pausable(old(self)@) ==> final(self)@ == spec_with_pause(old(self)@, to_pause)
                && was == spec_paused(old(self)@),
            !spec_pausable(old(self)@) ==> final(self)@ == old(self)@ && was == false,
    {
        match self {
            GameState::BeforeGame(paused, _) => {
                let was = *paused;
                *paused = to_pause;
                was
            },
            GameState::BeforeTopic(paused) => {
                let was = *paused;
                *paused = to_pause;
                was
            },
            GameState::BeforeFirstQuestion(paused) => {
                let was = *paused;
                *paused = to_pause;
                was
            },
            GameState::BeforeQuestion(paused) => {
                let was = *paused;
                *paused = to_pause;
                was
            },
            GameState::AfterQuestion(paused, _, _) => {
                let was = *paused;
                *paused = to_pause;
                was
            },
            GameState::SpecialScore(paused) => {
                let was = *paused;
                *paused = to_pause;
                was
            },
            GameState::Question(_, _) => false,
            GameState::Answer(_, _, _) => false,
            GameState::AfterGame => false,
        }
    }

    pub fn paused(&self) -> (r: bool)
        requires
            spec_pausable(self@),
        ensures
            r == spec_paused(self@),
    {
        match self {
            GameState::BeforeGame(paused, _) => *paused,
            GameState::BeforeTopic(paused) => *paused,
            GameState::BeforeFirstQuestion(paused) => *paused,
            GameState::BeforeQuestion(paused) => *paused,
            GameState::AfterQuestion(paused, _, _) => *paused,
            GameState::SpecialScore(paused) => *paused,
            GameState::Question(_, _) => false,
            GameState::Answer(_, _, _) => false,
            GameState::AfterGame => false,
        }
    }

    pub fn pausable(&self) -> (r: bool)
        ensures
            r == spec_pausable(self@),
    {
        match self {
            GameState::BeforeGame(..) => true,
            GameState::BeforeTopic(..) => true,
            GameState::AfterQuestion(..) => true,
            GameState::SpecialScore(..) => true,
            GameState::BeforeFirstQuestion(..) => true,
            GameState::BeforeQuestion(..) => true,
            GameState::Question(..) => false,
            GameState::Answer(..) => false,
            GameState::AfterGame => false,
        }
    }
}

pub open spec fn spec_keyboard(s: GameStateView) -> KeyboardOptions {
    match s {
        GameStateView::BeforeGame(_, _) => KeyboardOptions::Remove,
        GameStateView::BeforeTopic(_) => KeyboardOptions::Remove,
        GameStateView::BeforeFirstQuestion(_) => KeyboardOptions::Remove,
        GameStateView::BeforeQuestion(_) => KeyboardOptions::Plus,
        GameStateView::Question(_, _) => KeyboardOptions::Plain,
        GameStateView::Answer(_, _, _) => KeyboardOptions::Remove,
        GameStateView::AfterQuestion(p, _, _) => if p {
            KeyboardOptions::YesNoContinue
        } else {
            KeyboardOptions::YesNoPause
        },
        GameStateView::SpecialScore(_) => KeyboardOptions::Remove,
        GameStateView::AfterGame => KeyboardOptions::Remove,
    }
}

// ---------------------------------------------------------------------------
// The persisted game snapshot
// ---------------------------------------------------------------------------

/// One participant: profile, score, and whether they entered the play room.
pub struct PlayerState {
    pub user: UserData,
    pub score: i64,
    pub present: bool,
}

pub ghost struct PlayerStateView {
    pub user: UserDataView,
    pub score: int,
    pub present: bool,
}

impl View for PlayerState {
    type V = PlayerStateView;

    open spec fn view(&self) -> PlayerStateView {
        PlayerStateView { user: self.user@, score: self.score as int, present: self.present }
    }
}

impl Clone for PlayerState {
    fn clone(&self) -> (r: PlayerState)
        ensures
            r@ == self@,
    {
        PlayerState { user: self.user.clone(), score: self.score, present: self.present }
    }
}

/// Everything a game needs to survive a restart.
pub struct Game {
    pub chat_id: i64,
    pub source_chats: Vec<i64>,
    pub game_state: GameState,
    pub set_id: String,
    pub topics: Vec<usize>,
    pub current_topic: usize,
    pub current_question: usize,
    pub players: Vec<(i64, PlayerState)>,
    pub spectators: Vec<i64>,
    pub invite_link: String,
}

pub ghost struct GameView {
    pub chat_id: i64,
    pub source_chats: Seq<i64>,
    pub game_state: GameStateView,
    pub set_id: Seq<char>,
    pub topics: Seq<usize>,
    pub current_topic: int,
    pub current_question: int,
    pub players: Seq<(i64, PlayerStateView)>,
    pub spectators: Seq<i64>,
    pub invite_link: Seq<char>,
}

impl View for Game {
    type V = GameView;

    open spec fn view(&self) -> GameView {
        GameView {
            chat_id: self.chat_id,
            source_chats: self.source_chats@,
            game_state: self.game_state@,
            set_id: self.set_id@,
            topics: self.topics@,
            current_topic: self.current_topic as int,
            current_question: self.current_question as int,
            players: Seq::new(
                self.players@.len(),
                |i: int| (self.players@[i].0, self.players@[i].1@),
            ),
            spectators: self.spectators@,
            invite_link: self.invite_link@,
        }
    }
}

/// Whether `id` is one of the game's players.
pub open spec fn is_player(g: GameView, id: i64) -> bool {
    exists|i: int| 0 <= i < g.players.len() && g.players[i].0 == id
}

/// The answered-already list of the current phase, empty elsewhere.
pub open spec fn answered_of(s: GameStateView) -> Seq<i64> {
    match s {
        GameStateView::Question(_, a) => a,
        GameStateView::Answer(_, a, _) => a,
        GameStateView::AfterQuestion(_, a, _) => a,
        _ => Seq::empty(),
    }
}

/// The structural soundness of a snapshot: cursors in range, player keys
/// unique, and every answered entry a distinct player.
pub open spec fn game_wf(g: GameView) -> bool {
    &&& 0 <= g.current_topic <= g.topics.len()
    &&& 0 <= g.current_question < 5
    &&& (forall|i: int, j: int|
        0 <= i < j < g.players.len() ==> g.players[i].0 != g.players[j].0)
    &&& (forall|i: int|
        0 <= i < answered_of(g.game_state).len() ==> is_player(
            g,
            #[trigger] answered_of(g.game_state)[i],
        ))
    &&& (forall|i: int, j: int|
        0 <= i < j < answered_of(g.game_state).len() ==> answered_of(g.game_state)[i]
            != answered_of(g.game_state)[j])
    &&& (match g.game_state {
        GameStateView::Answer(_, a, cur) => is_player(g, cur) && !a.contains(cur),
        GameStateView::AfterQuestion(_, _, c) => match c {
            Some(cu) => is_player(g, cu),
            None => true,
        },
        _ => true,
    })
    &&& (mid_topic(g.game_state) ==> g.current_topic < g.topics.len())
}

/// Phases that stand inside a topic and need a current question.
pub open spec fn mid_topic(s: GameStateView) -> bool {
    match s {
        GameStateView::BeforeGame(_, _) => false,
        GameStateView::BeforeTopic(_) => false,
        GameStateView::AfterGame => false,
        _ => true,
    }
}

impl Game {
    pub open spec fn inv(&self) -> bool {
        game_wf(self@)
    }

    /// A fresh game waiting for its players, five minutes on the clock.
    pub fn new(
        chat_id: i64,
        source_chats: Vec<i64>,
        set_id: String,
        topics: Vec<usize>,
        players: Vec<(i64, UserData)>,
        spectators: Vec<i64>,
        invite_link: String,
    ) -> (r: Game)
        requires
            forall|i: int, j: int|
                0 <= i < j < players@.len() ==> players@[i].0 != players@[j].0,
        ensures
            r.inv(),
            r@.chat_id == chat_id,
            r@.source_chats == source_chats@,
            r@.game_state == GameStateView::BeforeGame(false, 5),
            r@.set_id == set_id@,
            r@.topics == topics@,
            r@.current_topic == 0,
            r@.current_question == 0,
            r@.players.len() == players@.len(),
            forall|i: int|
                0 <= i < players@.len() ==> (#[trigger] r@.players[i]).0 == players@[i].0
                    && r@.players[i].1.user == players@[i].1@ && r@.players[i].1.score == 0
                    && !r@.players[i].1.present,
            r@.spectators == spectators@,
            r@.invite_link == invite_link@,
    {
        let n = players.len();
        let mut ps: Vec<(i64, PlayerState)> = Vec::new();
        let mut i: usize = 0;
        while i < n
            invariant
                n == players@.len(),
                i <= n,
                ps@.len() == i,
                forall|j: int|
                    0 <= j < i ==> (#[trigger] ps@[j]).0 == players@[j].0 && ps@[j].1@.user
                        == players@[j].1@ && ps@[j].1@.score == 0 && !ps@[j].1@.present,
            decreases n - i,
        {
            let id = players[i].0;
            let user = players[i].1.clone();
            ps.push((id, PlayerState { user, score: 0, present: false }));
            i += 1;
        }
        let g = Game {
            chat_id,
            source_chats,
            game_state: GameState::BeforeGame(false, 5u8),
            set_id,
            topics,
            current_topic: 0,
            current_question: 0,
            players: ps,
            spectators,
            invite_link,
        };
        proof {
            assert forall|i2: int, j2: int|
                0 <= i2 < j2 < g@.players.len() implies g@.players[i2].0 != g@.players[j2].0 by {
                assert(g@.players[i2].0 == players@[i2].0);
                assert(g@.players[j2].0 == players@[j2].0);
            }
        }
        g
    }
}

pub fn clone_game(g: &Game) -> (r: Game)
    ensures
        r@ == g@,
{
    let n = g.players.len();
    let mut ps: Vec<(i64, PlayerState)> = Vec::new();
    let mut i: usize = 0;
    while i < n
        invariant
            n == g.players@.len(),
            i <= n,
            ps@.len() == i,
            forall|j: int|
                0 <= j < i ==> (#[trigger] ps@[j]).0 == g.players@[j].0 && ps@[j].1@
                    == g.players@[j].1@,
        decreases n - i,
    {
        let id = g.players[i].0;
        let st = g.players[i].1.clone();
        ps.push((id, st));
        i += 1;
    }
    let state = clone_state(&g.game_state);
    let r = Game {
        chat_id: g.chat_id,
        source_chats: crate::data::copy_i64_vec(&g.source_chats),
        game_state: state,
        set_id: g.set_id.clone(),
        topics: copy_usize_vec(&g.topics),
        current_topic: g.current_topic,
        current_question: g.current_question,
        players: ps,
        spectators: crate::data::copy_i64_vec(&g.spectators),
        invite_link: g.invite_link.clone(),
    };
    proof {
        assert(r@.players =~= g@.players);
        assert(r@ == g@);
    }
    r
}

pub fn clone_state(s: &GameState) -> (r: GameState)
    ensures
        r@ == s@,
{
    match s {
        GameState::BeforeGame(p, m) => GameState::BeforeGame(*p, *m),
        GameState::BeforeTopic(p) => GameState::BeforeTopic(*p),
        GameState::BeforeFirstQuestion(p) => GameState::BeforeFirstQuestion(*p),
        GameState::BeforeQuestion(p) => GameState::BeforeQuestion(*p),
        GameState::Question(m, a) => GameState::Question(*m, crate::data::copy_i64_vec(a)),
        GameState::Answer(m, a, c) => GameState::Answer(*m, crate::data::copy_i64_vec(a), *c),
        GameState::AfterQuestion(p, a, c) => GameState::AfterQuestion(
            *p,
            crate::data::copy_i64_vec(a),
            *c,
        ),
        GameState::SpecialScore(p) => GameState::SpecialScore(*p),
        GameState::AfterGame => GameState::AfterGame,
    }
}

fn copy_usize_vec(v: &Vec<usize>) -> (res: Vec<usize>)
    ensures
        res@ == v@,
{
    let n = v.len();
    let mut r: Vec<usize> = Vec::new();
    let mut i: usize = 0;
    while i < n
        invariant
            n == v@.len(),
            i <= n,
            r@ == v@.subrange(0, i as int),
        decreases n - i,
    {
        r.push(v[i]);
        proof {
            assert(v@.subrange(0, i as int).push(v@[i as int]) =~= v@.subrange(0, i + 1));
        }
        i += 1;
    }
    proof {
        assert(r@ =~= v@);
    }
    r
}


// ---------------------------------------------------------------------------
// Timers and outbound effects
// ---------------------------------------------------------------------------

pub const PAUSE_SECS: u64 = 600;

pub const AFTER_GAME_SECS: u64 = 60;

pub const INTERMISSION_SECS: u64 = 8;

pub const PRE_GAME_STEP_SECS: u64 = 60;

pub const FIRST_THINKING_SECS: u64 = 15;

pub const SUCCESSIVE_THINKING_SECS: u64 = 10;

pub const PRE_GAME_SECS: u64 = 15;

pub const ANSWER_SECS: u64 = 30;

/// What the surrounding process must do after a step: send and edit messages,
/// kick users, arm the single game timer, or finish up.
pub enum Action {
    /// Send to the play chat with the given keyboard.
    Send { text: String, keyboard: KeyboardOptions },
    /// Fire-and-forget to one source chat.
    SendSource { chat_id: i64, text: String },
    /// Edit an earlier play-chat message.
    Edit { message_id: i64, text: String },
    /// Remove a user from the play chat.
    Kick { user_id: i64 },
    /// Send the question text, then hand the new message id to
    /// `question_posted`.
    AskQuestion { text: String },
    /// Arm the timer: after the delay, call `on_timeout` with this token.
    Schedule { seconds: u64, state_id: u64 },
    /// Call `on_timeout` with this token right away.
    FireNow { state_id: u64 },
    /// A fresh status line for the room list.
    StatusUpdate { text: String },
    /// Revoke the game's invite link.
    RevokeInviteLink { link: String },
}

pub open spec fn is_schedule(a: Action, secs: u64, id: u64) -> bool {
    match a {
        Action::Schedule { seconds, state_id } => seconds == secs && state_id == id,
        _ => false,
    }
}

pub open spec fn has_schedule(acts: Seq<Action>, secs: u64, id: u64) -> bool {
    exists|i: int| 0 <= i < acts.len() && is_schedule(#[trigger] acts[i], secs, id)
}

// ---------------------------------------------------------------------------
// Score arithmetic
// ---------------------------------------------------------------------------

/// Addition held inside the i64 range.
pub open spec fn sat_add(a: int, b: int) -> int {
    if a + b > i64::MAX as int {
        i64::MAX as int
    } else if a + b < i64::MIN as int {
        i64::MIN as int
    } else {
        a + b
    }
}

fn sat_add_i64(a: i64, b: i64) -> (r: i64)
    ensures
        r as int == sat_add(a as int, b as int),
{
    let v: i128 = a as i128 + b as i128;
    if v > i64::MAX as i128 {
        i64::MAX
    } else if v < i64::MIN as i128 {
        i64::MIN
    } else {
        v as i64
    }
}

/// The player list with `delta` added to `id`'s score.
pub open spec fn add_score(ps: Seq<(i64, PlayerStateView)>, id: i64, delta: int) -> Seq<
    (i64, PlayerStateView),
> {
    Seq::new(
        ps.len(),
        |i: int| if ps[i].0 == id {
            (
                ps[i].0,
                PlayerStateView {
                    user: ps[i].1.user,
                    score: sat_add(ps[i].1.score, delta),
                    present: ps[i].1.present,
                },
            )
        } else {
            ps[i]
        },
    )
}

/// How a question settles: walking the answered list in order, the first
/// acknowledged-correct player gains the cost and settlement stops; everyone
/// before loses the cost.
pub open spec fn settle(
    ps: Seq<(i64, PlayerStateView)>,
    answered: Seq<i64>,
    correct: Option<i64>,
    cost: int,
) -> Seq<(i64, PlayerStateView)>
    decreases answered.len(),
{
    if answered.len() == 0 {
        ps
    } else if correct == Some(answered[0]) {
        add_score(ps, answered[0], cost)
    } else {
        settle(add_score(ps, answered[0], -cost), answered.drop_first(), correct, cost)
    }
}

// ---------------------------------------------------------------------------
// The per-game driver
// ---------------------------------------------------------------------------

/// One running game: its snapshot, its package, and the token that keeps
/// stale timer firings out.
pub struct GameHandle {
    pub game: Game,
    pub topic_set: crate::topic::TopicSet,
    pub state_id: u64,
}

impl GameHandle {
    /// The topic indices all point into the package, and every topic carries
    /// exactly five questions.
    pub open spec fn set_ok(&self) -> bool {
        &&& self.game@.topics.len() <= 20
        &&& forall|k: int|
            0 <= k < self.game@.topics.len() ==> ((#[trigger] self.game@.topics[k]) as int)
                < self.topic_set@.topics.len() && self.topic_set@.topics[self.game@.topics[k] as int].questions.len()
                == 5
    }

    pub open spec fn inv(&self) -> bool {
        &&& self.game.inv()
        &&& self.set_ok()
    }

    /// Room for the timer token to grow; every machine-realistic run stays
    /// far below it.
    pub open spec fn fresh_ids(&self) -> bool {
        self.state_id < 0xffff_ffff_ffff_0000u64
    }

    pub fn create_game(game: Game, topic_set: crate::topic::TopicSet) -> (r: GameHandle)
        requires
            game.inv(),
            game@.topics.len() <= 20,
            forall|k: int|
                0 <= k < game@.topics.len() ==> ((#[trigger] game@.topics[k]) as int)
                    < topic_set@.topics.len() && topic_set@.topics[game@.topics[k] as int].questions.len()
                    == 5,
        ensures
            r.inv(),
            r.game@ == game@,
            r.topic_set@ == topic_set@,
            r.state_id == 0,
    {
        GameHandle { game, topic_set, state_id: 0 }
    }

    /// Arms a fresh timer: older firings carry a smaller token and are
    /// dropped.
    fn schedule(&mut self, seconds: u64, acts: &mut Vec<Action>)
        requires
            old(self).state_id < 0xffff_ffff_ffff_0000u64,
        ensures
            final(self).state_id == old(self).state_id + 1,
            final(self).game == old(self).game,
            final(self).topic_set == old(self).topic_set,
            final(acts)@ == old(acts)@.push(
                Action::Schedule { seconds, state_id: (old(self).state_id + 1) as u64 },
            ),
            has_schedule(final(acts)@, seconds, final(self).state_id),
    {
        self.state_id = self.state_id + 1;
        let a = Action::Schedule { seconds, state_id: self.state_id };
        acts.push(a);
        proof {
            assert(final(acts)@[final(acts)@.len() - 1] == Action::Schedule {
                seconds,
                state_id: (old(self).state_id + 1) as u64,
            });
        }
    }

    fn find_player(&self, id: i64) -> (res: Option<usize>)
        ensures
            match res {
                Some(i) => i < self.game@.players.len() && self.game@.players[i as int].0 == id
                    && forall|j: int| 0 <= j < i ==> self.game@.players[j].0 != id,
                None => !is_player(self.game@, id),
            },
    {
        let n = self.game.players.len();
        let mut i: usize = 0;
        while i < n
            invariant
                n == self.game.players@.len(),
                i <= n,
                forall|j: int| 0 <= j < i ==> self.game@.players[j].0 != id,
            decreases n - i,
        {
            if self.game.players[i].0 == id {
                proof {
                    assert(self.game@.players[i as int].0 == id);
                }
                return Some(i);
            }
            proof {
                assert(self.game@.players[i as int].0 == self.game.players@[i as int].0);
            }
            i += 1;
        }
        proof {
            if is_player(self.game@, id) {
                let w = choose|w: int|
                    0 <= w < self.game@.players.len() && self.game@.players[w].0 == id;
            }
        }
        None
    }

    /// The stored display name of a participant.
    fn user_name(&self, id: i64) -> (r: String)
        requires
            is_player(self.game@, id),
        ensures
            r@ == player_name_of(self.game@.players, id),
    {
        match self.find_player(id) {
            Some(i) => {
                proof {
                    lemma_player_name_at(self.game@.players, id, i as int);
                }
                self.game.players[i].1.user.display_name.clone()
            },
            None => String::new(),
        }
    }

    fn current_question(&self) -> (r: crate::topic::Question)
        requires
            self.inv(),
            self.game@.current_topic < self.game@.topics.len(),
        ensures
            r@ == spec_current_question(*self),
    {
        let t = self.game.topics[self.game.current_topic];
        let q = &self.topic_set.topics[t].questions[self.game.current_question];
        let r = q.fix();
        proof {
            assert(r@.answers =~= spec_current_question(*self).answers);
            assert(r@ == spec_current_question(*self));
        }
        r
    }

    fn topic_title(&self) -> (r: String)
        requires
            self.inv(),
            self.game@.current_topic < self.game@.topics.len(),
        ensures
            r@ == spec_topic_title(*self),
    {
        let t = self.game.topics[self.game.current_topic];
        crate::topic::encode(&self.topic_set.topics[t].name)
    }

    fn question_text(&self) -> (r: String)
        requires
            self.inv(),
            self.game@.current_topic < self.game@.topics.len(),
        ensures
            r@ == spec_question_message(*self),
    {
        let q = self.current_question();
        let title = self.topic_title();
        q.display_question(title.as_str())
    }
}

/// The stored display name of a participant, by the first matching entry.
pub open spec fn player_name_of(players: Seq<(i64, PlayerStateView)>, id: i64) -> Seq<char>
    decreases players.len(),
{
    if players.len() == 0 {
        Seq::empty()
    } else if players[0].0 == id {
        players[0].1.user.display_name
    } else {
        player_name_of(players.drop_first(), id)
    }
}

proof fn lemma_player_name_at(players: Seq<(i64, PlayerStateView)>, id: i64, i: int)
    requires
        0 <= i < players.len(),
        players[i].0 == id,
        forall|j: int| 0 <= j < i ==> players[j].0 != id,
    ensures
        player_name_of(players, id) == players[i].1.user.display_name,
    decreases i,
{
    if i > 0 {
        assert(players.drop_first()[i - 1] == players[i]);
        assert forall|j: int| 0 <= j < i - 1 implies players.drop_first()[j].0 != id by {
            assert(players.drop_first()[j] == players[j + 1]);
        }
        lemma_player_name_at(players.drop_first(), id, i - 1);
    }
}

/// The escaped title of the topic the cursor points at.
pub open spec fn spec_topic_title(h: GameHandle) -> Seq<char> {
    let t = h.game@.topics[h.game@.current_topic] as int;
    crate::topic::html_escaped(h.topic_set@.topics[t].name)
}

/// The full text of the current question as it is posted.
pub open spec fn spec_question_message(h: GameHandle) -> Seq<char> {
    let q = spec_current_question(h);
    ("<b>Тема</b> ")@ + spec_topic_title(h) + ("\n<b>")@ + crate::text::dec_str(q.cost) + (
    ".</b> ")@ + q.question
}

/// The text of the question message while an answer is being given.
pub open spec fn spec_hidden_message(h: GameHandle) -> Seq<char> {
    let q = spec_current_question(h);
    ("<b>Тема</b> ")@ + spec_topic_title(h) + ("\n<b>")@ + crate::text::dec_str(q.cost) + (
    ".</b> Вопрос скрыт")@
}

pub open spec fn has_edit(acts: Seq<Action>, message_id: i64, text: Seq<char>) -> bool {
    exists|i: int|
        0 <= i < acts.len() && match #[trigger] acts[i] {
            Action::Edit { message_id: m, text: t } => m == message_id && t@ == text,
            _ => false,
        }
}

pub open spec fn has_send_text(acts: Seq<Action>, text: Seq<char>) -> bool {
    exists|i: int|
        0 <= i < acts.len() && match #[trigger] acts[i] {
            Action::Send { text: t, keyboard } => t@ == text,
            _ => false,
        }
}

pub open spec fn has_send_starting(acts: Seq<Action>, prefix: Seq<char>) -> bool {
    exists|i: int|
        0 <= i < acts.len() && match #[trigger] acts[i] {
            Action::Send { text: t, keyboard } => prefix.len() <= t@.len() && t@.subrange(
                0,
                prefix.len() as int,
            ) == prefix,
            _ => false,
        }
}

pub open spec fn has_send_source(acts: Seq<Action>, chat: i64) -> bool {
    exists|i: int|
        0 <= i < acts.len() && match #[trigger] acts[i] {
            Action::SendSource { chat_id, text } => chat_id == chat,
            _ => false,
        }
}

pub open spec fn has_kick(acts: Seq<Action>, user: i64) -> bool {
    exists|i: int|
        0 <= i < acts.len() && match #[trigger] acts[i] {
            Action::Kick { user_id } => user_id == user,
            _ => false,
        }
}

pub open spec fn only_schedules(acts: Seq<Action>) -> bool {
    forall|i: int| 0 <= i < acts.len() ==> (#[trigger] acts[i]) is Schedule
}

/// The re-encoded current question of a handle.
pub open spec fn spec_current_question(h: GameHandle) -> crate::topic::QuestionView {
    let t = h.game@.topics[h.game@.current_topic] as int;
    let q = h.topic_set@.topics[t].questions[h.game@.current_question];
    crate::topic::QuestionView {
        cost: q.cost,
        question: crate::topic::html_escaped(q.question),
        answers: Seq::new(q.answers.len(), |i: int| crate::topic::html_escaped(q.answers[i])),
        comment: match q.comment {
            Some(c) => Some(crate::topic::html_escaped(c)),
            None => None,
        },
    }
}

/// The lowercased first token of a message, with a leading slash stripped.
pub open spec fn cmd_of(text: Seq<char>) -> Seq<char> {
    let t = crate::text::trimmed(text);
    let tok = crate::text::spec_split_spaces(t)[0];
    let low = crate::text::lower_seq(tok);
    if low.len() > 0 && low[0] == '/' {
        low.drop_first()
    } else {
        low
    }
}

/// The tokens after the command.
pub open spec fn args_of(text: Seq<char>) -> Seq<Seq<char>> {
    crate::text::spec_split_spaces(crate::text::trimmed(text)).drop_first()
}

fn add_score_exec(ps: &Vec<(i64, PlayerState)>, id: i64, delta: i64) -> (r: Vec<(i64, PlayerState)>)
    ensures
        Seq::new(r@.len(), |i: int| (r@[i].0, r@[i].1@)) == add_score(
            Seq::new(ps@.len(), |i: int| (ps@[i].0, ps@[i].1@)),
            id,
            delta as int,
        ),
        r@.len() == ps@.len(),
{
    let ghost pv = Seq::new(ps@.len(), |i: int| (ps@[i].0, ps@[i].1@));
    let n = ps.len();
    let mut r: Vec<(i64, PlayerState)> = Vec::new();
    let mut i: usize = 0;
    while i < n
        invariant
            n == ps@.len(),
            pv == Seq::new(ps@.len(), |i: int| (ps@[i].0, ps@[i].1@)),
            i <= n,
            r@.len() == i,
            forall|j: int|
                0 <= j < i ==> (#[trigger] r@[j]).0 == pv[j].0 && r@[j].1@ == add_score(
                    pv,
                    id,
                    delta as int,
                )[j].1,
        decreases n - i,
    {
        let pid = ps[i].0;
        let st = ps[i].1.clone();
        if pid == id {
            let ns = sat_add_i64(st.score, delta);
            r.push((pid, PlayerState { user: st.user, score: ns, present: st.present }));
        } else {
            r.push((pid, st));
        }
        i += 1;
    }
    proof {
        assert(Seq::new(r@.len(), |i: int| (r@[i].0, r@[i].1@)) =~= add_score(pv, id, delta as int));
    }
    r
}

impl GameHandle {
    /// The settled scores of the current question, as executable code.
    fn settle_exec(&mut self, answered: &Vec<i64>, correct: Option<i64>, cost: i64)
        requires
            old(self).inv(),
            cost >= 0,
        ensures
            final(self).inv(),
            final(self).game@ == (crate::game::GameView {
                players: settle(old(self).game@.players, answered@, correct, cost as int),
                ..old(self).game@
            }),
            final(self).topic_set == old(self).topic_set,
            final(self).state_id == old(self).state_id,
    {
        let ghost orig = self.game@.players;
        let n = answered.len();
        let mut ps = {
            let mut v: Vec<(i64, PlayerState)> = Vec::new();
            let m = self.game.players.len();
            let mut i: usize = 0;
            while i < m
                invariant
                    m == self.game.players@.len(),
                    i <= m,
                    v@.len() == i,
                    forall|j: int|
                        0 <= j < i ==> (#[trigger] v@[j]).0 == self.game.players@[j].0 && v@[j].1@
                            == self.game.players@[j].1@,
                decreases m - i,
            {
                let id = self.game.players[i].0;
                let st = self.game.players[i].1.clone();
                v.push((id, st));
                i += 1;
            }
            v
        };
        proof {
            assert(Seq::new(ps@.len(), |i: int| (ps@[i].0, ps@[i].1@)) =~= orig);
        }
        proof {
            assert(answered@.skip(0) =~= answered@);
        }
        let mut k: usize = 0;
        let mut stopped = false;
        while k < n && !stopped
            invariant
                n == answered@.len(),
                k <= n,
                cost >= 0,
                settle(orig, answered@, correct, cost as int) == (if stopped {
                    Seq::new(ps@.len(), |i: int| (ps@[i].0, ps@[i].1@))
                } else {
                    settle(
                        Seq::new(ps@.len(), |i: int| (ps@[i].0, ps@[i].1@)),
                        answered@.skip(k as int),
                        correct,
                        cost as int,
                    )
                }),
            decreases n - k,
        {
            let id = answered[k];
            let ghost pv = Seq::new(ps@.len(), |i: int| (ps@[i].0, ps@[i].1@));
            proof {
                assert(answered@.skip(k as int)[0] == id);
                assert(answered@.skip(k as int).drop_first() =~= answered@.skip(k + 1));
            }
            let hit = match correct {
                Some(c) => c == id,
                None => false,
            };
            if hit {
                ps = add_score_exec(&ps, id, cost);
                stopped = true;
            } else {
                ps = add_score_exec(&ps, id, -cost);
            }
            k += 1;
        }
        proof {
            if !stopped {
                assert(answered@.skip(n as int) =~= Seq::<i64>::empty());
            }
        }
        let ghost before = self.game@;
        self.game.players = ps;
        proof {
            assert(self.game@.players =~= settle(orig, answered@, correct, cost as int));
            assert(self.game@ == crate::game::GameView { players: self.game@.players, ..before });
            lemma_settle_wf(before, self.game@, answered@, correct, cost as int);
        }
    }
}

proof fn lemma_add_score_wf(g: GameView, h: GameView, id: i64, d: int)
    requires
        game_wf(g),
        h == (GameView { players: add_score(g.players, id, d), ..g }),
    ensures
        game_wf(h),
{
    assert(h.players.len() == g.players.len());
    assert forall|i: int, j: int|
        0 <= i < j < h.players.len() implies h.players[i].0 != h.players[j].0 by {
        assert(h.players[i].0 == g.players[i].0);
        assert(h.players[j].0 == g.players[j].0);
    }
    assert forall|i: int|
        0 <= i < answered_of(h.game_state).len() implies is_player(
        h,
        #[trigger] answered_of(h.game_state)[i],
    ) by {
        assert(is_player(g, answered_of(g.game_state)[i]));
        let w = choose|w: int|
            0 <= w < g.players.len() && g.players[w].0 == answered_of(g.game_state)[i];
        assert(h.players[w].0 == answered_of(h.game_state)[i]);
    }
    match h.game_state {
        GameStateView::Answer(_, a, cur) => {
            assert(is_player(g, cur));
            let w = choose|w: int| 0 <= w < g.players.len() && g.players[w].0 == cur;
            assert(h.players[w].0 == cur);
        },
        GameStateView::AfterQuestion(_, _, copt) => match copt {
            Some(cu) => {
                assert(is_player(g, cu));
                let w = choose|w: int| 0 <= w < g.players.len() && g.players[w].0 == cu;
                assert(h.players[w].0 == cu);
            },
            None => {},
        },
        _ => {},
    }
}

proof fn lemma_settle_wf(g: GameView, h: GameView, answered: Seq<i64>, correct: Option<i64>, cost: int)
    requires
        game_wf(g),
        h == (GameView { players: settle(g.players, answered, correct, cost), ..g }),
    ensures
        game_wf(h),
    decreases answered.len(),
{
    if answered.len() == 0 {
        assert(h.players == g.players);
        assert(h == g);
    } else if correct == Some(answered[0]) {
        lemma_add_score_wf(
            g,
            GameView { players: add_score(g.players, answered[0], cost), ..g },
            answered[0],
            cost,
        );
    } else {
        let mid = GameView { players: add_score(g.players, answered[0], -cost), ..g };
        lemma_add_score_wf(g, mid, answered[0], -cost);
        lemma_settle_wf(mid, h, answered.drop_first(), correct, cost);
    }
}

impl GameHandle {
    /// Reveals the answer and waits for corrections.
    fn end_question(&mut self, data: &mut crate::data::Data, pause_game: bool, acts: &mut Vec<Action>)
        requires
            old(self).inv(),
            old(self).fresh_ids(),
            old(data).inv(),
            old(self).game@.game_state is Question,
            old(self).game@.current_topic < old(self).game@.topics.len(),
        ensures
            final(self).inv(),
            final(data).inv(),
            final(self).game@ == (GameView {
                game_state: GameStateView::AfterQuestion(
                    pause_game,
                    answered_of(old(self).game@.game_state),
                    None,
                ),
                ..old(self).game@
            }),
            final(self).topic_set == old(self).topic_set,
            final(self).state_id == old(self).state_id + 1,
            has_schedule(
                final(acts)@,
                if pause_game {
                    PAUSE_SECS
                } else {
                    INTERMISSION_SECS
                },
                final(self).state_id,
            ),
            has_send_text(
                final(acts)@,
                crate::topic::spec_display_answers(spec_current_question(*old(self)), false),
            ),
            final(data).game_of(final(self).game.chat_id) == Some(final(self).game@),
            spec_data_same_but_games(*old(data), *final(data)),
    {
        let (message_id, answers) = match &self.game.game_state {
            GameState::Question(m, a) => (*m, crate::data::copy_i64_vec(a)),
            _ => {
                proof {
                    assert(false);
                }
                (0, Vec::new())
            },
        };
        let q = self.current_question();
        let text = q.display_answers(false);
        let ghost a = self.game@;
        self.game.game_state = GameState::AfterQuestion(pause_game, answers, None);
        proof {
            lemma_wf_same_answered(a, self.game@);
        }
        let kb = self.game.game_state.keyboard_options();
        let ghost pre = acts@;
        acts.push(Action::Send { text, keyboard: kb });
        proof {
            assert(acts@[pre.len() as int] == Action::Send { text, keyboard: kb });
        }
        self.schedule(
            if pause_game {
                PAUSE_SECS
            } else {
                INTERMISSION_SECS
            },
            acts,
        );
        proof {
            assert(acts@[pre.len() as int] == Action::Send { text, keyboard: kb });
        }
        data.save_game_state(&self.game);
    }

    /// A wrong or expired attempt: the answerer joins the answered list and
    /// the question reopens, unless everyone has now had their try.
    fn incorrect_answer(&mut self, data: &mut crate::data::Data, timeout: bool, force_stop_timer: bool, acts: &mut Vec<Action>)
        requires
            old(self).inv(),
            old(self).fresh_ids(),
            old(data).inv(),
            old(self).game@.game_state is Answer,
            old(self).game@.current_topic < old(self).game@.topics.len(),
        ensures
            final(self).inv(),
            final(data).inv(),
            final(self).game@.game_state == (match old(self).game@.game_state {
                GameStateView::Answer(m, a, cur) => GameStateView::Question(m, a.push(cur)),
                other => other,
            }),
            spec_game_same_but_state(old(self).game@, final(self).game@),
            final(self).topic_set == old(self).topic_set,
            // when the question stays open the shorter follow-up timer runs;
            // otherwise the timeout is delivered at once
            (match old(self).game@.game_state {
                GameStateView::Answer(_, a, _) => !force_stop_timer && a.len() + 1
                    != old(self).game@.players.len(),
                _ => false,
            }) ==> final(self).state_id == old(self).state_id + 1 && has_schedule(
                final(acts)@,
                SUCCESSIVE_THINKING_SECS,
                final(self).state_id,
            ),
            !(match old(self).game@.game_state {
                GameStateView::Answer(_, a, _) => !force_stop_timer && a.len() + 1
                    != old(self).game@.players.len(),
                _ => false,
            }) ==> final(self).state_id == old(self).state_id && has_fire_now(
                final(acts)@,
                final(self).state_id,
            ),
            // the question text is restored and the failed answerer is named
            (match old(self).game@.game_state {
                GameStateView::Answer(m, a, cur) => has_edit(
                    final(acts)@,
                    m as i64,
                    spec_question_message(*old(self)),
                ) && has_send_text(
                    final(acts)@,
                    (if timeout {
                        ("Время вышло, ")@
                    } else {
                        ("Это неправильный ответ, ")@
                    }) + player_name_of(old(self).game@.players, cur),
                ),
                _ => true,
            }),
            final(data).game_of(final(self).game.chat_id) == Some(final(self).game@),
            spec_data_same_but_games(*old(data), *final(data)),
    {
        let (message_id, answers, current) = match &self.game.game_state {
            GameState::Answer(m, a, c) => (*m, crate::data::copy_i64_vec(a), *c),
            _ => {
                proof {
                    assert(false);
                }
                (0, Vec::new(), 0)
            },
        };
        proof {
            assert(is_player(self.game@, current));
            let w = choose|w: int|
                0 <= w < self.game@.players.len() && self.game@.players[w].0 == current;
        }
        let total = self.game.players.len();
        let restart_timer = !force_stop_timer && answers.len() != total - 1;
        let text = self.question_text();
        let name = self.user_name(current);
        let mut answers = answers;
        answers.push(current);
        let ghost a = self.game@;
        self.game.game_state = GameState::Question(message_id, answers);
        proof {
            lemma_wf_answer_closed(a, self.game@);
        }
        let ghost e_at = acts@.len() as int;
        acts.push(Action::Edit { message_id, text });
        let mut notice = String::from_str(
            if timeout {
                "Время вышло, "
            } else {
                "Это неправильный ответ, "
            },
        );
        notice.append(name.as_str());
        let ghost n_at = acts@.len() as int;
        let ghost notice_text = notice@;
        acts.push(Action::Send { text: notice, keyboard: KeyboardOptions::Plus });
        proof {
            assert(match acts@[e_at] {
                Action::Edit { message_id: m2, text: t2 } => m2 == message_id && t2@
                    == spec_question_message(*old(self)),
                _ => false,
            });
            assert(match acts@[n_at] {
                Action::Send { text: t2, keyboard } => t2@ == notice_text,
                _ => false,
            });
        }
        if restart_timer {
            self.schedule(SUCCESSIVE_THINKING_SECS, acts);
        } else {
            acts.push(Action::FireNow { state_id: self.state_id });
            proof {
                assert(final(acts)@[final(acts)@.len() - 1] == Action::FireNow {
                    state_id: self.state_id,
                });
            }
        }
        proof {
            assert(match acts@[e_at] {
                Action::Edit { message_id: m2, text: t2 } => m2 == message_id && t2@
                    == spec_question_message(*old(self)),
                _ => false,
            });
            assert(has_edit(acts@, message_id, spec_question_message(*old(self))));
            assert(match acts@[n_at] {
                Action::Send { text: t2, keyboard } => t2@ == notice_text,
                _ => false,
            });
            assert(has_send_text(acts@, notice_text));
        }
        data.save_game_state(&self.game);
    }

    /// "Attention, the question": a one-second pause before the text appears.
    fn ask_question(&mut self, data: &mut crate::data::Data, acts: &mut Vec<Action>)
        requires
            old(self).inv(),
            old(self).fresh_ids(),
            old(data).inv(),
            old(self).game@.current_topic < old(self).game@.topics.len(),
        ensures
            final(self).inv(),
            final(data).inv(),
            final(self).game@ == (GameView {
                game_state: GameStateView::BeforeQuestion(false),
                ..old(self).game@
            }),
            final(self).topic_set == old(self).topic_set,
            final(self).state_id == old(self).state_id + 1,
            has_schedule(final(acts)@, 1, final(self).state_id),
            final(data).game_of(final(self).game.chat_id) == Some(final(self).game@),
            spec_data_same_but_games(*old(data), *final(data)),
    {
        let ghost a = self.game@;
        self.game.game_state = GameState::BeforeQuestion(false);
        proof {
            lemma_wf_empty_answered(a, self.game@);
        }
        let kb = self.game.game_state.keyboard_options();
        acts.push(
            Action::Send { text: String::from_str("Внимание, вопрос"), keyboard: kb },
        );
        self.schedule(1, acts);
        data.save_game_state(&self.game);
    }

    /// The question text was posted; the round starts with the first-attempt
    /// timer.
    pub fn question_posted(&mut self, data: &mut crate::data::Data, message_id: i64) -> (acts: Vec<Action>)
        requires
            old(self).inv(),
            old(self).fresh_ids(),
            old(data).inv(),
            old(self).game@.game_state is BeforeQuestion,
        ensures
            final(self).inv(),
            final(data).inv(),
            final(self).game@ == (GameView {
                game_state: GameStateView::Question(message_id as int, Seq::empty()),
                ..old(self).game@
            }),
            final(self).topic_set == old(self).topic_set,
            final(self).state_id == old(self).state_id + 1,
            has_schedule(acts@, FIRST_THINKING_SECS, final(self).state_id),
            final(data).game_of(final(self).game.chat_id) == Some(final(self).game@),
            spec_data_same_but_games(*old(data), *final(data)),
    {
        let mut acts: Vec<Action> = Vec::new();
        let ghost a = self.game@;
        self.game.game_state = GameState::Question(message_id, Vec::new());
        proof {
            assert(answered_of(self.game@.game_state) =~= Seq::<i64>::empty());
            lemma_wf_empty_answered(a, self.game@);
        }
        self.schedule(FIRST_THINKING_SECS, &mut acts);
        data.save_game_state(&self.game);
        acts
    }
}


/// A phase change that keeps the answered list keeps well-formedness.
pub proof fn lemma_wf_same_answered(a: GameView, b: GameView)
    requires
        game_wf(a),
        b.players == a.players,
        answered_of(b.game_state) == answered_of(a.game_state),
        !(b.game_state is Answer),
        0 <= b.current_topic <= b.topics.len(),
        0 <= b.current_question < 5,
        mid_topic(b.game_state) ==> b.current_topic < b.topics.len(),
        (match b.game_state {
            GameStateView::AfterQuestion(_, _, copt) => match copt {
                Some(cu) => is_player(a, cu),
                None => true,
            },
            _ => true,
        }),
    ensures
        game_wf(b),
{
    assert(b.players == a.players);
    assert forall|i: int|
        0 <= i < answered_of(b.game_state).len() implies is_player(
        b,
        #[trigger] answered_of(b.game_state)[i],
    ) by {
        assert(is_player(a, answered_of(a.game_state)[i]));
        let w = choose|w: int|
            0 <= w < a.players.len() && a.players[w].0 == answered_of(a.game_state)[i];
        assert(b.players[w].0 == answered_of(b.game_state)[i]);
    }
    match b.game_state {
        GameStateView::AfterQuestion(_, _, copt) => match copt {
            Some(cu) => {
                assert(is_player(a, cu));
                let w = choose|w: int| 0 <= w < a.players.len() && a.players[w].0 == cu;
                assert(b.players[w].0 == cu);
            },
            None => {},
        },
        _ => {},
    }
}

/// A phase change to an empty answered list keeps well-formedness.
pub proof fn lemma_wf_empty_answered(a: GameView, b: GameView)
    requires
        game_wf(a),
        b.players == a.players,
        answered_of(b.game_state) == Seq::<i64>::empty(),
        !(b.game_state is Answer),
        0 <= b.current_topic <= b.topics.len(),
        0 <= b.current_question < 5,
        mid_topic(b.game_state) ==> b.current_topic < b.topics.len(),
        (match b.game_state {
            GameStateView::AfterQuestion(_, _, copt) => match copt {
                Some(cu) => is_player(a, cu),
                None => true,
            },
            _ => true,
        }),
    ensures
        game_wf(b),
{
    assert(b.players == a.players);
    match b.game_state {
        GameStateView::AfterQuestion(_, _, copt) => match copt {
            Some(cu) => {
                assert(is_player(a, cu));
                let w = choose|w: int| 0 <= w < a.players.len() && a.players[w].0 == cu;
                assert(b.players[w].0 == cu);
            },
            None => {},
        },
        _ => {},
    }
}

/// Closing an answer attempt keeps well-formedness: the answerer is a player
/// who had not answered yet.
pub proof fn lemma_wf_answer_closed(a: GameView, b: GameView)
    requires
        game_wf(a),
        b.players == a.players,
        a.game_state is Answer,
        (match a.game_state {
            GameStateView::Answer(m, ans, cur) => answered_of(b.game_state) == ans.push(cur),
            _ => false,
        }),
        !(b.game_state is Answer),
        0 <= b.current_topic <= b.topics.len(),
        0 <= b.current_question < 5,
        mid_topic(b.game_state) ==> b.current_topic < b.topics.len(),
        (match b.game_state {
            GameStateView::AfterQuestion(_, _, copt) => match copt {
                Some(cu) => is_player(a, cu),
                None => true,
            },
            _ => true,
        }),
    ensures
        game_wf(b),
{
    assert(b.players == a.players);
    match a.game_state {
        GameStateView::Answer(m, ans, cur) => {
            assert(answered_of(a.game_state) == ans);
            let nb = answered_of(b.game_state);
            assert forall|i: int| 0 <= i < nb.len() implies is_player(b, #[trigger] nb[i]) by {
                if i < ans.len() {
                    assert(nb[i] == ans[i]);
                    assert(is_player(a, ans[i]));
                    let w = choose|w: int| 0 <= w < a.players.len() && a.players[w].0 == ans[i];
                    assert(b.players[w].0 == nb[i]);
                } else {
                    assert(nb[i] == cur);
                    assert(is_player(a, cur));
                    let w = choose|w: int| 0 <= w < a.players.len() && a.players[w].0 == cur;
                    assert(b.players[w].0 == nb[i]);
                }
            }
            assert forall|i: int, j: int| 0 <= i < j < nb.len() implies nb[i] != nb[j] by {
                if j == nb.len() - 1 {
                    assert(nb[j] == cur);
                    assert(nb[i] == ans[i]);
                    if ans[i] == cur {
                        assert(ans.contains(cur));
                    }
                } else {
                    assert(nb[i] == ans[i]);
                    assert(nb[j] == ans[j]);
                }
            }
            match b.game_state {
                GameStateView::AfterQuestion(_, _, copt) => match copt {
                    Some(cu) => {
                        assert(is_player(a, cu));
                        let w = choose|w: int| 0 <= w < a.players.len() && a.players[w].0 == cu;
                        assert(b.players[w].0 == cu);
                    },
                    None => {},
                },
                _ => {},
            }
        },
        _ => {},
    }
}

/// Everything of the game but the phase is unchanged.
pub open spec fn spec_game_same_but_state(a: GameView, b: GameView) -> bool {
    b == (GameView { game_state: b.game_state, ..a })
}

/// Everything in the store but the snapshots is unchanged.
pub open spec fn spec_data_same_but_games(a: crate::data::Data, b: crate::data::Data) -> bool {
    &&& b.users == a.users
    &&& b.sets == a.sets
    &&& b.active == a.active
    &&& b.was_active == a.was_active
    &&& b.played == a.played
    &&& b.blocked == a.blocked
    &&& b.ban_lists == a.ban_lists
    &&& b.last_played == a.last_played
    &&& b.game_chats == a.game_chats
    &&& b.next_reset == a.next_reset
}

/// Everything in the store but the snapshots and the user records is
/// unchanged.
pub open spec fn spec_data_same_but_games_users(a: crate::data::Data, b: crate::data::Data) -> bool {
    &&& b.sets == a.sets
    &&& b.active == a.active
    &&& b.was_active == a.was_active
    &&& b.played == a.played
    &&& b.blocked == a.blocked
    &&& b.ban_lists == a.ban_lists
    &&& b.last_played == a.last_played
    &&& b.game_chats == a.game_chats
    &&& b.next_reset == a.next_reset
}

pub open spec fn has_fire_now(acts: Seq<Action>, id: u64) -> bool {
    exists|i: int|
        0 <= i < acts.len() && match #[trigger] acts[i] {
            Action::FireNow { state_id } => state_id == id,
            _ => false,
        }
}

/// The participants as settlement pairs: account id and final score.
pub open spec fn spec_score_pairs(g: GameView) -> Seq<(i64, i64)> {
    Seq::new(g.players.len(), |i: int| (g.players[i].0, g.players[i].1.score as i64))
}

/// Every participant has a profile on record.
pub open spec fn players_known(d: crate::data::Data, g: GameView) -> bool {
    forall|i: int| 0 <= i < g.players.len() ==> d.user_of((#[trigger] g.players[i]).0 as int) is Some
}

impl GameHandle {
    fn score_pairs(&self) -> (r: Vec<(i64, i64)>)
        ensures
            r@ == spec_score_pairs(self.game@),
    {
        let n = self.game.players.len();
        let mut r: Vec<(i64, i64)> = Vec::new();
        let mut i: usize = 0;
        while i < n
            invariant
                n == self.game.players@.len(),
                i <= n,
                r@.len() == i,
                forall|j: int|
                    0 <= j < i ==> (#[trigger] r@[j]) == (
                        self.game.players@[j].0,
                        self.game.players@[j].1.score,
                    ),
            decreases n - i,
        {
            r.push((self.game.players[i].0, self.game.players[i].1.score));
            i += 1;
        }
        proof {
            assert(r@ =~= spec_score_pairs(self.game@));
        }
        r
    }

    /// The current standings, highest score first, sent to the play chat.
    fn show_score(&mut self, data: &mut crate::data::Data, acts: &mut Vec<Action>)
        requires
            old(self).inv(),
            old(self).fresh_ids(),
            old(data).inv(),
        ensures
            final(self).inv(),
            final(data).inv(),
            final(self).game == old(self).game,
            final(self).topic_set == old(self).topic_set,
            final(self).state_id == old(self).state_id + 1,
            has_schedule(final(acts)@, INTERMISSION_SECS, final(self).state_id),
            has_send_starting(final(acts)@, spec_score_header(*old(self))),
            final(data).game_of(final(self).game.chat_id) == Some(final(self).game@),
            spec_data_same_but_games(*old(data), *final(data)),
    {
        let mut raw_rows: Vec<(i64, String)> = Vec::new();
        let np = self.game.players.len();
        let mut pi: usize = 0;
        while pi < np
            invariant
                np == self.game.players@.len(),
            decreases np - pi,
        {
            raw_rows.push((
                self.game.players[pi].1.score,
                self.game.players[pi].1.user.display_name.clone(),
            ));
            pi += 1;
        }
        let rows = sort_lines(&raw_rows);
        let mut body = String::new();
        let n = rows.len();
        let mut i: usize = 0;
        while i < n
            invariant
                n == rows@.len(),
            decreases n - i,
        {
            body.append(rows[i].1.as_str());
            body.append(" ");
            let sc = crate::text::i64_string(rows[i].0);
            body.append(sc.as_str());
            body.append("\n");
            i += 1;
        }
        let header = if self.game.current_topic == self.game.topics.len() {
            "<b>Финальный счёт:</b>\n"
        } else {
            "<b>Teкущий счёт:</b>\n"
        };
        let mut text = String::from_str(header);
        text.append(body.as_str());
        proof {
            assert(text@.subrange(0, spec_score_header(*self).len() as int) =~= spec_score_header(
                *self,
            ));
        }
        let ghost t_at = acts@.len() as int;
        let ghost sent = text@;
        let kb = self.game.game_state.keyboard_options();
        acts.push(Action::Send { text, keyboard: kb });
        proof {
            assert(match acts@[t_at] {
                Action::Send { text: t2, keyboard } => t2@ == sent,
                _ => false,
            });
        }
        self.schedule(INTERMISSION_SECS, acts);
        proof {
            assert(match acts@[t_at] {
                Action::Send { text: t2, keyboard } => t2@ == sent,
                _ => false,
            });
        }
        data.save_game_state(&self.game);
    }

    /// Ends the game: on a real finish the ratings are committed and the
    /// settlement is announced to every source chat; an aborted game only
    /// says so.
    pub fn end_game(&mut self, data: &mut crate::data::Data, aborted: bool) -> (acts: Vec<Action>)
        requires
            old(self).inv(),
            old(self).fresh_ids(),
            old(data).inv(),
            !aborted ==> players_known(*old(data), old(self).game@),
        ensures
            final(self).inv(),
            final(data).inv(),
            final(self).game@ == (GameView { game_state: GameStateView::AfterGame, ..old(self).game@ }),
            final(self).topic_set == old(self).topic_set,
            final(self).state_id == old(self).state_id + 1,
            has_schedule(acts@, AFTER_GAME_SECS, final(self).state_id),
            // the commit: every participant's rating moves by the clamped
            // settlement computed over the pre-commit ratings
            !aborted ==> forall|i: int|
                0 <= i < old(self).game@.players.len() ==> match final(data).user_of(
                    (#[trigger] old(self).game@.players[i]).0 as int,
                ) {
                    Some(u) => u.rating == crate::data::settled_rating(
                        crate::data::ratings_of(*old(data), spec_score_pairs(old(self).game@)),
                        crate::data::scores_of(spec_score_pairs(old(self).game@)),
                        i,
                    ),
                    None => false,
                },
            !aborted ==> forall|k: int|
                (forall|j: int|
                    0 <= j < old(self).game@.players.len() ==> ((#[trigger] old(self).game@.players[j]).0 as int) != k) ==> final(data).user_of(k) == old(data).user_of(k),
            aborted ==> final(data).users == old(data).users,
            // the result is announced to every source chat
            forall|k: int|
                0 <= k < old(self).game@.source_chats.len() ==> has_send_source(
                    acts@,
                    #[trigger] old(self).game@.source_chats[k],
                ),
            final(data).game_of(final(self).game.chat_id) == Some(final(self).game@),
            spec_data_same_but_games_users(*old(data), *final(data)),
    {
        let mut acts: Vec<Action> = Vec::new();
        let ghost a = self.game@;
        self.game.game_state = GameState::AfterGame;
        proof {
            assert(answered_of(self.game@.game_state) =~= Seq::<i64>::empty());
            lemma_wf_empty_answered(a, self.game@);
        }
        let kb = self.game.game_state.keyboard_options();
        acts.push(
            Action::Send { text: String::from_str("Игра окончена!"), keyboard: kb },
        );
        let outcome: String = if !aborted {
            let pairs = self.score_pairs();
            proof {
                assert forall|x: int, y: int|
                    0 <= x < y < pairs@.len() implies pairs@[x].0 != pairs@[y].0 by {
                    assert(pairs@[x].0 == self.game@.players[x].0);
                    assert(pairs@[y].0 == self.game@.players[y].0);
                }
                assert forall|x: int|
                    0 <= x < pairs@.len() implies data.user_of(
                    (#[trigger] pairs@[x]).0 as int,
                ) is Some by {
                    assert(pairs@[x].0 == old(self).game@.players[x].0);
                }
            }
            let mut before: Vec<u32> = Vec::new();
            let mut i: usize = 0;
            let n = pairs.len();
            while i < n
                invariant
                    n == pairs@.len(),
                    i <= n,
                    before@.len() == i,
                    forall|x: int| 0 <= x < n ==> data.user_of((#[trigger] pairs@[x]).0 as int) is Some,
                    data == old(data),
                decreases n - i,
            {
                match data.get_user_data(&pairs[i].0) {
                    Some(u) => before.push(u.rating),
                    None => {
                        proof {
                            assert(false);
                        }
                    },
                }
                i += 1;
            }
            data.save_game_results(&pairs);
            let ghost dcommit = *data;
            let mut lines: Vec<(i64, String)> = Vec::new();
            let mut i: usize = 0;
            while i < n
                invariant
                    n == pairs@.len(),
                    n == self.game.players@.len(),
                    before@.len() == n,
                    i <= n,
                    self.inv(),
                    data.inv(),
                    *data == dcommit,
                decreases n - i,
            {
                let mut line = String::new();
                line.append(self.game.players[i].1.user.display_name.as_str());
                line.append(" ");
                let sc = crate::text::i64_string(self.game.players[i].1.score);
                line.append(sc.as_str());
                line.append(" ");
                let after = match data.get_user_data(&pairs[i].0) {
                    Some(u) => u.rating,
                    None => 0,
                };
                let shown = crate::display_rating(after);
                let sr = crate::text::u64_string(shown as u64);
                line.append(sr.as_str());
                line.append(" (");
                let delta: i64 = (crate::display_rating(after) as i64) - (crate::display_rating(
                    before[i],
                ) as i64);
                let ds = crate::text::i64_string(delta);
                line.append(ds.as_str());
                line.append(")\n");
                lines.push((self.game.players[i].1.score, line));
                i += 1;
            }
            let sorted = sort_lines(&lines);
            let mut table = String::new();
            let m2 = sorted.len();
            let mut k2: usize = 0;
            while k2 < m2
                invariant
                    m2 == sorted@.len(),
                decreases m2 - k2,
            {
                table.append(sorted[k2].1.as_str());
                k2 += 1;
            }
            table
        } else {
            String::from_str("Игра отменена")
        };
        self.schedule(AFTER_GAME_SECS, &mut acts);
        let ghost hsnap = *self;
        let ghost dsnap = *data;
        let m = self.game.source_chats.len();
        let mut k: usize = 0;
        while k < m
            invariant
                m == self.game.source_chats@.len(),
                *self == hsnap,
                *data == dsnap,
                self.inv(),
                data.inv(),
                has_schedule(acts@, AFTER_GAME_SECS, self.state_id),
                k <= m,
                forall|j: int|
                    0 <= j < k ==> has_send_source(acts@, #[trigger] self.game@.source_chats[j]),
            decreases m - k,
        {
            let mut text = String::from_str(
                "<b>Игра завершена.</b>\nПакет: ",
            );
            text.append(self.topic_set.title.as_str());
            text.append("\n");
            text.append(outcome.as_str());
            let ghost pre = acts@;
            let ghost c_at = acts@.len() as int;
            acts.push(Action::SendSource { chat_id: self.game.source_chats[k], text });
            proof {
                let w = choose|w: int|
                    0 <= w < pre.len() && is_schedule(#[trigger] pre[w], AFTER_GAME_SECS, self.state_id);
                assert(acts@[w] == pre[w]);
                assert(match acts@[c_at] {
                    Action::SendSource { chat_id, text: t2 } => chat_id
                        == self.game@.source_chats[k as int],
                    _ => false,
                });
                assert forall|j: int|
                    0 <= j < k + 1 implies has_send_source(
                    acts@,
                    #[trigger] self.game@.source_chats[j],
                ) by {
                    if j < k {
                        let w2 = choose|w2: int|
                            0 <= w2 < pre.len() && match #[trigger] pre[w2] {
                                Action::SendSource { chat_id, text: t2 } => chat_id
                                    == self.game@.source_chats[j],
                                _ => false,
                            };
                        assert(acts@[w2] == pre[w2]);
                    }
                }
            }
            k += 1;
        }
        proof {
            assert(self.game@.source_chats == old(self).game@.source_chats);
        }
        data.save_game_state(&self.game);
        acts
    }
}

impl GameHandle {
    /// A stale timer firing is dropped; a current one advances the state.
    /// The result says the game is over and the handle can be released.
    pub fn on_timeout(&mut self, data: &mut crate::data::Data, id: u64, all_present: bool) -> (r: (
        bool,
        Vec<Action>,
    ))
        requires
            old(self).inv(),
            old(self).fresh_ids(),
            old(data).inv(),
            players_known(*old(data), old(self).game@),
        ensures
            final(self).inv(),
            final(data).inv(),
            final(self).topic_set == old(self).topic_set,
            id != old(self).state_id ==> *final(self) == *old(self) && *final(data) == *old(data)
                && !r.0,
            id == old(self).state_id ==> spec_advance_post(
                *old(self),
                *old(data),
                *final(self),
                *final(data),
                all_present,
                r.0,
                r.1@,
            ),
    {
        if id != self.state_id {
            (false, Vec::new())
        } else {
            self.advance_state(data, all_present)
        }
    }

    /// The timed transition of the state machine, as the design gives it: a
    /// paused game resumes; otherwise the phase advances.
    pub fn advance_state(&mut self, data: &mut crate::data::Data, all_present: bool) -> (r: (
        bool,
        Vec<Action>,
    ))
        requires
            old(self).inv(),
            old(self).fresh_ids(),
            old(data).inv(),
            players_known(*old(data), old(self).game@),
        ensures
            spec_advance_post(
                *old(self),
                *old(data),
                *final(self),
                *final(data),
                all_present,
                r.0,
                r.1@,
            ),
    {
        let mut acts: Vec<Action> = Vec::new();
        let ghost a = self.game@;
        let was = self.game.game_state.set_pause(false);
        if was {
            proof {
                lemma_wf_same_answered(a, self.game@);
            }
            acts.push(
                Action::Send {
                    text: String::from_str("Игра возобновлена"),
                    keyboard: self.game.game_state.keyboard_options(),
                },
            );
            self.schedule(INTERMISSION_SECS, &mut acts);
            data.save_game_state(&self.game);
            return (false, acts);
        }
        proof {
            assert(self.game@ == a);
        }
        let state = clone_state(&self.game.game_state);
        match state {
            GameState::BeforeGame(_, minutes) => {
                if !all_present {
                    let next_minutes = if minutes > 1 {
                        minutes - 1
                    } else {
                        minutes
                    };
                    self.game.game_state = GameState::BeforeGame(false, next_minutes);
                    proof {
                        lemma_wf_empty_answered(a, self.game@);
                    }
                    let mut text = String::from_str(
                        "Некоторые игроки всё еще не зашли в чат. Через ",
                    );
                    let mins = crate::text::u64_string(next_minutes as u64);
                    text.append(mins.as_str());
                    text.append(
                        if minutes == 2 {
                            " минуту игра начнется автоматически"
                        } else {
                            " минуты игра начнется автоматически"
                        },
                    );
                    acts.push(
                        Action::Send {
                            text,
                            keyboard: self.game.game_state.keyboard_options(),
                        },
                    );
                    self.schedule(PRE_GAME_STEP_SECS, &mut acts);
                } else {
                    self.game.game_state = GameState::BeforeTopic(false);
                    proof {
                        lemma_wf_empty_answered(a, self.game@);
                    }
                    let text = self.game_start_text();
                    acts.push(
                        Action::Send {
                            text,
                            keyboard: self.game.game_state.keyboard_options(),
                        },
                    );
                    self.schedule(INTERMISSION_SECS, &mut acts);
                }
            },
            GameState::BeforeTopic(_) => {
                if self.game.current_topic == self.game.topics.len() {
                    let ghost presid = self.state_id;
                    let more = self.end_game(data, false);
                    let mut more = more;
                    acts.append(&mut more);
                    proof {
                        assert(self.game@.game_state is AfterGame);
                    }
                    data.save_game_state(&self.game);
                    return (false, acts);
                } else {
                    self.game.game_state = GameState::BeforeFirstQuestion(false);
                    proof {
                        lemma_wf_empty_answered(a, self.game@);
                    }
                    let remaining = self.game.topics.len() - self.game.current_topic;
                    let mut text = if remaining == 1 {
                        String::from_str("Последняя тема")
                    } else {
                        let mut t = String::from_str("Осталось ");
                        let w = crate::topic::Topic::topic_word(remaining);
                        t.append(w.as_str());
                        t
                    };
                    text.append("\n<b>Тема ");
                    let bound = self.topic_set.topics.len();
                    let idx0 = self.game.topics[self.game.current_topic];
                    proof {
                        assert((idx0 as int) < self.topic_set@.topics.len());
                        assert(bound as int == self.topic_set@.topics.len());
                    }
                    let num = crate::text::usize_string(idx0 + 1);
                    text.append(num.as_str());
                    text.append(":</b> ");
                    let title = self.topic_title();
                    text.append(title.as_str());
                    acts.push(
                        Action::Send {
                            text,
                            keyboard: self.game.game_state.keyboard_options(),
                        },
                    );
                    self.schedule(INTERMISSION_SECS, &mut acts);
                }
            },
            GameState::BeforeFirstQuestion(_) => {
                self.ask_question(data, &mut acts);
                return (false, acts);
            },
            GameState::BeforeQuestion(_) => {
                let text = self.question_text();
                acts.push(Action::AskQuestion { text });
                proof {
                    assert(has_ask_question(acts@)) by {
                        assert(acts@[acts@.len() - 1] is AskQuestion);
                    }
                }
                data.save_game_state(&self.game);
                return (false, acts);
            },
            GameState::Question(_, _) => {
                self.end_question(data, false, &mut acts);
                return (false, acts);
            },
            GameState::Answer(_, _, _) => {
                self.incorrect_answer(data, true, false, &mut acts);
                return (false, acts);
            },
            GameState::AfterQuestion(_, answered, correct) => {
                let q = self.current_question();
                let cost: i64 = q.cost as i64;
                self.settle_exec(&answered, correct, cost);
                let ghost ps = self.game@;
                acts.push(Action::StatusUpdate { text: self.status() });
                if self.game.current_question == 4 {
                    self.game.current_question = 0;
                    self.game.current_topic = self.game.current_topic + 1;
                    self.game.game_state = GameState::BeforeTopic(false);
                    proof {
                        lemma_wf_empty_answered(ps, self.game@);
                    }
                    self.show_score(data, &mut acts);
                    return (false, acts);
                } else if self.game.current_topic + 1 == self.game.topics.len()
                    && self.game.current_question + 3 >= 5 {
                    self.game.current_question = self.game.current_question + 1;
                    self.game.game_state = GameState::SpecialScore(false);
                    proof {
                        lemma_wf_empty_answered(ps, self.game@);
                    }
                    self.show_score(data, &mut acts);
                    return (false, acts);
                } else {
                    self.game.current_question = self.game.current_question + 1;
                    proof {
                        lemma_wf_same_answered(ps, self.game@);
                    }
                    self.ask_question(data, &mut acts);
                    return (false, acts);
                }
            },
            GameState::SpecialScore(_) => {
                self.ask_question(data, &mut acts);
                return (false, acts);
            },
            GameState::AfterGame => {
                data.remove_game(self.game.chat_id);
                let ghost dafter = *data;
                let ghost hafter = *self;
                let ghost r_at = acts@.len() as int;
                let link = self.game.invite_link.clone();
                acts.push(Action::RevokeInviteLink { link });
                proof {
                    assert(match acts@[r_at] {
                        Action::RevokeInviteLink { link: l2 } => l2@ == self.game@.invite_link,
                        _ => false,
                    });
                }
                let n = self.game.players.len();
                let mut i: usize = 0;
                while i < n
                    invariant
                        n == self.game.players@.len(),
                        *self == hafter,
                        *data == dafter,
                        self.inv(),
                        data.inv(),
                        has_revoke(acts@, self.game@.invite_link),
                        forall|j: int|
                            0 <= j < i ==> has_kick(acts@, (#[trigger] self.game@.players[j]).0),
                    decreases n - i,
                {
                    let ghost k_at = acts@.len() as int;
                    let ghost pre = acts@;
                    acts.push(Action::Kick { user_id: self.game.players[i].0 });
                    proof {
                        assert(match acts@[k_at] {
                            Action::Kick { user_id } => user_id == self.game@.players[i as int].0,
                            _ => false,
                        });
                        assert forall|j: int|
                            0 <= j < i + 1 implies has_kick(
                            acts@,
                            (#[trigger] self.game@.players[j]).0,
                        ) by {
                            if j < i {
                                let w = choose|w: int|
                                    0 <= w < pre.len() && match #[trigger] pre[w] {
                                        Action::Kick { user_id } => user_id
                                            == self.game@.players[j].0,
                                        _ => false,
                                    };
                                assert(acts@[w] == pre[w]);
                            }
                        }
                        let w0 = choose|w0: int|
                            0 <= w0 < pre.len() && match #[trigger] pre[w0] {
                                Action::RevokeInviteLink { link } => link@
                                    == self.game@.invite_link,
                                _ => false,
                            };
                        assert(acts@[w0] == pre[w0]);
                    }
                    i += 1;
                }
                let m = self.game.spectators.len();
                let mut k: usize = 0;
                while k < m
                    invariant
                        m == self.game.spectators@.len(),
                        *self == hafter,
                        *data == dafter,
                        self.inv(),
                        data.inv(),
                        has_revoke(acts@, self.game@.invite_link),
                        forall|j: int|
                            0 <= j < self.game@.players.len() ==> has_kick(
                                acts@,
                                (#[trigger] self.game@.players[j]).0,
                            ),
                        forall|j: int|
                            0 <= j < k ==> has_kick(acts@, #[trigger] self.game@.spectators[j]),
                    decreases m - k,
                {
                    let ghost k_at = acts@.len() as int;
                    let ghost pre = acts@;
                    acts.push(Action::Kick { user_id: self.game.spectators[k] });
                    proof {
                        assert(match acts@[k_at] {
                            Action::Kick { user_id } => user_id == self.game@.spectators[k as int],
                            _ => false,
                        });
                        assert forall|j: int|
                            0 <= j < self.game@.players.len() implies has_kick(
                            acts@,
                            (#[trigger] self.game@.players[j]).0,
                        ) by {
                            let w = choose|w: int|
                                0 <= w < pre.len() && match #[trigger] pre[w] {
                                    Action::Kick { user_id } => user_id == self.game@.players[j].0,
                                    _ => false,
                                };
                            assert(acts@[w] == pre[w]);
                        }
                        assert forall|j: int|
                            0 <= j < k + 1 implies has_kick(
                            acts@,
                            #[trigger] self.game@.spectators[j],
                        ) by {
                            if j < k {
                                let w = choose|w: int|
                                    0 <= w < pre.len() && match #[trigger] pre[w] {
                                        Action::Kick { user_id } => user_id
                                            == self.game@.spectators[j],
                                        _ => false,
                                    };
                                assert(acts@[w] == pre[w]);
                            }
                        }
                        let w0 = choose|w0: int|
                            0 <= w0 < pre.len() && match #[trigger] pre[w0] {
                                Action::RevokeInviteLink { link } => link@
                                    == self.game@.invite_link,
                                _ => false,
                            };
                        assert(acts@[w0] == pre[w0]);
                    }
                    k += 1;
                }
                return (true, acts);
            },
        }
        data.save_game_state(&self.game);
        (false, acts)
    }

    /// The opening announcement: players, package, and the topic list.
    fn game_start_text(&self) -> (r: String)
        requires
            self.inv(),
    {
        let mut text = String::from_str("Игра началась. Игроки:\n");
        let n = self.game.players.len();
        let mut i: usize = 0;
        while i < n
            invariant
                n == self.game.players@.len(),
            decreases n - i,
        {
            if i > 0 {
                text.append(", ");
            }
            text.append(self.game.players[i].1.user.display_name.as_str());
            text.append(" (");
            let shown = crate::display_rating(self.game.players[i].1.user.rating);
            let sr = crate::text::u64_string(shown as u64);
            text.append(sr.as_str());
            text.append(")");
            i += 1;
        }
        text.append("\n\n");
        text.append(self.topic_set.title.as_str());
        text.append("\n");
        text.append(self.topic_set.description.as_str());
        text.append("\n<b>Список тем:</b>\n");
        let m = self.game.topics.len();
        let mut k: usize = 0;
        while k < m
            invariant
                m == self.game.topics@.len(),
                self.inv(),
            decreases m - k,
        {
            let idx = self.game.topics[k];
            let bound = self.topic_set.topics.len();
            proof {
                assert((idx as int) < self.topic_set@.topics.len());
                assert(bound as int == self.topic_set@.topics.len());
            }
            let num = crate::text::usize_string(idx + 1);
            text.append(num.as_str());
            text.append(". ");
            text.append(self.topic_set.topics[idx].name.as_str());
            text.append("\n");
            k += 1;
        }
        text
    }

    /// One line per game for the status command.
    pub fn status(&self) -> (r: String)
        requires
            self.inv(),
    {
        let mut text = String::from_str("\nИгра по пакету ");
        text.append(self.topic_set.title.as_str());
        text.append("\nИгроки: ");
        let n = self.game.players.len();
        let mut i: usize = 0;
        while i < n
            invariant
                n == self.game.players@.len(),
            decreases n - i,
        {
            if i > 0 {
                text.append(", ");
            }
            text.append(self.game.players[i].1.user.display_name.as_str());
            i += 1;
        }
        text.append("\n");
        let over = match &self.game.game_state {
            GameState::AfterGame => true,
            _ => false,
        };
        if over {
            text.append("\nИгра окончена\n");
        } else {
            text.append("Тема ");
            let cur = if self.game.current_topic + 1 > self.game.topics.len() {
                self.game.topics.len()
            } else {
                self.game.current_topic + 1
            };
            let c = crate::text::usize_string(cur);
            text.append(c.as_str());
            text.append("/");
            let t = crate::text::usize_string(self.game.topics.len());
            text.append(t.as_str());
            text.append("\n");
        }
        text
    }
}

pub open spec fn has_ask_question(acts: Seq<Action>) -> bool {
    exists|i: int| 0 <= i < acts.len() && (#[trigger] acts[i]) is AskQuestion
}


pub open spec fn has_revoke(acts: Seq<Action>, invite: Seq<char>) -> bool {
    exists|i: int|
        0 <= i < acts.len() && match #[trigger] acts[i] {
            Action::RevokeInviteLink { link } => link@ == invite,
            _ => false,
        }
}

/// The heading of the score board: final once every topic is done.
pub open spec fn spec_score_header(h: GameHandle) -> Seq<char> {
    if h.game@.current_topic == h.game@.topics.len() {
        ("<b>Финальный счёт:</b>\n")@
    } else {
        ("<b>Teкущий счёт:</b>\n")@
    }
}

/// Everything a matching timer firing guarantees: the resume path, the
/// arrival countdown that never advances past a missing player, the question
/// cycle, the settlement walk, and the epilogue that empties the room.
pub open spec fn spec_advance_post(
    pre: GameHandle,
    dpre: crate::data::Data,
    post: GameHandle,
    dpost: crate::data::Data,
    all_present: bool,
    done: bool,
    acts: Seq<Action>,
) -> bool {
    &&& post.inv()
    &&& dpost.inv()
    &&& post.topic_set == pre.topic_set
    // a paused phase only resumes
    &&& (spec_paused(pre.game@.game_state) ==> post.game@ == (GameView {
        game_state: spec_with_pause(pre.game@.game_state, false),
        ..pre.game@
    }) && has_schedule(acts, INTERMISSION_SECS, post.state_id) && !done)
    // while a player is missing the game never advances: the countdown
    // decrements down to one minute and then holds
    &&& ((match pre.game@.game_state {
        GameStateView::BeforeGame(p, m) => !p && !all_present,
        _ => false,
    }) ==> post.game@ == (GameView {
        game_state: GameStateView::BeforeGame(
            false,
            (match pre.game@.game_state {
                GameStateView::BeforeGame(_, m) => if m > 1 {
                    m - 1
                } else {
                    m
                },
                _ => 0,
            }),
        ),
        ..pre.game@
    }) && has_schedule(acts, PRE_GAME_STEP_SECS, post.state_id))
    // once everyone arrived the game opens
    &&& ((match pre.game@.game_state {
        GameStateView::BeforeGame(p, m) => !p && all_present,
        _ => false,
    }) ==> post.game@ == (GameView {
        game_state: GameStateView::BeforeTopic(false),
        ..pre.game@
    }) && has_schedule(acts, INTERMISSION_SECS, post.state_id))
    // a finished list of topics settles the game
    &&& ((pre.game@.game_state == GameStateView::BeforeTopic(false) && pre.game@.current_topic
        == pre.game@.topics.len()) ==> post.game@.game_state is AfterGame)
    &&& ((pre.game@.game_state == GameStateView::BeforeTopic(false) && pre.game@.current_topic
        < pre.game@.topics.len()) ==> post.game@ == (GameView {
        game_state: GameStateView::BeforeFirstQuestion(false),
        ..pre.game@
    }) && has_schedule(acts, INTERMISSION_SECS, post.state_id))
    &&& (pre.game@.game_state == GameStateView::BeforeFirstQuestion(false) ==> post.game@
        == (GameView { game_state: GameStateView::BeforeQuestion(false), ..pre.game@ })
        && has_schedule(acts, 1, post.state_id))
    // the question is posted by the caller, which then reports the message id
    &&& (pre.game@.game_state == GameStateView::BeforeQuestion(false) ==> post.game@ == pre.game@
        && has_ask_question(acts))
    // an expired question closes at once, whoever answered
    &&& ((pre.game@.game_state is Question && !spec_paused(pre.game@.game_state)) ==> post.game@
        == (GameView {
        game_state: GameStateView::AfterQuestion(
            false,
            answered_of(pre.game@.game_state),
            None,
        ),
        ..pre.game@
    }) && has_schedule(acts, INTERMISSION_SECS, post.state_id) && has_send_text(
        acts,
        crate::topic::spec_display_answers(spec_current_question(pre), false),
    ))
    // an expired answer counts as wrong
    &&& (pre.game@.game_state is Answer ==> post.game@.game_state == (match pre.game@.game_state {
        GameStateView::Answer(m, a, cur) => GameStateView::Question(m, a.push(cur)),
        other => other,
    }))
    // the settlement of a question: scores move, the cursor advances, and a
    // topic boundary shows the score board
    &&& ((match pre.game@.game_state {
        GameStateView::AfterQuestion(p, a, c) => !p,
        _ => false,
    }) ==> spec_after_question_step(pre.game@, post.game@, spec_question_cost(pre))
        && ((post.game@.game_state is BeforeTopic || post.game@.game_state is SpecialScore)
        ==> has_send_starting(acts, spec_score_header(post))))
    &&& (pre.game@.game_state == GameStateView::SpecialScore(false) ==> post.game@ == (GameView {
        game_state: GameStateView::BeforeQuestion(false),
        ..pre.game@
    }) && has_schedule(acts, 1, post.state_id))
    // the epilogue: the snapshot is deleted, the invite link dies, and
    // everyone is removed from the room
    &&& (pre.game@.game_state is AfterGame ==> done && dpost.game_of(pre.game.chat_id) is None
        && has_revoke(acts, pre.game@.invite_link) && (forall|i: int|
        0 <= i < pre.game@.players.len() ==> has_kick(acts, (#[trigger] pre.game@.players[i]).0))
        && (forall|i: int|
        0 <= i < pre.game@.spectators.len() ==> has_kick(acts, #[trigger] pre.game@.spectators[i])))
    &&& (!(pre.game@.game_state is AfterGame) ==> !done && dpost.game_of(post.game.chat_id)
        == Some(post.game@))
}

/// The cost of the question the cursor points at.
pub open spec fn spec_question_cost(h: GameHandle) -> int {
    let t = h.game@.topics[h.game@.current_topic] as int;
    h.topic_set@.topics[t].questions[h.game@.current_question].cost
}

/// How a question settles and where the cursor goes, per the design: scores
/// move by the walk over the answered list, then either the next topic opens,
/// the pre-final score is shown, or the next question is asked.
pub open spec fn spec_after_question_step(a: GameView, b: GameView, cost: int) -> bool {
    match a.game_state {
        GameStateView::AfterQuestion(_, answered, correct) => {
            let ps = settle(a.players, answered, correct, cost);
            if a.current_question == 4 {
                b == (GameView {
                    players: ps,
                    current_question: 0,
                    current_topic: a.current_topic + 1,
                    game_state: GameStateView::BeforeTopic(false),
                    ..a
                })
            } else if a.current_topic + 1 == a.topics.len() && a.current_question + 3 >= 5 {
                b == (GameView {
                    players: ps,
                    current_question: a.current_question + 1,
                    game_state: GameStateView::SpecialScore(false),
                    ..a
                })
            } else {
                b == (GameView {
                    players: ps,
                    current_question: a.current_question + 1,
                    game_state: GameStateView::BeforeQuestion(false),
                    ..a
                })
            }
        },
        _ => true,
    }
}

impl GameHandle {
    /// Restores a freshly loaded snapshot: timed phases resume paused with
    /// the long clock, a question mid-flight is closed, and the play chat is
    /// told the game is paused.
    pub fn process_starting_state(&mut self, data: &mut crate::data::Data) -> (acts: Vec<Action>)
        requires
            old(self).inv(),
            old(self).fresh_ids(),
            old(data).inv(),
            (match old(self).game@.game_state {
                GameStateView::BeforeGame(_, m) => m >= 1,
                _ => true,
            }),
        ensures
            final(self).inv(),
            final(data).inv(),
            final(self).topic_set == old(self).topic_set,
            (match old(self).game@.game_state {
                GameStateView::BeforeGame(_, m) => final(self).game@ == (GameView {
                    game_state: GameStateView::BeforeGame(false, m),
                    ..old(self).game@
                }) && has_schedule(acts@, PRE_GAME_STEP_SECS, final(self).state_id),
                GameStateView::BeforeTopic(_) => final(self).game@ == (GameView {
                    game_state: GameStateView::BeforeTopic(true),
                    ..old(self).game@
                }) && has_schedule(acts@, PAUSE_SECS, final(self).state_id),
                GameStateView::BeforeFirstQuestion(_) => final(self).game@ == (GameView {
                    game_state: GameStateView::BeforeFirstQuestion(true),
                    ..old(self).game@
                }) && has_schedule(acts@, PAUSE_SECS, final(self).state_id),
                GameStateView::BeforeQuestion(_) => final(self).game@ == (GameView {
                    game_state: GameStateView::BeforeQuestion(true),
                    ..old(self).game@
                }) && has_schedule(acts@, PAUSE_SECS, final(self).state_id),
                GameStateView::Question(_, a) => final(self).game@ == (GameView {
                    game_state: GameStateView::AfterQuestion(true, a, None),
                    ..old(self).game@
                }) && has_schedule(acts@, PAUSE_SECS, final(self).state_id),
                GameStateView::Answer(m, a, cur) => final(self).game@.game_state
                    == GameStateView::Question(m, a.push(cur)),
                GameStateView::AfterQuestion(_, a, c) => final(self).game@ == (GameView {
                    game_state: GameStateView::AfterQuestion(true, a, c),
                    ..old(self).game@
                }) && has_schedule(acts@, PAUSE_SECS, final(self).state_id),
                GameStateView::SpecialScore(_) => final(self).game@ == (GameView {
                    game_state: GameStateView::SpecialScore(true),
                    ..old(self).game@
                }) && has_schedule(acts@, PAUSE_SECS, final(self).state_id),
                GameStateView::AfterGame => final(self).game@ == old(self).game@ && has_schedule(
                    acts@,
                    AFTER_GAME_SECS,
                    final(self).state_id,
                ),
            }),
            // every phase but the arrival countdown announces the paused
            // restart; the countdown resumes silently
            !(old(self).game@.game_state is BeforeGame) ==> has_send_text(
                acts@,
                ("Бот восстановлен после перезапуска. Он находится на паузе.")@,
            ),
            old(self).game@.game_state is BeforeGame ==> only_schedules(acts@),
            final(data).game_of(final(self).game.chat_id) == Some(final(self).game@),
            spec_data_same_but_games(*old(data), *final(data)),
    {
        let mut acts: Vec<Action> = Vec::new();
        let ghost a = self.game@;
        let state = clone_state(&self.game.game_state);
        match state {
            GameState::BeforeGame(_, minutes) => {
                self.game.game_state = GameState::BeforeGame(false, minutes);
                proof {
                    lemma_wf_empty_answered(a, self.game@);
                }
                self.schedule(PRE_GAME_STEP_SECS, &mut acts);
            },
            GameState::BeforeTopic(_) => {
                self.game.game_state = GameState::BeforeTopic(true);
                proof {
                    lemma_wf_empty_answered(a, self.game@);
                }
                self.schedule(PAUSE_SECS, &mut acts);
            },
            GameState::BeforeFirstQuestion(_) => {
                self.game.game_state = GameState::BeforeFirstQuestion(true);
                proof {
                    lemma_wf_empty_answered(a, self.game@);
                }
                self.schedule(PAUSE_SECS, &mut acts);
            },
            GameState::BeforeQuestion(_) => {
                self.game.game_state = GameState::BeforeQuestion(true);
                proof {
                    lemma_wf_empty_answered(a, self.game@);
                }
                self.schedule(PAUSE_SECS, &mut acts);
            },
            GameState::Question(_, _) => {
                self.end_question(data, true, &mut acts);
            },
            GameState::Answer(_, _, _) => {
                self.incorrect_answer(data, false, true, &mut acts);
            },
            GameState::AfterQuestion(_, answers, correct_answer) => {
                self.game.game_state = GameState::AfterQuestion(true, answers, correct_answer);
                proof {
                    lemma_wf_same_answered(a, self.game@);
                }
                self.schedule(PAUSE_SECS, &mut acts);
            },
            GameState::SpecialScore(_) => {
                self.game.game_state = GameState::SpecialScore(true);
                proof {
                    lemma_wf_empty_answered(a, self.game@);
                }
                self.schedule(PAUSE_SECS, &mut acts);
            },
            GameState::AfterGame => {
                self.schedule(AFTER_GAME_SECS, &mut acts);
            },
        }
        if !self.game.game_state.before() {
            let ghost pre = acts@;
            let ghost s_at = acts@.len() as int;
            acts.push(
                Action::Send {
                    text: String::from_str(
                        "Бот восстановлен после перезапуска. Он находится на паузе.",
                    ),
                    keyboard: KeyboardOptions::Remove,
                },
            );
            proof {
                assert(match acts@[s_at] {
                    Action::Send { text, keyboard } => text@ == (
                    "Бот восстановлен после перезапуска. Он находится на паузе.")@,
                    _ => false,
                });
                assert forall|secs: u64, id: u64|
                    has_schedule(pre, secs, id) implies has_schedule(acts@, secs, id) by {
                    let w = choose|w: int|
                        0 <= w < pre.len() && is_schedule(#[trigger] pre[w], secs, id);
                    assert(acts@[w] == pre[w]);
                }
            }
        }
        data.save_game_state(&self.game);
        acts
    }

    /// New arrivals in the play room: players are marked present, strangers
    /// are kicked, and once everyone is in the countdown shortens.
    /// New arrivals in the play room: players are marked present, strangers
    /// are kicked, and once everyone is in the countdown shortens.
    pub fn process_new_members(&mut self, data: &mut crate::data::Data, user_ids: &Vec<i64>) -> (acts: Vec<Action>)
        requires
            old(self).inv(),
            old(self).fresh_ids(),
            old(data).inv(),
        ensures
            final(self).inv(),
            final(data).inv(),
            final(self).topic_set == old(self).topic_set,
            final(data).game_of(final(self).game.chat_id) == Some(final(self).game@),
            spec_data_same_but_games(*old(data), *final(data)),
            !(old(self).game@.game_state is BeforeGame) ==> final(self).game@ == old(self).game@,
            // anyone who is neither a participant nor a spectator is kicked
            forall|j: int|
                0 <= j < user_ids@.len() && !is_player(old(self).game@, #[trigger] user_ids@[j])
                    && !old(self).game@.spectators.contains(user_ids@[j]) ==> has_kick(
                    acts@,
                    user_ids@[j],
                ),
            // while waiting, arrivals are marked present and nothing else of
            // a player changes
            old(self).game@.game_state is BeforeGame ==> spec_presence_only(
                old(self).game@,
                final(self).game@,
            ) && (forall|q: int|
                0 <= q < old(self).game@.players.len() ==> (#[trigger] final(self).game@.players[q]).1.present == (old(self).game@.players[q].1.present
                    || user_ids@.contains(old(self).game@.players[q].0))),
            // once the last player arrives the countdown drops to one minute
            (old(self).game@.game_state is BeforeGame && (forall|q: int|
                0 <= q < final(self).game@.players.len() ==> (#[trigger] final(self).game@.players[q]).1.present)) ==> final(self).game@.game_state
                == GameStateView::BeforeGame(spec_paused(old(self).game@.game_state), 1)
                && has_send_text(acts@, ("Игра скоро начнется")@) && has_schedule(
                acts@,
                if spec_paused(old(self).game@.game_state) {
                    PAUSE_SECS
                } else {
                    PRE_GAME_SECS
                },
                final(self).state_id,
            ),
            (old(self).game@.game_state is BeforeGame && !(forall|q: int|
                0 <= q < final(self).game@.players.len() ==> (#[trigger] final(self).game@.players[q]).1.present)) ==> final(self).game@.game_state == old(self).game@.game_state,
    {
        let mut acts: Vec<Action> = Vec::new();
        let before_game = self.game.game_state.before();
        let n = user_ids.len();
        let mut i: usize = 0;
        while i < n
            invariant
                n == user_ids@.len(),
                self.inv(),
                data.inv(),
                self.topic_set == old(self).topic_set,
                self.state_id == old(self).state_id,
                before_game == (old(self).game@.game_state is BeforeGame),
                !before_game ==> *self == *old(self),
                before_game ==> spec_presence_only(old(self).game@, self.game@),
                before_game ==> forall|q: int|
                    0 <= q < old(self).game@.players.len() ==> (#[trigger] self.game@.players[q]).1.present
                        == (old(self).game@.players[q].1.present || exists|w: int|
                        0 <= w < i && user_ids@[w] == old(self).game@.players[q].0),
                self.game@.game_state == old(self).game@.game_state,
                *data == *old(data),
                i <= n,
                forall|j: int|
                    0 <= j < i && !is_player(old(self).game@, #[trigger] user_ids@[j]) && !old(self).game@.spectators.contains(user_ids@[j]) ==> has_kick(acts@, user_ids@[j]),
            decreases n - i,
        {
            let id = user_ids[i];
            let playing = match self.find_player(id) {
                Some(_) => true,
                None => false,
            };
            proof {
                if before_game {
                    assert(is_player(old(self).game@, id) == is_player(self.game@, id)) by {
                        if is_player(old(self).game@, id) {
                            let w = choose|w: int|
                                0 <= w < old(self).game@.players.len() && old(self).game@.players[w].0 == id;
                            assert(self.game@.players[w].0 == id);
                        }
                        if is_player(self.game@, id) {
                            let w = choose|w: int|
                                0 <= w < self.game@.players.len() && self.game@.players[w].0 == id;
                            assert(old(self).game@.players[w].0 == id);
                        }
                    }
                    assert(old(self).game@.spectators == self.game@.spectators);
                }
            }
            if playing && before_game {
                let ghost mid = *self;
                self.mark_present(id);
                proof {
                    assert forall|q: int|
                        0 <= q < old(self).game@.players.len() implies (
                    #[trigger] self.game@.players[q]).1.present == (old(self).game@.players[q].1.present || exists|w: int|
                        0 <= w < i + 1 && user_ids@[w] == old(self).game@.players[q].0) by {
                        assert(self.game@.players[q].1.present == (mid.game@.players[q].1.present
                            || mid.game@.players[q].0 == id));
                        assert(mid.game@.players[q].0 == old(self).game@.players[q].0);
                        if self.game@.players[q].1.present {
                            if !old(self).game@.players[q].1.present {
                                if mid.game@.players[q].1.present {
                                    let w = choose|w: int|
                                        0 <= w < i && user_ids@[w] == old(self).game@.players[q].0;
                                    assert(user_ids@[w] == old(self).game@.players[q].0);
                                } else {
                                    assert(user_ids@[i as int] == old(self).game@.players[q].0);
                                }
                            }
                        } else {
                            if exists|w: int|
                                0 <= w < i + 1 && user_ids@[w] == old(self).game@.players[q].0 {
                                let w = choose|w: int|
                                    0 <= w < i + 1 && user_ids@[w] == old(self).game@.players[q].0;
                                if w < i {
                                } else {
                                    assert(mid.game@.players[q].0 == id);
                                }
                            }
                        }
                    }
                }
            } else if !playing {
                let watching = contains_spectator(&self.game.spectators, id);
                if !watching {
                    let ghost pre = acts@;
                    acts.push(Action::Kick { user_id: id });
                    proof {
                        assert(match acts@[pre.len() as int] {
                            Action::Kick { user_id } => user_id == id,
                            _ => false,
                        });
                        assert forall|j: int|
                            0 <= j < i + 1 && !is_player(old(self).game@, #[trigger] user_ids@[j])
                                && !old(self).game@.spectators.contains(user_ids@[j]) implies has_kick(
                            acts@,
                            user_ids@[j],
                        ) by {
                            if j < i {
                                let w = choose|w: int|
                                    0 <= w < pre.len() && match #[trigger] pre[w] {
                                        Action::Kick { user_id } => user_id == user_ids@[j],
                                        _ => false,
                                    };
                                assert(acts@[w] == pre[w]);
                            }
                        }
                    }
                }
            }
            i += 1;
        }
        proof {
            if before_game {
                assert forall|q: int|
                    0 <= q < old(self).game@.players.len() implies (
                #[trigger] self.game@.players[q]).1.present == (old(self).game@.players[q].1.present
                    || user_ids@.contains(old(self).game@.players[q].0)) by {
                    if user_ids@.contains(old(self).game@.players[q].0) {
                        let w = choose|w: int|
                            0 <= w < user_ids@.len() && user_ids@[w] == old(self).game@.players[q].0;
                    }
                    if exists|w: int|
                        0 <= w < n && user_ids@[w] == old(self).game@.players[q].0 {
                        let w = choose|w: int|
                            0 <= w < n && user_ids@[w] == old(self).game@.players[q].0;
                        assert(user_ids@.contains(old(self).game@.players[q].0));
                    }
                }
            }
        }
        if before_game {
            let all_here = self.all_present();
            if all_here {
                let paused = self.game.game_state.paused();
                let ghost a = self.game@;
                self.game.game_state = GameState::BeforeGame(paused, 1);
                proof {
                    lemma_wf_empty_answered(a, self.game@);
                }
                let ghost s_at = acts@.len() as int;
                let ghost kicks_pre = acts@;
                acts.push(
                    Action::Send {
                        text: String::from_str("Игра скоро начнется"),
                        keyboard: KeyboardOptions::Remove,
                    },
                );
                proof {
                    assert(match acts@[s_at] {
                        Action::Send { text, keyboard } => text@ == ("Игра скоро начнется")@,
                        _ => false,
                    });
                    lemma_kicks_carry(kicks_pre, acts@, *old(self), user_ids@);
                }
                let ghost kicks_pre2 = acts@;
                if !paused {
                    self.schedule(PRE_GAME_SECS, &mut acts);
                } else {
                    self.schedule(PAUSE_SECS, &mut acts);
                }
                proof {
                    assert(match acts@[s_at] {
                        Action::Send { text, keyboard } => text@ == ("Игра скоро начнется")@,
                        _ => false,
                    });
                    lemma_kicks_carry(kicks_pre2, acts@, *old(self), user_ids@);
                }
            }
        }
        data.save_game_state(&self.game);
        acts
    }

    /// Marks one participant as present in the play room.
    fn mark_present(&mut self, id: i64)
        requires
            old(self).inv(),
        ensures
            final(self).inv(),
            final(self).topic_set == old(self).topic_set,
            final(self).state_id == old(self).state_id,
            final(self).game@.game_state == old(self).game@.game_state,
            spec_presence_only(old(self).game@, final(self).game@),
            forall|i: int|
                0 <= i < old(self).game@.players.len() ==> (#[trigger] final(self).game@.players[i]).1.present == (old(self).game@.players[i].1.present || old(self).game@.players[i].0 == id),
    {
        let n = self.game.players.len();
        let mut ps: Vec<(i64, PlayerState)> = Vec::new();
        let mut i: usize = 0;
        while i < n
            invariant
                n == self.game.players@.len(),
                i <= n,
                ps@.len() == i,
                forall|j: int|
                    0 <= j < i ==> (#[trigger] ps@[j]).0 == self.game.players@[j].0 && ps@[j].1@.user
                        == self.game.players@[j].1@.user && ps@[j].1@.score
                        == self.game.players@[j].1@.score && ps@[j].1@.present == (
                    self.game.players@[j].1@.present || self.game.players@[j].0 == id),
            decreases n - i,
        {
            let pid = self.game.players[i].0;
            let st = self.game.players[i].1.clone();
            if pid == id {
                ps.push((pid, PlayerState { user: st.user, score: st.score, present: true }));
            } else {
                ps.push((pid, st));
            }
            i += 1;
        }
        let ghost a = self.game@;
        self.game.players = ps;
        proof {
            assert forall|x: int, y: int|
                0 <= x < y < self.game@.players.len() implies self.game@.players[x].0
                != self.game@.players[y].0 by {
                assert(self.game@.players[x].0 == a.players[x].0);
                assert(self.game@.players[y].0 == a.players[y].0);
            }
            assert forall|w: int|
                0 <= w < answered_of(self.game@.game_state).len() implies is_player(
                self.game@,
                #[trigger] answered_of(self.game@.game_state)[w],
            ) by {
                assert(is_player(a, answered_of(a.game_state)[w]));
                let v = choose|v: int|
                    0 <= v < a.players.len() && a.players[v].0 == answered_of(a.game_state)[w];
                assert(self.game@.players[v].0 == answered_of(self.game@.game_state)[w]);
            }
            match self.game@.game_state {
                GameStateView::Answer(_, _, cur) => {
                    assert(is_player(a, cur));
                    let v = choose|v: int| 0 <= v < a.players.len() && a.players[v].0 == cur;
                    assert(self.game@.players[v].0 == cur);
                },
                GameStateView::AfterQuestion(_, _, copt) => match copt {
                    Some(cu) => {
                        assert(is_player(a, cu));
                        let v = choose|v: int| 0 <= v < a.players.len() && a.players[v].0 == cu;
                        assert(self.game@.players[v].0 == cu);
                    },
                    None => {},
                },
                _ => {},
            }
        }
    }

    /// Whether every participant has arrived.
    fn all_present(&self) -> (r: bool)
        ensures
            r == (forall|i: int|
                0 <= i < self.game@.players.len() ==> (#[trigger] self.game@.players[i]).1.present),
    {
        let n = self.game.players.len();
        let mut i: usize = 0;
        while i < n
            invariant
                n == self.game.players@.len(),
                i <= n,
                forall|j: int| 0 <= j < i ==> (#[trigger] self.game@.players[j]).1.present,
            decreases n - i,
        {
            if !self.game.players[i].1.present {
                proof {
                    assert(!self.game@.players[i as int].1.present);
                }
                return false;
            }
            proof {
                assert(self.game@.players[i as int].1.present == self.game.players@[i as int].1@.present);
            }
            i += 1;
        }
        true
    }
}

/// The same player ids in the same order, whatever the flags and scores.
pub open spec fn players_same_ids(a: GameView, b: GameView) -> bool {
    b.players.len() == a.players.len() && forall|i: int|
        0 <= i < a.players.len() ==> (#[trigger] b.players[i]).0 == a.players[i].0
}

/// Only the presence flags may differ between the two snapshots.
pub open spec fn spec_presence_only(a: GameView, b: GameView) -> bool {
    &&& b == (GameView { players: b.players, game_state: b.game_state, ..a })
    &&& b.players.len() == a.players.len()
    &&& (forall|i: int|
        0 <= i < a.players.len() ==> (#[trigger] b.players[i]).0 == a.players[i].0
            && b.players[i].1.user == a.players[i].1.user && b.players[i].1.score
            == a.players[i].1.score)
}

fn contains_spectator(v: &Vec<i64>, id: i64) -> (r: bool)
    ensures
        r == v@.contains(id),
{
    let n = v.len();
    let mut i: usize = 0;
    while i < n
        invariant
            n == v@.len(),
            i <= n,
            forall|j: int| 0 <= j < i ==> v@[j] != id,
        decreases n - i,
    {
        if v[i] == id {
            return true;
        }
        i += 1;
    }
    false
}

impl GameHandle {
    /// One text message from the play chat, routed by the first word: game
    /// control (abort, pause, continue, adjust) and the in-round commands.
    #[verifier::rlimit(100)]
    pub fn process_message(&mut self, data: &mut crate::data::Data, from: i64, text: &str) -> (acts: Vec<Action>)
        requires
            old(self).inv(),
            old(self).fresh_ids(),
            old(data).inv(),
            players_known(*old(data), old(self).game@),
        ensures
            final(self).inv(),
            final(data).inv(),
            final(self).topic_set == old(self).topic_set,
            // aborting ends the game with no rating change
            cmd_of(text@) == ("abort")@ ==> final(self).game@.game_state is AfterGame && final(data).users == old(data).users,
            // a pause holds a pausable, running phase with the long clock
            ((cmd_of(text@) == ("pause")@ || cmd_of(text@) == ("пауза")@) && spec_pausable(
                old(self).game@.game_state,
            ) && !spec_paused(old(self).game@.game_state)) ==> final(self).game@ == (GameView {
                game_state: spec_with_pause(old(self).game@.game_state, true),
                ..old(self).game@
            }) && has_schedule(acts@, PAUSE_SECS, final(self).state_id),
            // continuing releases a paused phase
            ((cmd_of(text@) == ("continue")@ || cmd_of(text@) == ("продолжить")@)
                && spec_pausable(old(self).game@.game_state) && spec_paused(
                old(self).game@.game_state,
            )) ==> final(self).game@ == (GameView {
                game_state: spec_with_pause(old(self).game@.game_state, false),
                ..old(self).game@
            }) && has_schedule(acts@, INTERMISSION_SECS, final(self).state_id),
            // a score adjustment needs a paused phase, one argument that is a
            // multiple of ten within ten thousand, and a participant sender;
            // anything else changes no score
            ((cmd_of(text@) == ("adjust")@ || cmd_of(text@) == ("исправить")@)
                && spec_pausable(old(self).game@.game_state) && spec_paused(
                old(self).game@.game_state,
            ) && args_of(text@).len() == 1 && adjust_arg_ok(args_of(text@)[0]) && is_player(old(self).game@, from)) ==> final(self).game@ == (GameView {
                players: add_score(
                    old(self).game@.players,
                    from,
                    adjust_arg_value(args_of(text@)[0]),
                ),
                ..old(self).game@
            }),
            ((cmd_of(text@) == ("adjust")@ || cmd_of(text@) == ("исправить")@)
                && spec_pausable(old(self).game@.game_state) && spec_paused(
                old(self).game@.game_state,
            ) && !(args_of(text@).len() == 1 && adjust_arg_ok(args_of(text@)[0]))) ==> final(self).game@ == old(self).game@,
            // a bid while the question stands: the bidder gets the floor
            (cmd_of(text@) == ("+")@ && old(self).game@.game_state is Question && !answered_of(
                old(self).game@.game_state,
            ).contains(from) && is_player(old(self).game@, from)) ==> (match old(self).game@.game_state {
                GameStateView::Question(m, a) => final(self).game@ == (GameView {
                    game_state: GameStateView::Answer(m, a, from),
                    ..old(self).game@
                }) && has_schedule(acts@, ANSWER_SECS, final(self).state_id),
                _ => true,
            }),
            // a correct answer from the holder of the floor is acknowledged
            (match old(self).game@.game_state {
                GameStateView::Answer(m, a, cur) => cur == from && cmd_of(text@) != ("abort")@
                    && crate::text::trimmed(text@) != seq!['+'] && spec_answer_accepted(
                    *old(self),
                    crate::text::trimmed(text@),
                ),
                _ => false,
            }) ==> (match old(self).game@.game_state {
                GameStateView::Answer(m, a, cur) => final(self).game@ == (GameView {
                    game_state: GameStateView::AfterQuestion(false, a.push(cur), Some(cur)),
                    ..old(self).game@
                }) && has_schedule(acts@, INTERMISSION_SECS, final(self).state_id),
                _ => true,
            }),
            // a wrong answer reopens the question for the others
            (match old(self).game@.game_state {
                GameStateView::Answer(m, a, cur) => cur == from && cmd_of(text@) != ("abort")@
                    && crate::text::trimmed(text@) != seq!['+'] && !spec_answer_accepted(
                    *old(self),
                    crate::text::trimmed(text@),
                ),
                _ => false,
            }) ==> (match old(self).game@.game_state {
                GameStateView::Answer(m, a, cur) => final(self).game@.game_state
                    == GameStateView::Question(m, a.push(cur)),
                _ => true,
            }),
            // yes claims the answer for a player who tried; no withdraws it
            (match old(self).game@.game_state {
                GameStateView::AfterQuestion(p, a, c) => (cmd_of(text@) == ("yes")@ || cmd_of(text@) == ("да")@) && args_of(text@).len() == 0 && a.contains(from) && c != Some(from),
                _ => false,
            }) ==> (match old(self).game@.game_state {
                GameStateView::AfterQuestion(p, a, c) => final(self).game@ == (GameView {
                    game_state: GameStateView::AfterQuestion(p, a, Some(from)),
                    ..old(self).game@
                }) && has_schedule(
                    acts@,
                    if p {
                        PAUSE_SECS
                    } else {
                        INTERMISSION_SECS
                    },
                    final(self).state_id,
                ),
                _ => true,
            }),
            (match old(self).game@.game_state {
                GameStateView::AfterQuestion(p, a, c) => (cmd_of(text@) == ("no")@ || cmd_of(text@) == ("нет")@) && args_of(text@).len() == 0 && c == Some(from),
                _ => false,
            }) ==> (match old(self).game@.game_state {
                GameStateView::AfterQuestion(p, a, c) => final(self).game@ == (GameView {
                    game_state: GameStateView::AfterQuestion(p, a, None),
                    ..old(self).game@
                }) && has_schedule(
                    acts@,
                    if p {
                        PAUSE_SECS
                    } else {
                        INTERMISSION_SECS
                    },
                    final(self).state_id,
                ),
                _ => true,
            }),
            // a bid from a non-participant, or from someone who already
            // tried, changes nothing
            (old(self).game@.game_state is Question && cmd_of(text@) != ("abort")@ && !(cmd_of(
                text@,
            ) == ("+")@ && is_player(old(self).game@, from) && !answered_of(
                old(self).game@.game_state,
            ).contains(from))) ==> final(self).game@ == old(self).game@,
            // any other word in the correction window changes nothing
            ((match old(self).game@.game_state {
                GameStateView::AfterQuestion(p, a, c) => !((cmd_of(text@) == ("yes")@ || cmd_of(
                    text@,
                ) == ("да")@) && args_of(text@).len() == 0 && a.contains(from) && c != Some(from))
                    && !((cmd_of(text@) == ("no")@ || cmd_of(text@) == ("нет")@) && args_of(
                    text@,
                ).len() == 0 && c == Some(from)),
                _ => false,
            }) && cmd_of(text@) != ("abort")@ && cmd_of(text@) != ("pause")@ && cmd_of(text@)
                != ("пауза")@ && cmd_of(text@) != ("continue")@ && cmd_of(text@) != (
            "продолжить")@ && cmd_of(text@) != ("adjust")@ && cmd_of(text@) != ("исправить")@)
                ==> final(self).game@ == old(self).game@,
            // the floor given: the question is hidden and the bidder asked
            (cmd_of(text@) == ("+")@ && old(self).game@.game_state is Question && !answered_of(
                old(self).game@.game_state,
            ).contains(from) && is_player(old(self).game@, from)) ==> (match old(self).game@.game_state {
                GameStateView::Question(m, a) => has_edit(
                    acts@,
                    m as i64,
                    spec_hidden_message(*old(self)),
                ) && has_send_text(
                    acts@,
                    ("Ваш ответ, ")@ + player_name_of(old(self).game@.players, from) + ("?")@,
                ),
                _ => true,
            }),
            // the snapshot is kept in step: every path but the ignored "+"
            // echo of the current answerer writes it
            (match old(self).game@.game_state {
                GameStateView::Answer(m, a, cur) => cur == from && cmd_of(text@) != ("abort")@
                    && crate::text::trimmed(text@) == seq!['+'],
                _ => false,
            }) ==> *final(self) == *old(self) && *final(data) == *old(data),
            !(match old(self).game@.game_state {
                GameStateView::Answer(m, a, cur) => cur == from && cmd_of(text@) != ("abort")@
                    && crate::text::trimmed(text@) == seq!['+'],
                _ => false,
            }) ==> final(data).game_of(final(self).game.chat_id) == Some(final(self).game@),
    {
        let mut acts: Vec<Action> = Vec::new();
        let trimmed_text = crate::text::str_trim(text);
        let tokens = crate::text::split_spaces(trimmed_text.as_str());
        let tok0 = crate::text::lowercase(tokens[0].as_str());
        let command = if tok0.as_str().unicode_len() > 0 && tok0.as_str().get_char(0) == '/' {
            let n0 = tok0.as_str().unicode_len();
            let stripped = tok0.as_str().substring_char(1, n0);
            String::from_str(stripped)
        } else {
            tok0
        };
        let nargs = tokens.len() - 1;
        proof {
            assert(command@ == cmd_of(text@));
            assert(nargs as int == args_of(text@).len());
            assert forall|j: int|
                0 <= j < nargs implies tokens@[j + 1]@ == #[trigger] args_of(text@)[j] by {
                assert(tokens@[j + 1]@ == crate::text::spec_split_spaces(
                    crate::text::trimmed(text@),
                )[j + 1]);
            }
        }
        proof {
            reveal_strlit("abort");
            reveal_strlit("pause");
            reveal_strlit("пауза");
            reveal_strlit("continue");
            reveal_strlit("продолжить");
            reveal_strlit("adjust");
            reveal_strlit("исправить");
            reveal_strlit("+");
            reveal_strlit("yes");
            reveal_strlit("да");
            reveal_strlit("no");
            reveal_strlit("нет");
        }
        if crate::text::str_eq(command.as_str(), "abort") {
            proof {
                assert(("abort")@ != ("pause")@) by {
                    assert(("abort")@[0] == 'a');
                    assert(("pause")@[0] == 'p');
                }
                assert(("abort")@ != ("пауза")@) by {
                    assert(("abort")@[0] == 'a');
                    assert(("пауза")@[0] == 'п');
                }
                assert(("abort")@ != ("continue")@) by {
                    assert(("abort")@.len() == 5);
                    assert(("continue")@.len() == 8);
                }
                assert(("abort")@ != ("продолжить")@) by {
                    assert(("abort")@.len() == 5);
                    assert(("продолжить")@.len() == 10);
                }
                assert(("abort")@ != ("adjust")@) by {
                    assert(("abort")@.len() == 5);
                    assert(("adjust")@.len() == 6);
                }
                assert(("abort")@ != ("исправить")@) by {
                    assert(("abort")@.len() == 5);
                    assert(("исправить")@.len() == 9);
                }
                assert(("abort")@ != ("+")@) by {
                    assert(("abort")@.len() == 5);
                    assert(("+")@.len() == 1);
                }
                assert(("abort")@ != ("yes")@) by {
                    assert(("abort")@.len() == 5);
                    assert(("yes")@.len() == 3);
                }
                assert(("abort")@ != ("да")@) by {
                    assert(("abort")@.len() == 5);
                    assert(("да")@.len() == 2);
                }
                assert(("abort")@ != ("no")@) by {
                    assert(("abort")@.len() == 5);
                    assert(("no")@.len() == 2);
                }
                assert(("abort")@ != ("нет")@) by {
                    assert(("abort")@.len() == 5);
                    assert(("нет")@.len() == 3);
                }
            }
            let mut more = self.end_game(data, true);
            acts.append(&mut more);
            data.save_game_state(&self.game);
            return acts;
        }
        let pausable = self.game.game_state.pausable();
        if pausable {
            let is_pause = crate::text::str_eq(command.as_str(), "pause") || crate::text::str_eq(
                command.as_str(),
                "пауза",
            );
            let is_continue = crate::text::str_eq(command.as_str(), "continue")
                || crate::text::str_eq(command.as_str(), "продолжить");
            if is_pause {
                let ghost a = self.game@;
                let was = self.game.game_state.set_pause(true);
                proof {
                    lemma_wf_same_answered(a, self.game@);
                }
                if !was {
                    acts.push(
                        Action::Send {
                            text: String::from_str("Игра приостановлена"),
                            keyboard: self.game.game_state.keyboard_options(),
                        },
                    );
                    self.schedule(PAUSE_SECS, &mut acts);
                    data.save_game_state(&self.game);
                    return acts;
                }
            } else if is_continue {
                let ghost a = self.game@;
                let was = self.game.game_state.set_pause(false);
                proof {
                    lemma_wf_same_answered(a, self.game@);
                }
                if was {
                    acts.push(
                        Action::Send {
                            text: String::from_str("Игра возобновлена"),
                            keyboard: self.game.game_state.keyboard_options(),
                        },
                    );
                    self.schedule(INTERMISSION_SECS, &mut acts);
                    data.save_game_state(&self.game);
                    return acts;
                }
            } else if self.game.game_state.paused() && (crate::text::str_eq(
                command.as_str(),
                "adjust",
            ) || crate::text::str_eq(command.as_str(), "исправить")) {
                if nargs != 1 {
                    acts.push(
                        Action::Send {
                            text: String::from_str("Неверное число аргументов"),
                            keyboard: self.game.game_state.keyboard_options(),
                        },
                    );
                } else {
                    let ok_value = match crate::text::parse_i64(tokens[1].as_str()) {
                        Some(v) => if -10000 <= v && v <= 10000 && v % 10 == 0 {
                            Some(v)
                        } else {
                            None
                        },
                        None => None,
                    };
                    match ok_value {
                        None => {
                            acts.push(
                                Action::Send {
                                    text: String::from_str(
                                        "Некорректное число очков",
                                    ),
                                    keyboard: self.game.game_state.keyboard_options(),
                                },
                            );
                            proof {
                                assert(!(args_of(text@).len() == 1 && adjust_arg_ok(
                                    args_of(text@)[0],
                                )));
                            }
                        },
                        Some(by) => {
                            match self.find_player(from) {
                                None => {
                                    proof {
                                        assert(add_score(self.game@.players, from, by as int)
                                            =~= self.game@.players);
                                    }
                                },
                                Some(w) => {
                                    let ghost a = self.game@;
                                    let ps = add_score_exec(&self.game.players, from, by);
                                    self.game.players = ps;
                                    proof {
                                        lemma_add_score_wf(a, self.game@, from, by as int);
                                        assert(self.game@.players[w as int].0 == a.players[w as int].0);
                                        assert(is_player(self.game@, from));
                                    }
                                    let mut note = String::from_str(
                                        "Новое количество очков у ",
                                    );
                                    let nm = self.user_name(from);
                                    note.append(nm.as_str());
                                    note.append(" - ");
                                    let w2 = self.find_player(from);
                                    match w2 {
                                        Some(w2) => {
                                            let scs = crate::text::i64_string(
                                                self.game.players[w2].1.score,
                                            );
                                            note.append(scs.as_str());
                                        },
                                        None => {},
                                    }
                                    acts.push(
                                        Action::Send {
                                            text: note,
                                            keyboard: self.game.game_state.keyboard_options(),
                                        },
                                    );
                                },
                            }
                            acts.push(Action::StatusUpdate { text: self.status() });
                        },
                    }
                }
                data.save_game_state(&self.game);
                return acts;
            }
        }
        let state = clone_state(&self.game.game_state);
        match state {
            GameState::Question(message_id, answers) => {
                let is_plus = crate::text::str_eq(command.as_str(), "+");
                let in_list = contains_spectator(&answers, from);
                let playing = match self.find_player(from) {
                    Some(_) => true,
                    None => false,
                };
                if is_plus && !in_list && playing {
                    let ghost a = self.game@;
                    self.game.game_state = GameState::Answer(message_id, answers, from);
                    proof {
                        lemma_wf_to_answer(a, self.game@, from);
                        assert(spec_hidden_message(*self) == spec_hidden_message(*old(self)));
                        assert(player_name_of(self.game@.players, from) == player_name_of(
                            old(self).game@.players,
                            from,
                        ));
                    }
                    let mut hidden = String::from_str("<b>Тема</b> ");
                    let title = self.topic_title();
                    hidden.append(title.as_str());
                    hidden.append("\n<b>");
                    let q = self.current_question();
                    let c = crate::text::u64_string(q.cost as u64);
                    hidden.append(c.as_str());
                    hidden.append(".</b> Вопрос скрыт");
                    proof {
                        assert(hidden@ == spec_hidden_message(*old(self)));
                    }
                    let ghost e_at = acts@.len() as int;
                    acts.push(Action::Edit { message_id, text: hidden });
                    let mut ask = String::from_str("Ваш ответ, ");
                    let nm = self.user_name(from);
                    ask.append(nm.as_str());
                    ask.append("?");
                    proof {
                        assert(ask@ == ("Ваш ответ, ")@ + player_name_of(
                            old(self).game@.players,
                            from,
                        ) + ("?")@);
                    }
                    let ghost s_at = acts@.len() as int;
                    let ghost ask_text = ask@;
                    acts.push(
                        Action::Send {
                            text: ask,
                            keyboard: self.game.game_state.keyboard_options(),
                        },
                    );
                    self.schedule(ANSWER_SECS, &mut acts);
                    proof {
                        assert(match acts@[e_at] {
                            Action::Edit { message_id: m2, text: t2 } => m2 == message_id && t2@
                                == spec_hidden_message(*old(self)),
                            _ => false,
                        });
                        assert(match acts@[s_at] {
                            Action::Send { text: t2, keyboard } => t2@ == ask_text,
                            _ => false,
                        });
                    }
                }
            },
            GameState::Answer(message_id, answers, current) => {
                if from == current {
                    let plus_only = crate::text::str_eq(trimmed_text.as_str(), "+");
                    proof {
                        reveal_strlit("+");
                        assert(("+")@ =~= seq!['+']);
                    }
                    if plus_only {
                        return acts;
                    }
                    let q = self.current_question();
                    if q.check_answer(trimmed_text.as_str()) {
                        let ghost a = self.game@;
                        let mut answers = answers;
                        answers.push(current);
                        self.game.game_state = GameState::AfterQuestion(
                            false,
                            answers,
                            Some(current),
                        );
                        proof {
                            lemma_wf_answer_closed(a, self.game@);
                        }
                        let text2 = self.question_text();
                        acts.push(Action::Edit { message_id, text: text2 });
                        let mut note = String::from_str(
                            "Это правильный ответ, ",
                        );
                        let nm = self.user_name(current);
                        note.append(nm.as_str());
                        note.append("\n");
                        let rev = q.display_answers(true);
                        note.append(rev.as_str());
                        acts.push(
                            Action::Send {
                                text: note,
                                keyboard: self.game.game_state.keyboard_options(),
                            },
                        );
                        self.schedule(INTERMISSION_SECS, &mut acts);
                    } else {
                        self.incorrect_answer(data, false, false, &mut acts);
                        return acts;
                    }
                }
            },
            GameState::AfterQuestion(paused, answers, correct) => {
                if nargs == 0 {
                    let is_yes = crate::text::str_eq(command.as_str(), "yes")
                        || crate::text::str_eq(command.as_str(), "да");
                    let is_no = crate::text::str_eq(command.as_str(), "no")
                        || crate::text::str_eq(command.as_str(), "нет");
                    let already = match correct {
                        Some(c) => c == from,
                        None => false,
                    };
                    let in_list = contains_spectator(&answers, from);
                    if is_yes && in_list && !already {
                        let ghost a = self.game@;
                        proof {
                            assert(answered_of(a.game_state) == answers@);
                            let j = choose|j: int| 0 <= j < answers@.len() && answers@[j] == from;
                            assert(is_player(a, answered_of(a.game_state)[j]));
                        }
                        self.game.game_state = GameState::AfterQuestion(
                            paused,
                            answers,
                            Some(from),
                        );
                        proof {
                            lemma_wf_same_answered(a, self.game@);
                            let w = choose|w: int|
                                0 <= w < a.players.len() && a.players[w].0 == from;
                            assert(self.game@.players[w].0 == from);
                        }
                        let mut note = String::from_str("Принято, ");
                        let nm = self.user_name(from);
                        note.append(nm.as_str());
                        acts.push(
                            Action::Send {
                                text: note,
                                keyboard: self.game.game_state.keyboard_options(),
                            },
                        );
                        self.schedule(
                            if paused {
                                PAUSE_SECS
                            } else {
                                INTERMISSION_SECS
                            },
                            &mut acts,
                        );
                    } else if is_no && already {
                        let ghost a = self.game@;
                        proof {
                            assert(is_player(a, from));
                        }
                        self.game.game_state = GameState::AfterQuestion(paused, answers, None);
                        proof {
                            lemma_wf_same_answered(a, self.game@);
                            let w = choose|w: int|
                                0 <= w < a.players.len() && a.players[w].0 == from;
                            assert(self.game@.players[w].0 == from);
                        }
                        let mut note = String::from_str("Принято, ");
                        let nm = self.user_name(from);
                        note.append(nm.as_str());
                        acts.push(
                            Action::Send {
                                text: note,
                                keyboard: self.game.game_state.keyboard_options(),
                            },
                        );
                        self.schedule(
                            if paused {
                                PAUSE_SECS
                            } else {
                                INTERMISSION_SECS
                            },
                            &mut acts,
                        );
                    }
                }
            },
            GameState::AfterGame => {
                self.schedule(AFTER_GAME_SECS, &mut acts);
            },
            _ => {},
        }
        data.save_game_state(&self.game);
        acts
    }
}

/// Whether a token is a legal adjustment: a number that is a multiple of ten
/// within ten thousand either way.
pub open spec fn adjust_arg_ok(tok: Seq<char>) -> bool {
    match crate::text::parsed_int(tok) {
        Some(v) => -10000 <= v <= 10000 && v % 10 == 0,
        None => false,
    }
}

pub open spec fn adjust_arg_value(tok: Seq<char>) -> int {
    match crate::text::parsed_int(tok) {
        Some(v) => v,
        None => 0,
    }
}

/// Whether the trimmed reply matches one of the accepted answers of the
/// current question.
pub open spec fn spec_answer_accepted(h: GameHandle, reply: Seq<char>) -> bool {
    exists|k: int|
        0 <= k < spec_current_question(h).answers.len() && crate::topic::answer_matches(
            reply,
            spec_current_question(h).answers[k],
        )
}

/// Taking the floor keeps well-formedness: the bidder is a player outside the
/// answered list.
pub proof fn lemma_wf_to_answer(a: GameView, b: GameView, from: i64)
    requires
        game_wf(a),
        b.players == a.players,
        a.game_state is Question,
        (match (a.game_state, b.game_state) {
            (GameStateView::Question(m, ans), GameStateView::Answer(m2, ans2, cur)) => m2 == m
                && ans2 == ans && cur == from,
            _ => false,
        }),
        is_player(a, from),
        !answered_of(a.game_state).contains(from),
        b.current_topic == a.current_topic,
        b.current_question == a.current_question,
        b.topics == a.topics,
    ensures
        game_wf(b),
{
    match (a.game_state, b.game_state) {
        (GameStateView::Question(m, ans), GameStateView::Answer(m2, ans2, cur)) => {
            assert(answered_of(a.game_state) == ans);
            assert(answered_of(b.game_state) == ans);
            assert forall|i: int| 0 <= i < ans.len() implies is_player(b, #[trigger] ans[i]) by {
                assert(is_player(a, ans[i]));
                let w = choose|w: int| 0 <= w < a.players.len() && a.players[w].0 == ans[i];
                assert(b.players[w].0 == ans[i]);
            }
            let w = choose|w: int| 0 <= w < a.players.len() && a.players[w].0 == from;
            assert(b.players[w].0 == from);
        },
        _ => {},
    }
}

/// Scored lines ordered by score descending.
fn sort_lines(rows: &Vec<(i64, String)>) -> (r: Vec<(i64, String)>)
    ensures
        r@.len() == rows@.len(),
        forall|a: int, b: int| 0 <= a < b < r@.len() ==> (#[trigger] r@[a]).0 >= (#[trigger] r@[b]).0,
{
    let n = rows.len();
    let mut r: Vec<(i64, String)> = Vec::new();
    let mut i: usize = 0;
    while i < n
        invariant
            n == rows@.len(),
            i <= n,
            r@.len() == i,
            forall|a: int, b: int|
                0 <= a < b < r@.len() ==> (#[trigger] r@[a]).0 >= (#[trigger] r@[b]).0,
        decreases n - i,
    {
        let score = rows[i].0;
        let name = rows[i].1.clone();
        let m = r.len();
        let mut at: usize = 0;
        while at < m && r[at].0 >= score
            invariant
                m == r@.len(),
                at <= m,
                forall|w: int| 0 <= w < at ==> (#[trigger] r@[w]).0 >= score,
            decreases m - at,
        {
            at += 1;
        }
        let ghost pre = r@;
        r.insert(at, (score, name));
        proof {
            assert forall|a: int, b: int|
                0 <= a < b < r@.len() implies (#[trigger] r@[a]).0 >= (#[trigger] r@[b]).0 by {
                let oa: int = if a < at as int {
                    a
                } else {
                    a - 1
                };
                let ob: int = if b < at as int {
                    b
                } else {
                    b - 1
                };
                if a == at as int {
                    assert(r@[b] == pre[ob]);
                    if ob >= at as int {
                        if pre[ob].0 > score {
                            assert((at as int) < pre.len());
                        }
                    }
                } else if b == at as int {
                    assert(r@[a] == pre[oa]);
                    assert(pre[oa].0 >= score);
                } else {
                    assert(r@[a] == pre[oa]);
                    assert(r@[b] == pre[ob]);
                    if oa < at as int && ob >= at as int {
                        if (at as int) < pre.len() {
                            assert(pre[oa].0 >= score);
                        }
                    }
                }
            }
        }
        i += 1;
    }
    r
}

/// Appending actions keeps every kick already recorded.
proof fn lemma_kicks_carry(pre: Seq<Action>, post: Seq<Action>, h: GameHandle, ids: Seq<i64>)
    requires
        pre.len() <= post.len(),
        forall|w: int| 0 <= w < pre.len() ==> post[w] == pre[w],
        forall|j: int|
            0 <= j < ids.len() && !is_player(h.game@, #[trigger] ids[j])
                && !h.game@.spectators.contains(ids[j]) ==> has_kick(pre, ids[j]),
    ensures
        forall|j: int|
            0 <= j < ids.len() && !is_player(h.game@, #[trigger] ids[j])
                && !h.game@.spectators.contains(ids[j]) ==> has_kick(post, ids[j]),
{
    assert forall|j: int|
        0 <= j < ids.len() && !is_player(h.game@, #[trigger] ids[j]) && !h.game@.spectators.contains(
            ids[j],
        ) implies has_kick(post, ids[j]) by {
        let w = choose|w: int|
            0 <= w < pre.len() && match #[trigger] pre[w] {
                Action::Kick { user_id } => user_id == ids[j],
                _ => false,
            };
        assert(post[w] == pre[w]);
    }
}
} // verus!
