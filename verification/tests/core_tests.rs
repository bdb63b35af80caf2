use svoyak::bitset::BitSet;
use svoyak::bot::KeyboardOptions;
use svoyak::data::{Data, UserBanResult, UserData};
use svoyak::game::{Action, Game, GameHandle, GameState};
use svoyak::queue::PlayQueue;
use svoyak::supervisor::{GameData, GameStartData};
use svoyak::text;
use svoyak::topic::{encode, Question, Topic, TopicSet};

fn user(name: &str, rating: u32) -> UserData {
    UserData { display_name: name.to_string(), rating }
}

fn question(cost: u16, prompt: &str, answer: &str) -> Question {
    Question::new(cost, prompt.to_string(), &[answer.to_string()], None)
}

fn topic(name: &str) -> Topic {
    let questions = vec![
        question(10, "q1", "a1"),
        question(20, "q2", "a2"),
        question(30, "q3", "a3"),
        question(40, "q4", "a4"),
        question(50, "q5", "a5"),
    ];
    Topic::new(name.to_string(), questions)
}

fn package(id: &str, topics: usize) -> TopicSet {
    let mut ts = Vec::new();
    for i in 0..topics {
        ts.push(topic(&format!("t{}", i)));
    }
    TopicSet::new(id.to_string(), "title".to_string(), "desc".to_string(), ts)
}

fn two_player_game() -> (GameHandle, Data) {
    let mut data = Data::new();
    data.set_user_data(1, &user("A", 15000));
    data.set_user_data(2, &user("B", 15200));
    let set = package("p", 6);
    let game = Game::new(
        77,
        vec![10, 20],
        "p".to_string(),
        vec![0, 1, 2, 3, 4, 5],
        vec![(1, user("A", 15000)), (2, user("B", 15200))],
        vec![],
        "link".to_string(),
    );
    (GameHandle::create_game(game, set), data)
}

// the historical 400-divisor curve, computed locally and shown through
// display_rating; the production settlement uses the flat 4000 divisor
#[test]
fn test_rating() {
    let mut results = Vec::new();
    for i in 0..3 {
        results.push((
            i as i64,
            (
                UserData { display_name: i.to_string(), rating: 15000 },
                i * 10 as i32,
                true,
            ),
        ));
    }
    for user in results.iter() {
        let ra = user.1 .0.rating;
        let mut delta = 0i32;
        for other in results.iter() {
            if user.0 == other.0 {
                continue;
            }
            let rb = other.1 .0.rating;
            let ea = 1f64 / (1f64 + 10f64.powf(((rb as f64) - (ra as f64)) / 400f64));
            let sa = if user.1 .1 < other.1 .1 {
                0f64
            } else if user.1 .1 > other.1 .1 {
                1f64
            } else {
                0.5f64
            };
            delta += (100f64 * (sa - ea)).round() as i32;
        }
        delta = delta.max(-(ra as i32) + 10);
        println!(
            "{} {} {}",
            user.0,
            delta,
            svoyak::display_rating(((user.1 .0.rating as i32) + delta) as u32)
        );
    }
}

#[test]
fn decay_moves_one_percent_toward_baseline() {
    assert_eq!(svoyak::rating::decay_rating(16000), 15990);
    assert_eq!(svoyak::rating::decay_rating(14000), 14010);
    assert_eq!(svoyak::rating::decay_rating(15000), 15000);
    assert_eq!(svoyak::rating::decay_rating(15001), 15000);
    let mut data = Data::new();
    data.set_user_data(1, &user("A", 16000));
    data.set_user_data(2, &user("B", 13000));
    data.rating_discount();
    assert_eq!(data.get_user_data(&1).unwrap().rating, 15990);
    assert_eq!(data.get_user_data(&2).unwrap().rating, 13020);
}

#[test]
fn settlement_is_zero_sum_for_equal_ratings() {
    let mut data = Data::new();
    data.set_user_data(1, &user("A", 15000));
    data.set_user_data(2, &user("B", 15000));
    data.save_game_results(&vec![(1, 100), (2, 0)]);
    let ra = data.get_user_data(&1).unwrap().rating;
    let rb = data.get_user_data(&2).unwrap().rating;
    assert_eq!(ra, 15050);
    assert_eq!(rb, 14950);
    assert_eq!(ra + rb, 30000);
}

#[test]
fn settlement_flat_curve_two_players() {
    // ratings 15000 and 15200, scores 100 and 0, with the 4000 divisor:
    // E_A = 1/(1+10^0.05) = 0.4712..., delta_A = round(52.87..) = 53
    let mut data = Data::new();
    data.set_user_data(1, &user("A", 15000));
    data.set_user_data(2, &user("B", 15200));
    data.save_game_results(&vec![(1, 100), (2, 0)]);
    assert_eq!(data.get_user_data(&1).unwrap().rating, 15053);
    assert_eq!(data.get_user_data(&2).unwrap().rating, 15147);
}

#[test]
fn settlement_clamps_at_ten() {
    let mut data = Data::new();
    data.set_user_data(1, &user("A", 20));
    data.set_user_data(2, &user("B", 20));
    data.save_game_results(&vec![(1, 0), (2, 100)]);
    assert_eq!(data.get_user_data(&1).unwrap().rating, 10);
    assert_eq!(data.get_user_data(&2).unwrap().rating, 70);
}

#[test]
fn bitmap_count_tracks_popcount() {
    let mut b = BitSet::new(10);
    assert_eq!(b.size, 0);
    b.set_bit(3);
    b.set_bit(3);
    b.set_bit(7);
    assert_eq!(b.size, 2);
    let mut ones = 0;
    for i in 0..10 {
        if b.is_set(i) {
            ones += 1;
        }
    }
    assert_eq!(b.size, ones);
    let mut c = BitSet::new(10);
    c.set_bit(3);
    c.set_bit(4);
    b.unite(&c);
    assert_eq!(b.size, 3);
    assert!(b.is_set(3) && b.is_set(4) && b.is_set(7));
}

#[test]
fn ban_list_capped_at_fifty_unique() {
    let mut data = Data::new();
    for other in 1..=50 {
        assert!(matches!(data.add_to_ban_list(7, other), UserBanResult::Banned));
    }
    assert!(matches!(data.add_to_ban_list(7, 10), UserBanResult::AlreadyInList));
    assert!(matches!(data.add_to_ban_list(7, 99), UserBanResult::SizeLimitReached));
    let list = data.get_ban_list(7);
    assert_eq!(list.len(), 50);
    for i in 0..list.len() {
        for j in i + 1..list.len() {
            assert_ne!(list[i], list[j]);
        }
    }
    assert!(data.remove_from_ban_list(7, 10));
    assert!(!data.in_ban_list(7, 10));
    assert_eq!(data.get_ban_list(7).len(), 49);
}

#[test]
fn recent_opponents_capped_at_ten_move_to_tail() {
    let mut data = Data::new();
    let users: Vec<i64> = (1..=12).collect();
    data.add_game(&users);
    let recent = data.get_last_played(1);
    assert_eq!(recent.len(), 10);
    for i in 0..recent.len() {
        for j in i + 1..recent.len() {
            assert_ne!(recent[i], recent[j]);
        }
    }
    // the tail is the most recent opponent
    assert_eq!(*recent.last().unwrap(), 12);
    // playing again with 3 moves it to the tail without growing the list
    data.add_game(&vec![1, 3]);
    let recent = data.get_last_played(1);
    assert_eq!(recent.len(), 10);
    assert_eq!(*recent.last().unwrap(), 3);
}

#[test]
fn encode_escapes_and_store_does_not_double_escape() {
    assert_eq!(encode(&"a<b&c".to_string()), "a&lt;b&amp;c");
    let once = encode(&"&".to_string());
    assert_eq!(once, "&amp;");
    let twice = encode(&once);
    assert_eq!(twice, "&amp;amp;");
    // a stored package comes back exactly as it went in: reading adds no
    // second layer of escaping
    let mut data = Data::new();
    let set = TopicSet::new(
        "x".to_string(),
        "a & b".to_string(),
        "d".to_string(),
        vec![topic("t")],
    );
    assert_eq!(set.title, "a &amp; b");
    assert!(data.add_new_set(&"x".to_string(), set));
    let read = data.get_set(&"x".to_string()).unwrap();
    assert_eq!(read.title, "a &amp; b");
}

#[test]
fn enqueue_dequeue_round_trip() {
    let mut q = PlayQueue::new();
    q.push_entry(5, 100, 0);
    q.push_entry(6, 101, 0);
    let before: Vec<i64> = q.queue.iter().map(|e| e.user_id).collect();
    q.push_entry(9, 102, 1);
    assert!(q.remove_user(9));
    let after: Vec<i64> = q.queue.iter().map(|e| e.user_id).collect();
    assert_eq!(before, after);
    assert!(!q.remove_user(9));
}

#[test]
fn snapshot_round_trip_is_exact() {
    let mut data = Data::new();
    let game = Game::new(
        77,
        vec![10],
        "p".to_string(),
        vec![0, 2, 4],
        vec![(1, user("A", 15000))],
        vec![9],
        "link".to_string(),
    );
    data.save_game_state(&game);
    // one snapshot per play chat: saving again replaces, never duplicates
    data.save_game_state(&game);
    let games = data.get_game_states();
    assert_eq!(games.len(), 1);
    let g = &games[0];
    assert_eq!(g.chat_id, 77);
    assert_eq!(g.source_chats, vec![10]);
    assert_eq!(g.set_id, "p");
    assert_eq!(g.topics, vec![0, 2, 4]);
    assert_eq!(g.current_topic, 0);
    assert_eq!(g.current_question, 0);
    assert_eq!(g.players.len(), 1);
    assert_eq!(g.players[0].0, 1);
    assert_eq!(g.spectators, vec![9]);
    assert_eq!(g.invite_link, "link");
    assert!(matches!(g.game_state, GameState::BeforeGame(false, 5)));
    data.remove_game(77);
    assert_eq!(data.get_game_states().len(), 0);
}

#[test]
fn before_game_tick_waits_for_absent_players() {
    let (mut h, mut data) = two_player_game();
    let id = {
        let acts = h.process_starting_state(&mut data);
        schedule_id(&acts).unwrap()
    };
    let (done, _acts) = h.on_timeout(&mut data, id, false);
    assert!(!done);
    assert!(matches!(h.game.game_state, GameState::BeforeGame(false, 4)));
}

#[test]
fn before_game_never_advances_past_an_absent_player() {
    let (mut h, mut data) = two_player_game();
    h.game.game_state = GameState::BeforeGame(false, 1);
    let id = h.state_id;
    let (done, acts) = h.on_timeout(&mut data, id, false);
    assert!(!done);
    // at one minute the countdown holds and the timer is re-armed
    assert!(matches!(h.game.game_state, GameState::BeforeGame(false, 1)));
    assert_eq!(schedule_secs(&acts), Some(60));
}

#[test]
fn before_game_tick_advances_when_all_present() {
    let (mut h, mut data) = two_player_game();
    let acts = h.process_starting_state(&mut data);
    let id = schedule_id(&acts).unwrap();
    let (done, _acts) = h.on_timeout(&mut data, id, true);
    assert!(!done);
    assert!(matches!(h.game.game_state, GameState::BeforeTopic(false)));
}

fn schedule_id(acts: &[Action]) -> Option<u64> {
    for a in acts {
        if let Action::Schedule { state_id, .. } = a {
            return Some(*state_id);
        }
    }
    None
}

fn schedule_secs(acts: &[Action]) -> Option<u64> {
    for a in acts {
        if let Action::Schedule { seconds, .. } = a {
            return Some(*seconds);
        }
    }
    None
}

#[test]
fn question_timer_closes_question_immediately() {
    let (mut h, mut data) = two_player_game();
    h.game.game_state = GameState::Question(5, vec![1, 2]);
    let id = h.state_id;
    let (done, acts) = h.on_timeout(&mut data, id, true);
    assert!(!done);
    match &h.game.game_state {
        GameState::AfterQuestion(false, answered, None) => {
            assert_eq!(answered, &vec![1, 2]);
        },
        other => panic!("unexpected state {:?}", state_name(other)),
    }
    assert_eq!(schedule_secs(&acts), Some(8));
}

fn state_name(s: &GameState) -> &'static str {
    match s {
        GameState::BeforeGame(..) => "BeforeGame",
        GameState::BeforeTopic(..) => "BeforeTopic",
        GameState::BeforeFirstQuestion(..) => "BeforeFirstQuestion",
        GameState::BeforeQuestion(..) => "BeforeQuestion",
        GameState::Question(..) => "Question",
        GameState::Answer(..) => "Answer",
        GameState::AfterQuestion(..) => "AfterQuestion",
        GameState::SpecialScore(..) => "SpecialScore",
        GameState::AfterGame => "AfterGame",
    }
}

#[test]
fn adjust_rules() {
    let (mut h, mut data) = two_player_game();
    h.game.game_state = GameState::BeforeTopic(true);
    // adjust 0 is accepted and changes nothing
    let _acts = h.process_message(&mut data, 1, "adjust 0");
    assert_eq!(h.game.players[0].1.score, 0);
    // adjust 5 is rejected: not a multiple of ten
    let _acts = h.process_message(&mut data, 1, "adjust 5");
    assert_eq!(h.game.players[0].1.score, 0);
    // adjust 10001 is rejected: out of range
    let _acts = h.process_message(&mut data, 1, "adjust 10001");
    assert_eq!(h.game.players[0].1.score, 0);
    // adjust 100 moves the sender's score
    let _acts = h.process_message(&mut data, 1, "adjust 100");
    assert_eq!(h.game.players[0].1.score, 100);
    // adjust only works while paused
    h.game.game_state = GameState::BeforeTopic(false);
    let _acts = h.process_message(&mut data, 1, "adjust 100");
    assert_eq!(h.game.players[0].1.score, 100);
}

#[test]
fn message_splitting_prefers_last_newline() {
    let mut long = String::new();
    for _ in 0..5000 {
        long.push('x');
    }
    let parts = text::message_segments(&long);
    assert_eq!(parts.len(), 2);
    assert_eq!(parts[0].chars().count(), 4096);
    assert_eq!(parts[1].chars().count(), 904);

    let mut withnl = String::new();
    for _ in 0..4000 {
        withnl.push('y');
    }
    withnl.push('\n');
    for _ in 0..500 {
        withnl.push('z');
    }
    let parts = text::message_segments(&withnl);
    assert_eq!(parts.len(), 2);
    assert_eq!(parts[0].chars().count(), 4001);
    assert!(parts[0].ends_with('\n'));
    assert_eq!(parts[1].chars().count(), 500);

    let short = "hello".to_string();
    assert_eq!(text::message_segments(&short), vec!["hello".to_string()]);
}

#[test]
fn answer_check_normalization() {
    let q = question(10, "poet", "Пушкин");
    assert!(q.check_answer("пушкин "));
    assert!(!q.check_answer(" Pushkin"));
    assert!(q.check_answer("Пушкин (1799)"));
    assert!(!q.check_answer("А.С. Пушкин"));
    let q2 = Question::new(
        10,
        "poet".to_string(),
        &["Пушкин".to_string(), "А.С. Пушкин".to_string()],
        None,
    );
    assert!(q2.check_answer("А.С. Пушкин"));
    // the letter "ё" matches "е"
    let q3 = question(10, "tree", "ёлка");
    assert!(q3.check_answer("елка"));
}

#[test]
fn matcher_prefers_four_players() {
    let mut data = Data::new();
    for id in 1..=4 {
        data.set_user_data(id, &user(&format!("u{}", id), 15000));
    }
    let set = package("p", 30);
    assert!(data.add_new_set(&"p".to_string(), set));
    data.add_active(&"p".to_string());
    let mut q = PlayQueue::new();
    for id in 1..=3 {
        q.push_entry(id, 0, 0);
    }
    // three fresh players: only four-player games are tried, none fits
    assert!(q.find_games(&data, 0).is_none());
    assert_eq!(q.queue_size(), 3);
    // after a minute all three are patient enough for a three-player game
    let found = q.find_games(&data, 60000).expect("match expected");
    assert_eq!(found.0.players.len(), 3);
    assert_eq!(found.1, "p");
    assert_eq!(found.2.len(), 6);
    assert_eq!(q.queue_size(), 0);
}

#[test]
fn matcher_skips_banned_pairs() {
    let mut data = Data::new();
    for id in 1..=3 {
        data.set_user_data(id, &user(&format!("u{}", id), 15000));
    }
    let set = package("p", 30);
    assert!(data.add_new_set(&"p".to_string(), set));
    data.add_active(&"p".to_string());
    assert!(matches!(data.add_to_ban_list(1, 2), UserBanResult::Banned));
    let mut q = PlayQueue::new();
    for id in 1..=3 {
        q.push_entry(id, 0, 0);
    }
    assert!(q.find_games(&data, 60000).is_none());
}

#[test]
fn reupload_with_different_topic_count_is_refused() {
    let mut data = Data::new();
    data.set_user_data(1, &user("A", 15000));
    assert!(data.add_new_set(&"x".to_string(), package("x", 10)));
    data.add_active(&"x".to_string());
    data.remove_active(&"x".to_string());
    // still was-active: the topic count is locked in
    assert!(!data.add_new_set(&"x".to_string(), package("x", 11)));
    assert_eq!(data.get_set(&"x".to_string()).unwrap().topics.len(), 10);
    assert_eq!(data.get_user_data(&1).unwrap().rating, 15000);
    // the same count is accepted
    assert!(data.add_new_set(&"x".to_string(), package("x", 10)));
}

#[test]
fn crash_recovery_resumes_paused() {
    let (mut h, mut data) = two_player_game();
    h.game.game_state = GameState::Question(5, vec![1, 2]);
    let acts = h.process_starting_state(&mut data);
    match &h.game.game_state {
        GameState::AfterQuestion(true, answered, None) => {
            assert_eq!(answered, &vec![1, 2]);
        },
        other => panic!("unexpected state {:?}", state_name(other)),
    }
    assert_eq!(schedule_secs(&acts), Some(600));
    // the snapshot now carries the rewritten phase
    let games = data.get_game_states();
    assert_eq!(games.len(), 1);
    assert!(matches!(games[0].game_state, GameState::AfterQuestion(true, _, None)));
}

#[test]
fn register_with_full_table_changes_nothing() {
    let mut gd = GameData::new(42);
    for id in 1..=4 {
        assert!(gd.register_player(id, user(&format!("u{}", id), 15000)));
    }
    let version = gd.update_id;
    assert!(!gd.register_player(5, user("u5", 15000)));
    assert_eq!(gd.players.len(), 4);
    assert_eq!(gd.update_id, version);
    // a seated player may re-register
    assert!(gd.register_player(4, user("u4", 15000)));
}

#[test]
fn proposal_builder_rules() {
    let mut gd = GameData::new(42);
    assert!(!gd.start_allowed());
    gd.set_topic_count(8);
    gd.set_min_players(2);
    gd.add_player(1, user("A", 15000));
    gd.add_player(2, user("B", 15000));
    assert!(gd.start_allowed());
    // spectators and players are exclusive
    gd.add_spectator(1, user("A", 15000));
    assert_eq!(gd.players.len(), 1);
    assert_eq!(gd.spectators.len(), 1);
    gd.add_player(1, user("A", 15000));
    assert_eq!(gd.spectators.len(), 0);
    gd.remove(1);
    assert_eq!(gd.players.len(), 1);
    let v = gd.update_id;
    assert!(gd.expiry_current(v));
    assert!(!gd.expiry_current(v - 1));
    let start = gd.to_data();
    assert_eq!(start.chat_ids, vec![42]);
    assert_eq!(start.topic_count, 8);
    assert_eq!(start.players.len(), 1);
}

#[test]
fn game_runs_to_the_epilogue() {
    let (mut h, mut data) = two_player_game();
    h.game.game_state = GameState::BeforeTopic(false);
    h.game.current_topic = 6;
    let id = h.state_id;
    let (done, _acts) = h.on_timeout(&mut data, id, true);
    assert!(!done);
    assert!(matches!(h.game.game_state, GameState::AfterGame));
    // ratings were committed for a finished game
    assert_ne!(data.get_user_data(&1).unwrap().rating, 15000);
    // the grace timer fires and the room is released
    let (done, acts) = h.on_timeout(&mut data, h.state_id, true);
    assert!(done);
    assert!(acts.iter().any(|a| matches!(a, Action::RevokeInviteLink { .. })));
    assert_eq!(acts.iter().filter(|a| matches!(a, Action::Kick { .. })).count(), 2);
    assert_eq!(data.get_game_states().len(), 0);
}

#[test]
fn abort_skips_the_settlement() {
    let (mut h, mut data) = two_player_game();
    h.game.game_state = GameState::BeforeTopic(false);
    let _acts = h.process_message(&mut data, 1, "abort");
    assert!(matches!(h.game.game_state, GameState::AfterGame));
    assert_eq!(data.get_user_data(&1).unwrap().rating, 15000);
    assert_eq!(data.get_user_data(&2).unwrap().rating, 15200);
}

#[test]
fn plus_takes_the_floor_and_wrong_answer_reopens() {
    let (mut h, mut data) = two_player_game();
    h.game.game_state = GameState::Question(5, vec![]);
    let acts = h.process_message(&mut data, 1, "+");
    assert!(matches!(h.game.game_state, GameState::Answer(5, _, 1)));
    assert_eq!(schedule_secs(&acts), Some(30));
    // a second bid from the answered player is ignored later; first, a wrong
    // answer reopens the question with the shorter clock
    let acts = h.process_message(&mut data, 1, "nonsense");
    match &h.game.game_state {
        GameState::Question(5, answered) => assert_eq!(answered, &vec![1]),
        other => panic!("unexpected state {:?}", state_name(other)),
    }
    assert_eq!(schedule_secs(&acts), Some(10));
    // the second player answers correctly
    let _acts = h.process_message(&mut data, 2, "+");
    assert!(matches!(h.game.game_state, GameState::Answer(5, _, 2)));
    let _acts = h.process_message(&mut data, 2, "a1");
    match &h.game.game_state {
        GameState::AfterQuestion(false, answered, Some(2)) => {
            assert_eq!(answered, &vec![1, 2]);
        },
        other => panic!("unexpected state {:?}", state_name(other)),
    }
}

#[test]
fn yes_and_no_override_the_verdict() {
    let (mut h, mut data) = two_player_game();
    h.game.game_state = GameState::AfterQuestion(false, vec![1, 2], None);
    let _acts = h.process_message(&mut data, 1, "да");
    assert!(matches!(h.game.game_state, GameState::AfterQuestion(false, _, Some(1))));
    let _acts = h.process_message(&mut data, 1, "нет");
    assert!(matches!(h.game.game_state, GameState::AfterQuestion(false, _, None)));
    // yes from someone who never answered is ignored
    let _acts = h.process_message(&mut data, 1, "yes");
    let _acts2 = h.process_message(&mut data, 2, "no");
    assert!(matches!(h.game.game_state, GameState::AfterQuestion(false, _, Some(1))));
}

#[test]
fn settle_walks_the_answered_list() {
    let (mut h, mut data) = two_player_game();
    // both answered, the second acknowledged: the first loses, the second
    // gains the cost of the first question
    h.game.game_state = GameState::AfterQuestion(false, vec![1, 2], Some(2));
    let id = h.state_id;
    let (_done, _acts) = h.on_timeout(&mut data, id, true);
    assert_eq!(h.game.players[0].1.score, -10);
    assert_eq!(h.game.players[1].1.score, 10);
    assert_eq!(h.game.current_question, 1);
    assert!(matches!(h.game.game_state, GameState::BeforeQuestion(false)));
}

#[test]
fn stale_timers_are_dropped() {
    let (mut h, mut data) = two_player_game();
    h.game.game_state = GameState::BeforeTopic(false);
    let stale = h.state_id + 100;
    let (done, acts) = h.on_timeout(&mut data, stale, true);
    assert!(!done);
    assert!(acts.is_empty());
    assert!(matches!(h.game.game_state, GameState::BeforeTopic(false)));
}

#[test]
fn keyboards_follow_the_phase() {
    assert!(matches!(
        GameState::BeforeQuestion(false).keyboard_options(),
        KeyboardOptions::Plus
    ));
    assert!(matches!(
        GameState::AfterQuestion(false, vec![], None).keyboard_options(),
        KeyboardOptions::YesNoPause
    ));
    assert!(matches!(
        GameState::AfterQuestion(true, vec![], None).keyboard_options(),
        KeyboardOptions::YesNoContinue
    ));
    assert!(matches!(GameState::Question(1, vec![]).keyboard_options(), KeyboardOptions::Plain));
    assert!(matches!(GameState::AfterGame.keyboard_options(), KeyboardOptions::Remove));
}

#[test]
fn pause_and_continue() {
    let (mut h, mut data) = two_player_game();
    h.game.game_state = GameState::BeforeTopic(false);
    let acts = h.process_message(&mut data, 1, "пауза");
    assert!(matches!(h.game.game_state, GameState::BeforeTopic(true)));
    assert_eq!(schedule_secs(&acts), Some(600));
    let acts = h.process_message(&mut data, 1, "продолжить");
    assert!(matches!(h.game.game_state, GameState::BeforeTopic(false)));
    assert_eq!(schedule_secs(&acts), Some(8));
}

#[test]
fn topic_words_follow_russian_plurals() {
    assert_eq!(Topic::topic_word(1), "1 тема");
    assert_eq!(Topic::topic_word(2), "2 темы");
    assert_eq!(Topic::topic_word(5), "5 тем");
    assert_eq!(Topic::topic_word(11), "11 тем");
    assert_eq!(Topic::topic_word(21), "21 тема");
    assert_eq!(Topic::topic_word(104), "104 темы");
}

#[test]
fn number_parsing_and_rendering() {
    assert_eq!(text::parse_i64("5"), Some(5));
    assert_eq!(text::parse_i64("-10000"), Some(-10000));
    assert_eq!(text::parse_i64("+7"), Some(7));
    assert_eq!(text::parse_i64("abc"), None);
    assert_eq!(text::parse_i64(""), None);
    assert_eq!(text::parse_i64("12x"), None);
    assert_eq!(text::i64_string(-42), "-42");
    assert_eq!(text::u64_string(0), "0");
    assert_eq!(text::u64_string(10050), "10050");
    assert_eq!(svoyak::display_rating(15051), 1505);
    assert_eq!(svoyak::display_rating(15044), 1504);
}

#[test]
fn find_topics_picks_lowest_unplayed() {
    let mut data = Data::new();
    for id in 1..=2 {
        data.set_user_data(id, &user(&format!("u{}", id), 15000));
    }
    assert!(data.add_new_set(&"p".to_string(), package("p", 10)));
    data.add_active(&"p".to_string());
    data.set_played(&vec![1], &"p".to_string(), &vec![0, 2]);
    data.set_played(&vec![2], &"p".to_string(), &vec![1]);
    let mut gsd = GameStartData {
        chat_ids: vec![1, 2],
        set_id: None,
        topic_count: 6,
        players: vec![(1, user("u1", 15000)), (2, user("u2", 15000))],
        spectators: vec![],
    };
    let (set_id, topics) = data.find_topics(&mut gsd).expect("feasible");
    assert_eq!(set_id, "p");
    assert_eq!(topics, vec![3, 4, 5, 6, 7, 8]);
    // a blocked package counts as exhausted
    assert!(data.set_set_blocked(1, &"p".to_string(), true));
    let mut gsd2 = GameStartData {
        chat_ids: vec![1, 2],
        set_id: None,
        topic_count: 6,
        players: vec![(1, user("u1", 15000)), (2, user("u2", 15000))],
        spectators: vec![],
    };
    assert!(data.find_topics(&mut gsd2).is_none());
}

#[test]
fn pretty_format_parses_five_questions() {
    let text = "заголовок\r\n\r\nНазвание пакета\r\n\r\nОписание\r\n\r\n\
Тема первая\r\n10. Вопрос один\r\nОтвет: раз\r\n20. Вопрос два\r\nОтвет: два\r\n\
30. Вопрос три\r\nОтвет: три\r\n40. Вопрос четыре\r\nОтвет: четыре\r\n50. Вопрос пять\r\nОтвет: пять";
    let set = svoyak::parser::parse_pretty("id1".to_string(), text.to_string()).expect("parse");
    assert_eq!(set.id, "id1");
    assert_eq!(set.title, "Название пакета");
    assert_eq!(set.description, "Описание");
    assert_eq!(set.topics.len(), 1);
    let t = &set.topics[0];
    assert_eq!(t.name, "первая");
    assert_eq!(t.questions.len(), 5);
    for (i, q) in t.questions.iter().enumerate() {
        assert_eq!(q.cost as usize, (i + 1) * 10);
        assert_eq!(q.answers.len(), 1);
    }
    assert!(t.questions[0].check_answer("раз"));
    // a document without a sound topic paragraph is refused
    assert!(svoyak::parser::parse_pretty("id2".to_string(), "a\r\n\r\nb\r\n\r\nc".to_string())
        .is_none());
}

#[test]
fn active_sets_stay_in_was_active() {
    let mut data = Data::new();
    assert!(data.add_new_set(&"a".to_string(), package("a", 6)));
    data.add_active(&"a".to_string());
    assert!(data.is_active(&"a".to_string()));
    assert!(data.was_active(&"a".to_string()));
    let active = data.get_active_set_ids();
    let was = data.get_was_active_set_ids();
    for id in &active {
        assert!(was.contains(id) || active.contains(id));
        assert!(was.contains(id));
    }
    data.remove_active(&"a".to_string());
    assert!(!data.is_active(&"a".to_string()));
    assert!(data.was_active(&"a".to_string()));
}

#[test]
fn rating_table_uses_dense_places() {
    let mut data = Data::new();
    data.set_user_data(1, &user("A", 15000));
    data.set_user_data(2, &user("B", 15000));
    data.set_user_data(3, &user("C", 14000));
    let table = data.get_rating_list(20);
    assert_eq!(table, "<b>1.</b> A 1500\n<b>1.</b> B 1500\n<b>2.</b> C 1400\n");
    let top1 = data.get_rating_list(1);
    assert_eq!(top1, "<b>1.</b> A 1500\n<b>1.</b> B 1500\n");
}

#[test]
fn ban_by_recent_index() {
    let mut data = Data::new();
    for id in 1..=4 {
        data.set_user_data(id, &user(&format!("u{}", id), 15000));
    }
    data.add_game(&vec![1, 2, 3, 4]);
    // index 1 is the most recent opponent, which for player 1 is player 4
    match data.ban_by_index(1, 1) {
        svoyak::data::BanByIndexResult::Banned(other) => assert_eq!(other, 4),
        _ => panic!("expected a fresh ban"),
    }
    assert!(matches!(
        data.ban_by_index(1, 1),
        svoyak::data::BanByIndexResult::AlreadyInList(4)
    ));
    assert!(matches!(data.ban_by_index(1, 0), svoyak::data::BanByIndexResult::BadNumber));
    assert!(matches!(data.ban_by_index(1, 9), svoyak::data::BanByIndexResult::BadNumber));
    assert_eq!(data.unban_by_index(1, 1), Some(4));
    assert!(!data.in_ban_list(1, 4));
    assert_eq!(data.unban_by_index(1, 1), None);
}

#[test]
fn matcher_tolerance_grows_with_the_wait() {
    let mut data = Data::new();
    data.set_user_data(1, &user("a", 15000));
    data.set_user_data(2, &user("b", 15800));
    data.set_user_data(3, &user("c", 15000));
    assert!(data.add_new_set(&"p".to_string(), package("p", 30)));
    data.add_active(&"p".to_string());
    let mut q = PlayQueue::new();
    for id in 1..=3 {
        q.push_entry(id, 0, 0);
    }
    // after one minute the windows are only 600 points wide: the 800-point
    // gap keeps the group apart
    assert!(q.find_games(&data, 60000).is_none());
    // once the windows reach 800 points the group is compatible
    let found = q.find_games(&data, 80000).expect("match expected");
    assert_eq!(found.0.players.len(), 3);
}


#[test]
fn settlement_announcement_lists_by_score() {
    let (mut h, mut data) = two_player_game();
    h.game.players[0].1.score = -10;
    h.game.players[1].1.score = 10;
    let acts = h.end_game(&mut data, false);
    let text = acts
        .iter()
        .find_map(|a| match a {
            Action::SendSource { chat_id: 10, text } => Some(text.clone()),
            _ => None,
        })
        .expect("announcement expected");
    let b_at = text.find("B 10").expect("winner line");
    let a_at = text.find("A -10").expect("loser line");
    assert!(b_at < a_at);
    // both source chats hear the result
    assert!(acts.iter().any(|a| matches!(a, Action::SendSource { chat_id: 20, .. })));
}

#[test]
fn yes_no_rearm_the_correction_timer() {
    let (mut h, mut data) = two_player_game();
    h.game.game_state = GameState::AfterQuestion(false, vec![1, 2], None);
    let acts = h.process_message(&mut data, 1, "да");
    assert_eq!(schedule_secs(&acts), Some(8));
    h.game.game_state = GameState::AfterQuestion(true, vec![1, 2], Some(1));
    let acts = h.process_message(&mut data, 1, "нет");
    assert_eq!(schedule_secs(&acts), Some(600));
}

#[test]
fn new_members_are_marked_and_strangers_kicked() {
    let (mut h, mut data) = two_player_game();
    let acts = h.process_new_members(&mut data, &vec![1, 99]);
    assert!(h.game.players[0].1.present);
    assert!(!h.game.players[1].1.present);
    assert!(acts.iter().any(|a| matches!(a, Action::Kick { user_id: 99 })));
    assert!(matches!(h.game.game_state, GameState::BeforeGame(false, 5)));
    // the last arrival shortens the countdown to one minute
    let acts = h.process_new_members(&mut data, &vec![2]);
    assert!(matches!(h.game.game_state, GameState::BeforeGame(false, 1)));
    assert_eq!(schedule_secs(&acts), Some(15));
}

#[test]
fn room_allocation_takes_the_first_free_room() {
    let rooms = vec![11, 22, 33];
    assert_eq!(svoyak::supervisor::pick_free_room(&rooms, &vec![11]), Some(22));
    assert_eq!(svoyak::supervisor::pick_free_room(&rooms, &vec![]), Some(11));
    assert_eq!(svoyak::supervisor::pick_free_room(&rooms, &vec![11, 22, 33]), None);
}

#[test]
fn shutdown_refuses_game_opening_commands() {
    assert!(!svoyak::supervisor::shutdown_gate(true, "game"));
    assert!(!svoyak::supervisor::shutdown_gate(true, "register"));
    assert!(!svoyak::supervisor::shutdown_gate(true, "старт"));
    assert!(svoyak::supervisor::shutdown_gate(true, "list"));
    assert!(svoyak::supervisor::shutdown_gate(true, "abort"));
    assert!(svoyak::supervisor::shutdown_gate(false, "game"));
}

#[test]
fn package_file_names_drive_the_parser_choice() {
    let (json, id) = svoyak::parser::package_file_id("pack.json");
    assert!(json);
    assert_eq!(id, "pack");
    let (json, id) = svoyak::parser::package_file_id("pack.v2.txt");
    assert!(!json);
    assert_eq!(id, "pack");
    let (json, id) = svoyak::parser::package_file_id("plain");
    assert!(!json);
    assert_eq!(id, "plain");
}

#[test]
fn rate_slots_pace_each_chat() {
    let mut slots = svoyak::rate::RateSlots::new();
    assert_eq!(slots.deadline(7, 1000), 1000);
    slots.block(7, 1000);
    assert_eq!(slots.deadline(7, 1000), 101000);
    assert_eq!(slots.deadline(8, 1000), 1000);
    slots.release(7, 2000);
    assert_eq!(slots.deadline(7, 2000), 3000);
    // an expired slot no longer delays
    assert_eq!(slots.deadline(7, 999999), 999999);
}

#[test]
fn proposal_mutations_refresh_the_expiry_version() {
    let mut gd = GameData::new(42);
    let v0 = gd.update_id;
    gd.add_player(1, user("A", 15000));
    assert_ne!(gd.update_id, v0);
    let v1 = gd.update_id;
    gd.add_spectator(2, user("B", 15000));
    assert_ne!(gd.update_id, v1);
    let v2 = gd.update_id;
    gd.remove(1);
    assert_ne!(gd.update_id, v2);
}
