use ng_server::game::{Effect, Game, Session};
use ng_server::protocol::{Actions, ClientState, GameState, PlayerState, Response};
use ng_server::session::{
    close_session, is_closable, is_processable, process_message, Incoming, TransportError,
};

fn text(s: &str) -> String {
    s.to_owned()
}

fn session(id: u64) -> Session {
    Session { id, name: None }
}

fn act(game: &mut Game, session: &mut Session, action: Actions) -> Vec<Effect> {
    let message = Incoming::Action(action);
    assert!(is_processable(game, session, &message));
    let outcome = process_message(game, session, message);
    assert!(outcome.keep_open);
    outcome.effects
}

fn quit(game: &mut Game, session: &Session) -> Vec<Effect> {
    assert!(is_closable(game, session));
    close_session(game, session)
}

fn show(effects: &Vec<Effect>) -> Vec<String> {
    effects.iter().map(|effect| format!("{:?}", effect)).collect()
}

fn to(id: u64, response: Response) -> Effect {
    Effect::Send { to: id, response }
}

fn check(effects: Vec<Effect>, expected: Vec<Effect>) {
    assert_eq!(show(&effects), show(&expected));
}

fn login(name: &str) -> Actions {
    Actions::Login { name: text(name) }
}

fn say(message: &str) -> Actions {
    Actions::Send(text(message))
}

fn pick(word: &str) -> Actions {
    Actions::AssignWord { word: text(word) }
}

/// Sessions 1, 2, ... logged in under the given names.
fn gather(game: &mut Game, names: &[&str]) -> Vec<Session> {
    let mut sessions: Vec<Session> = Vec::new();
    for name in names {
        let mut one = session(sessions.len() as u64 + 1);
        act(game, &mut one, login(name));
        sessions.push(one);
    }
    sessions
}

fn by_name<'a>(sessions: &'a mut Vec<Session>, name: &str) -> &'a mut Session {
    sessions.iter_mut().find(|one| one.name.as_deref() == Some(name)).unwrap()
}

/// A game in which words are picked in the order of the names.
fn picking(game: &mut Game, names: &[&str]) -> Vec<Session> {
    let sessions = gather(game, names);
    let order: Vec<String> = names.iter().map(|name| text(name)).collect();
    game.start_assigning(&order);
    sessions
}

/// A fight in which the word of every player is "ng-" and the player's name.
fn fighting(game: &mut Game, names: &[&str]) -> Vec<Session> {
    let mut sessions = picking(game, names);
    let count = names.len();
    for i in 0..count {
        let word = format!("ng-{}", names[(i + 1) % count]);
        act(game, &mut sessions[i], pick(&word));
    }
    for i in 0..count {
        act(game, &mut sessions[i], Actions::SetReady);
    }
    assert_eq!(game.state, GameState::Fighting);
    sessions
}

fn word_of(game: &Game, name: &str) -> Option<String> {
    game.client_states.get(&text(name)).unwrap().get_word()
}

fn is_alive(game: &Game, name: &str) -> bool {
    matches!(
        game.client_states.get(&text(name)),
        Some(ClientState::Player(PlayerState::Alive, _))
    )
}

fn is_fresh(game: &Game) -> bool {
    let mut fresh = game.state == GameState::Joining
        && game.ready_players.len() == 0
        && game.assignment_map.len() == 0
        && game.message_history.len() == 0
        && game.voting_session.is_none();
    for i in 0..game.client_states.len() {
        fresh = fresh
            && matches!(
                game.client_states.value_at(i),
                ClientState::Player(PlayerState::Alive, None)
            );
    }
    fresh
}

#[test]
fn a_game_begins_empty() {
    let game = Game::default();
    assert!(is_fresh(&game));
    assert_eq!(game.connections.len(), 0);
    assert_eq!(game.client_states.len(), 0);
}

#[test]
fn first_login_is_told_everything() {
    let mut game = Game::default();
    let mut ann = session(7);
    let effects = act(&mut game, &mut ann, login("ann"));
    assert_eq!(ann.name, Some(text("ann")));
    let mut clients = ng_server::names::NameMap::new();
    clients.insert(text("ann"), ClientState::Player(PlayerState::Alive, None));
    check(
        effects,
        vec![
            to(7, Response::LoginResult { excuse: None }),
            to(7, Response::MessageHistory { history: vec![] }),
            to(7, Response::Overview { clients, game_state: GameState::Joining }),
            to(7, Response::PlayerJoin { name: text("ann") }),
        ],
    );
    assert_eq!(game.connections.get(&text("ann")), Some(&7));
}

#[test]
fn taken_name_is_refused() {
    let mut game = Game::default();
    gather(&mut game, &["ann"]);
    let mut other = session(9);
    let effects = act(&mut game, &mut other, login("ann"));
    check(
        effects,
        vec![to(9, Response::LoginResult { excuse: Some(text("该名称已占用")) })],
    );
    assert_eq!(other.name, None);
    assert_eq!(game.connections.get(&text("ann")), Some(&1));
    assert_eq!(game.client_states.len(), 1);
}

#[test]
fn second_login_is_reminded_and_gets_the_new_name() {
    let mut game = Game::default();
    let mut sessions = gather(&mut game, &["ann"]);
    let effects = act(&mut game, &mut sessions[0], login("bob"));
    assert_eq!(sessions[0].name, Some(text("bob")));
    assert_eq!(
        show(&effects)[0],
        show(&vec![to(1, Response::LoginResult { excuse: Some(text("您已经加入过了")) })])[0]
    );
    assert_eq!(
        show(&effects)[1],
        show(&vec![to(1, Response::LoginResult { excuse: None })])[0]
    );
    // the connection has two names now and hears of the new one under both
    assert_eq!(effects.len(), 6);
    assert_eq!(game.client_states.len(), 2);

    let effects = act(&mut game, &mut sessions[0], login("ann"));
    check(
        effects,
        vec![
            to(1, Response::LoginResult { excuse: Some(text("您已经加入过了")) }),
            to(1, Response::LoginResult { excuse: Some(text("该名称已占用")) }),
        ],
    );
    assert_eq!(sessions[0].name, Some(text("bob")));
}

#[test]
fn latecomers_are_spectators_and_read_the_chat() {
    let mut game = Game::default();
    let mut sessions = picking(&mut game, &["ann", "bob"]);
    act(&mut game, &mut sessions[0], say("hello"));
    act(&mut game, &mut sessions[1], say("hi"));
    let mut cat = session(3);
    let effects = act(&mut game, &mut cat, login("cat"));
    assert!(matches!(game.client_states.get(&text("cat")), Some(ClientState::Spectator)));
    assert_eq!(
        show(&effects)[1],
        show(&vec![to(
            3,
            Response::MessageHistory {
                history: vec![(text("ann"), text("hello")), (text("bob"), text("hi"))],
            },
        )])[0]
    );
    // everybody hears of the newcomer
    check(
        effects.into_iter().skip(3).collect(),
        vec![
            to(1, Response::PlayerJoin { name: text("cat") }),
            to(2, Response::PlayerJoin { name: text("cat") }),
            to(3, Response::PlayerJoin { name: text("cat") }),
        ],
    );
}

#[test]
fn nothing_works_before_login() {
    let mut game = Game::default();
    gather(&mut game, &["ann"]);
    let mut nobody = session(5);
    for action in vec![
        say("hello"),
        Actions::Suicide,
        Actions::RequestAbort,
        Actions::VoteAbort { abort: true },
        pick("apple"),
        Actions::SetReady,
        Actions::CancelReady,
    ] {
        check(act(&mut game, &mut nobody, action), vec![]);
    }
    assert!(is_fresh(&game));
    check(quit(&mut game, &nobody), vec![]);
    assert_eq!(game.client_states.len(), 1);
}

#[test]
fn messages_reach_everybody() {
    let mut game = Game::default();
    let mut sessions = gather(&mut game, &["ann", "bob"]);
    let effects = act(&mut game, &mut sessions[1], say("hello"));
    check(
        effects,
        vec![
            to(1, Response::MessageFrom { sender: text("bob"), content: text("hello") }),
            to(2, Response::MessageFrom { sender: text("bob"), content: text("hello") }),
        ],
    );
    assert_eq!(game.message_history, vec![(text("bob"), text("hello"))]);
}

#[test]
fn picking_begins_when_all_are_ready() {
    let mut game = Game::default();
    let mut sessions = gather(&mut game, &["ann", "bob"]);
    let effects = act(&mut game, &mut sessions[0], Actions::SetReady);
    check(
        effects,
        vec![
            to(1, Response::ReadyResult { excuse: None }),
            to(1, Response::PlayerReady { name: text("ann") }),
            to(2, Response::PlayerReady { name: text("ann") }),
        ],
    );
    assert_eq!(game.state, GameState::Joining);
    let effects = act(&mut game, &mut sessions[0], Actions::SetReady);
    check(
        effects,
        vec![to(1, Response::ReadyResult { excuse: Some(text("您已经准备过了")) })],
    );
    let effects = act(&mut game, &mut sessions[1], Actions::SetReady);
    assert_eq!(game.state, GameState::Assigning);
    assert_eq!(game.ready_players.len(), 0);
    // with two players there is only one ring, told in either order
    assert_eq!(game.assignment_map.get(&text("ann")), Some(&text("bob")));
    assert_eq!(game.assignment_map.get(&text("bob")), Some(&text("ann")));
    let shown = show(&effects);
    assert_eq!(shown.len(), 5);
    for expected in show(&vec![
        to(1, Response::AssignStart { assignee: text("bob") }),
        to(2, Response::AssignStart { assignee: text("ann") }),
    ]) {
        assert!(shown.contains(&expected));
    }
}

#[test]
fn one_player_alone_does_not_begin() {
    let mut game = Game::default();
    let mut sessions = gather(&mut game, &["ann"]);
    act(&mut game, &mut sessions[0], Actions::SetReady);
    assert_eq!(game.state, GameState::Joining);
    assert_eq!(game.ready_players.len(), 1);
}

#[test]
fn words_are_picked_in_one_ring_left_to_chance() {
    let names = ["a", "b", "c", "d", "e", "f", "g", "h"];
    let mut arrival_orders = 0;
    for _ in 0..20 {
        let mut game = Game::default();
        let mut sessions = gather(&mut game, &names);
        for one in sessions.iter_mut() {
            act(&mut game, one, Actions::SetReady);
        }
        assert_eq!(game.state, GameState::Assigning);
        assert_eq!(game.assignment_map.len(), 8);
        let mut seen: Vec<String> = Vec::new();
        let mut name = text("a");
        let mut in_arrival_order = true;
        for _ in 0..8 {
            assert!(!seen.contains(&name));
            seen.push(name.clone());
            let next = game.assignment_map.get(&name).unwrap().clone();
            assert!(next != name);
            let place = names.iter().position(|one| *one == name.as_str()).unwrap();
            if next.as_str() != names[(place + 1) % 8] {
                in_arrival_order = false;
            }
            name = next;
        }
        assert_eq!(name, text("a"));
        if in_arrival_order {
            arrival_orders += 1;
        }
    }
    assert!(arrival_orders < 20);
}

#[test]
fn ring_of_any_list() {
    let mut game = Game::default();
    gather(&mut game, &["ann", "bob"]);
    let order = vec![text("bob"), text("zoe"), text("ann")];
    let effects = game.start_assigning(&order);
    // who is not connected is told nothing
    check(
        effects,
        vec![
            to(2, Response::AssignStart { assignee: text("zoe") }),
            to(1, Response::AssignStart { assignee: text("bob") }),
        ],
    );
    assert_eq!(game.assignment_map.get(&text("zoe")), Some(&text("ann")));
    assert_eq!(game.state, GameState::Assigning);
}

#[test]
fn cancelling_undoes_readiness() {
    let mut game = Game::default();
    let mut sessions = gather(&mut game, &["ann", "bob"]);
    act(&mut game, &mut sessions[0], Actions::SetReady);
    let effects = act(&mut game, &mut sessions[0], Actions::CancelReady);
    check(
        effects,
        vec![
            to(1, Response::ReadyResult { excuse: None }),
            to(1, Response::PlayerNotReady { name: text("ann") }),
            to(2, Response::PlayerNotReady { name: text("ann") }),
        ],
    );
    assert!(is_fresh(&game));
    let effects = act(&mut game, &mut sessions[0], Actions::CancelReady);
    check(effects, vec![to(1, Response::ReadyResult { excuse: None })]);
}

#[test]
fn blank_words_are_refused() {
    let mut game = Game::default();
    let mut sessions = picking(&mut game, &["ann", "bob"]);
    for word in ["", " ", " \t\n", "\u{3000}\u{a0}\u{2003}"] {
        let effects = act(&mut game, &mut sessions[0], pick(word));
        check(
            effects,
            vec![to(1, Response::AssignResult { excuse: Some(text("该词被禁止")) })],
        );
    }
    assert_eq!(word_of(&game, "bob"), None);
    // white space around a word stays
    let effects = act(&mut game, &mut sessions[0], pick(" apple "));
    check(effects, vec![to(1, Response::AssignResult { excuse: None })]);
    assert_eq!(word_of(&game, "bob"), Some(text(" apple ")));
    assert_eq!(word_of(&game, "ann"), None);
    // the zero width space is no white space
    act(&mut game, &mut sessions[0], pick("\u{200b}"));
    assert_eq!(word_of(&game, "bob"), Some(text("\u{200b}")));
}

#[test]
fn words_are_only_picked_in_their_phase() {
    let mut game = Game::default();
    let mut sessions = gather(&mut game, &["ann", "bob"]);
    check(act(&mut game, &mut sessions[0], pick("apple")), vec![]);
    assert!(is_fresh(&game));
    let mut game = Game::default();
    let mut sessions = fighting(&mut game, &["ann", "bob"]);
    check(act(&mut game, &mut sessions[0], pick("apple")), vec![]);
    assert_eq!(word_of(&game, "bob"), Some(text("ng-bob")));
}

#[test]
fn spectators_pick_nothing() {
    let mut game = Game::default();
    picking(&mut game, &["ann", "bob"]);
    let mut cat = session(3);
    act(&mut game, &mut cat, login("cat"));
    check(act(&mut game, &mut cat, pick("apple")), vec![]);
    check(act(&mut game, &mut cat, Actions::SetReady), vec![]);
}

#[test]
fn picking_for_somebody_gone_is_refused() {
    let mut game = Game::default();
    let mut sessions = picking(&mut game, &["ann", "bob", "cat"]);
    // bob has picked for cat, so the game survives that bob leaves
    act(&mut game, &mut sessions[1], pick("apple"));
    quit(&mut game, &sessions[1]);
    assert_eq!(game.state, GameState::Assigning);
    let effects = act(&mut game, &mut sessions[0], pick("pear"));
    check(
        effects,
        vec![to(1, Response::AssignResult { excuse: Some(text("指定对象已经无效")) })],
    );
    let effects = act(&mut game, &mut sessions[0], Actions::SetReady);
    check(
        effects,
        vec![to(1, Response::ReadyResult { excuse: Some(text("您还未指定词语")) })],
    );
}

#[test]
fn fight_begins_when_all_have_picked() {
    let mut game = Game::default();
    let mut sessions = picking(&mut game, &["ann", "bob"]);
    let effects = act(&mut game, &mut sessions[0], Actions::SetReady);
    check(
        effects,
        vec![to(1, Response::ReadyResult { excuse: Some(text("您还未指定词语")) })],
    );
    act(&mut game, &mut sessions[0], pick("banana"));
    act(&mut game, &mut sessions[1], pick("apple"));
    act(&mut game, &mut sessions[0], Actions::SetReady);
    let effects = act(&mut game, &mut sessions[0], Actions::SetReady);
    check(
        effects,
        vec![to(1, Response::ReadyResult { excuse: Some(text("您已经准备过了")) })],
    );
    let effects = act(&mut game, &mut sessions[1], Actions::SetReady);
    let mut for_ann = ng_server::names::NameMap::new();
    for_ann.insert(text("bob"), text("banana"));
    let mut for_bob = ng_server::names::NameMap::new();
    for_bob.insert(text("ann"), text("apple"));
    check(
        effects,
        vec![
            to(2, Response::ReadyResult { excuse: None }),
            to(1, Response::PlayerReady { name: text("bob") }),
            to(2, Response::PlayerReady { name: text("bob") }),
            to(1, Response::GameStart { assigned: for_ann }),
            to(1, Response::TimerReset { timer: 600 }),
            to(2, Response::GameStart { assigned: for_bob }),
            to(2, Response::TimerReset { timer: 600 }),
            Effect::RestartTimer,
        ],
    );
    assert_eq!(game.state, GameState::Fighting);
    check(act(&mut game, &mut sessions[0], Actions::SetReady), vec![]);
}

#[test]
fn saying_the_word_puts_out() {
    let mut game = Game::default();
    let mut sessions = fighting(&mut game, &["ann", "bob", "cat"]);
    // the words of others do no harm
    act(&mut game, &mut sessions[0], say("ng-bob ng-an"));
    assert!(is_alive(&game, "ann"));
    let effects = act(&mut game, &mut sessions[0], say("oh, ng-annoying"));
    let notice = text("玩家 ann 因说出NG词 ng-ann 而出局！");
    let mut expected: Vec<Effect> = Vec::new();
    for id in 1..4 {
        expected.push(to(
            id,
            Response::MessageFrom { sender: text("ann"), content: text("oh, ng-annoying") },
        ));
    }
    expected.push(Effect::RestartTimer);
    for id in 1..4 {
        expected.push(to(
            id,
            Response::PlayerOut { quitter: text("ann"), word: text("ng-ann"), suicide: false },
        ));
        expected.push(to(id, Response::MessageFrom { sender: text(""), content: notice.clone() }));
        expected.push(to(id, Response::TimerReset { timer: 600 }));
    }
    check(effects, expected);
    assert!(!is_alive(&game, "ann"));
    assert_eq!(word_of(&game, "ann"), Some(text("ng-ann")));
    assert_eq!(game.ready_players.len(), 2);
    assert_eq!(game.state, GameState::Fighting);
    assert_eq!(
        game.message_history,
        vec![
            (text("ann"), text("ng-bob ng-an")),
            (text("ann"), text("oh, ng-annoying")),
            (text(""), notice),
        ]
    );
    // who is out may say anything
    let effects = act(&mut game, &mut sessions[0], say("ng-ann"));
    assert_eq!(effects.len(), 3);
}

#[test]
fn last_one_wins() {
    let mut game = Game::default();
    let mut sessions = fighting(&mut game, &["ann", "bob"]);
    let effects = act(&mut game, &mut sessions[0], say("ng-ann"));
    let count = effects.len();
    check(
        effects.into_iter().skip(count - 3).collect(),
        vec![
            to(1, Response::GameWin { winner: text("bob"), word: text("ng-bob") }),
            to(2, Response::GameWin { winner: text("bob"), word: text("ng-bob") }),
            Effect::CancelTimer,
        ],
    );
    assert!(is_fresh(&game));
    assert_eq!(game.connections.len(), 2);
}

#[test]
fn words_do_no_harm_outside_a_fight() {
    let mut game = Game::default();
    let mut sessions = picking(&mut game, &["ann", "bob"]);
    act(&mut game, &mut sessions[1], pick("apple"));
    let effects = act(&mut game, &mut sessions[0], say("apple"));
    assert_eq!(effects.len(), 2);
    assert!(is_alive(&game, "ann"));
}

#[test]
fn giving_up_puts_out() {
    let mut game = Game::default();
    let mut sessions = fighting(&mut game, &["ann", "bob", "cat"]);
    let effects = act(&mut game, &mut sessions[1], Actions::Suicide);
    let notice = text("玩家 bob 自爆出局！");
    let mut expected: Vec<Effect> = Vec::new();
    for id in 1..4 {
        expected.push(to(
            id,
            Response::PlayerOut { quitter: text("bob"), word: text("ng-bob"), suicide: true },
        ));
        expected.push(to(id, Response::MessageFrom { sender: text(""), content: notice.clone() }));
        expected.push(to(id, Response::TimerReset { timer: 600 }));
    }
    expected.push(Effect::RestartTimer);
    check(effects, expected);
    assert_eq!(game.message_history, vec![(text(""), notice)]);
    // once is enough
    check(act(&mut game, &mut sessions[1], Actions::Suicide), vec![]);
    let effects = act(&mut game, &mut sessions[2], Actions::Suicide);
    assert_eq!(
        show(&effects).last(),
        show(&vec![Effect::CancelTimer]).last()
    );
    assert!(is_fresh(&game));
}

#[test]
fn giving_up_outside_a_fight_does_nothing() {
    let mut game = Game::default();
    let mut sessions = picking(&mut game, &["ann", "bob"]);
    check(act(&mut game, &mut sessions[0], Actions::Suicide), vec![]);
    assert!(is_alive(&game, "ann"));
}

#[test]
fn majority_aborts_the_game() {
    let mut game = Game::default();
    let mut sessions = fighting(&mut game, &["ann", "bob", "cat"]);
    let effects = act(&mut game, &mut sessions[0], Actions::RequestAbort);
    let mut expected: Vec<Effect> = Vec::new();
    for id in 1..4 {
        expected.push(to(id, Response::StartVoteAbort));
        expected.push(to(id, Response::VotedAbort { abort: true, voter: text("ann") }));
    }
    check(effects, expected);
    // a second request changes nothing
    check(act(&mut game, &mut sessions[1], Actions::RequestAbort), vec![]);
    // a second ballot is heard but does not count
    let effects = act(&mut game, &mut sessions[0], Actions::VoteAbort { abort: false });
    check(
        effects,
        vec![
            to(1, Response::VotedAbort { abort: false, voter: text("ann") }),
            to(2, Response::VotedAbort { abort: false, voter: text("ann") }),
            to(3, Response::VotedAbort { abort: false, voter: text("ann") }),
        ],
    );
    act(&mut game, &mut sessions[1], Actions::VoteAbort { abort: false });
    assert_eq!(game.state, GameState::Fighting);
    let effects = act(&mut game, &mut sessions[2], Actions::VoteAbort { abort: true });
    check(
        effects,
        vec![
            to(1, Response::VotedAbort { abort: true, voter: text("cat") }),
            to(2, Response::VotedAbort { abort: true, voter: text("cat") }),
            to(3, Response::VotedAbort { abort: true, voter: text("cat") }),
            to(1, Response::VoteAbortResult { abort: true }),
            to(2, Response::VoteAbortResult { abort: true }),
            to(3, Response::VoteAbortResult { abort: true }),
            Effect::CancelTimer,
        ],
    );
    assert!(is_fresh(&game));
}

#[test]
fn a_tie_lets_the_game_go_on() {
    let mut game = Game::default();
    let mut sessions = fighting(&mut game, &["ann", "bob"]);
    act(&mut game, &mut sessions[0], Actions::RequestAbort);
    let effects = act(&mut game, &mut sessions[1], Actions::VoteAbort { abort: false });
    check(
        effects,
        vec![
            to(1, Response::VotedAbort { abort: false, voter: text("bob") }),
            to(2, Response::VotedAbort { abort: false, voter: text("bob") }),
            to(1, Response::VoteAbortResult { abort: false }),
            to(2, Response::VoteAbortResult { abort: false }),
        ],
    );
    assert!(game.voting_session.is_none());
    assert_eq!(game.state, GameState::Fighting);
    assert_eq!(word_of(&game, "ann"), Some(text("ng-ann")));
}

#[test]
fn votes_need_a_game_and_players() {
    let mut game = Game::default();
    let mut sessions = gather(&mut game, &["ann", "bob"]);
    check(act(&mut game, &mut sessions[0], Actions::RequestAbort), vec![]);
    check(act(&mut game, &mut sessions[0], Actions::VoteAbort { abort: true }), vec![]);
    let mut game = Game::default();
    let mut sessions = picking(&mut game, &["ann", "bob"]);
    let mut cat = session(3);
    act(&mut game, &mut cat, login("cat"));
    check(act(&mut game, &mut cat, Actions::RequestAbort), vec![]);
    act(&mut game, &mut sessions[0], Actions::RequestAbort);
    check(act(&mut game, &mut cat, Actions::VoteAbort { abort: true }), vec![]);
}

#[test]
fn leaving_takes_the_ballot_along() {
    let mut game = Game::default();
    let mut sessions = fighting(&mut game, &["ann", "bob", "cat"]);
    act(&mut game, &mut sessions[0], Actions::RequestAbort);
    act(&mut game, &mut sessions[1], Actions::VoteAbort { abort: true });
    // cat was the only one who had not voted
    let effects = quit(&mut game, &sessions[2]);
    check(
        effects,
        vec![
            to(1, Response::VoteAbortResult { abort: true }),
            to(2, Response::VoteAbortResult { abort: true }),
            Effect::CancelTimer,
            to(1, Response::PlayerQuit { name: text("cat") }),
            to(2, Response::PlayerQuit { name: text("cat") }),
        ],
    );
    assert!(is_fresh(&game));
    assert_eq!(game.client_states.len(), 2);
}

#[test]
fn leaving_can_fail_a_vote() {
    let mut game = Game::default();
    let mut sessions = fighting(&mut game, &["ann", "bob", "cat"]);
    act(&mut game, &mut sessions[0], Actions::RequestAbort);
    act(&mut game, &mut sessions[1], Actions::VoteAbort { abort: false });
    let effects = quit(&mut game, &sessions[2]);
    assert_eq!(
        show(&effects)[0],
        show(&vec![to(1, Response::VoteAbortResult { abort: false })])[0]
    );
    assert!(game.voting_session.is_none());
    assert_eq!(game.state, GameState::Fighting);
}

#[test]
fn deserters_are_out() {
    let mut game = Game::default();
    let sessions = fighting(&mut game, &["ann", "bob", "cat"]);
    let effects = quit(&mut game, &sessions[0]);
    let notice = text("玩家 ann 因为退出游戏而出局！");
    let mut expected: Vec<Effect> = Vec::new();
    for id in 2..4 {
        expected.push(to(
            id,
            Response::PlayerOut { quitter: text("ann"), word: text("ng-ann"), suicide: false },
        ));
        expected.push(to(id, Response::MessageFrom { sender: text(""), content: notice.clone() }));
        expected.push(to(id, Response::PlayerQuit { name: text("ann") }));
    }
    check(effects, expected);
    assert_eq!(game.message_history, vec![(text(""), notice)]);
    // the next one to leave makes the last one win
    let effects = quit(&mut game, &sessions[1]);
    assert_eq!(
        show(&effects)[3],
        show(&vec![to(3, Response::GameWin { winner: text("cat"), word: text("ng-cat") })])[0]
    );
    assert!(is_fresh(&game));
}

#[test]
fn players_who_are_out_leave_quietly() {
    let mut game = Game::default();
    let mut sessions = fighting(&mut game, &["ann", "bob", "cat"]);
    act(&mut game, &mut sessions[0], Actions::Suicide);
    let effects = quit(&mut game, &sessions[0]);
    check(
        effects,
        vec![
            to(2, Response::PlayerQuit { name: text("ann") }),
            to(3, Response::PlayerQuit { name: text("ann") }),
        ],
    );
    assert_eq!(game.state, GameState::Fighting);
}

#[test]
fn game_ends_when_nobody_can_pick_a_word() {
    let mut game = Game::default();
    let sessions = picking(&mut game, &["ann", "bob", "cat"]);
    let effects = quit(&mut game, &sessions[0]);
    check(
        effects,
        vec![
            to(2, Response::PlayerQuit { name: text("ann") }),
            to(3, Response::PlayerQuit { name: text("ann") }),
            to(2, Response::GameEndUnproceedable),
            to(3, Response::GameEndUnproceedable),
            Effect::CancelTimer,
        ],
    );
    assert!(is_fresh(&game));
}

#[test]
fn spectators_leave_without_harm() {
    let mut game = Game::default();
    picking(&mut game, &["ann", "bob"]);
    let mut cat = session(3);
    act(&mut game, &mut cat, login("cat"));
    let effects = quit(&mut game, &cat);
    check(
        effects,
        vec![
            to(1, Response::PlayerQuit { name: text("cat") }),
            to(2, Response::PlayerQuit { name: text("cat") }),
        ],
    );
    assert_eq!(game.state, GameState::Assigning);
}

#[test]
fn leaving_while_players_gather() {
    let mut game = Game::default();
    let mut sessions = gather(&mut game, &["ann", "bob"]);
    act(&mut game, &mut sessions[0], Actions::SetReady);
    let effects = quit(&mut game, &sessions[0]);
    check(effects, vec![to(2, Response::PlayerQuit { name: text("ann") })]);
    assert!(is_fresh(&game));
    assert!(!game.client_states.contains_key(&text("ann")));
    assert!(!game.connections.contains_key(&text("ann")));
    // the name is free again
    let mut other = session(9);
    act(&mut game, &mut other, login("ann"));
    assert_eq!(other.name, Some(text("ann")));
}

#[test]
fn time_out_starts_over() {
    let mut game = Game::default();
    let mut sessions = fighting(&mut game, &["ann", "bob"]);
    let mut cat = session(3);
    act(&mut game, &mut cat, login("cat"));
    act(&mut game, &mut sessions[0], Actions::RequestAbort);
    let effects = game.time_out();
    check(
        effects,
        vec![
            to(1, Response::GameEndTimeout),
            to(2, Response::GameEndTimeout),
            to(3, Response::GameEndTimeout),
        ],
    );
    // the spectator plays now
    assert!(is_fresh(&game));
    assert_eq!(game.client_states.len(), 3);
}

#[test]
fn starting_over_twice_is_starting_over_once() {
    let mut game = Game::default();
    fighting(&mut game, &["ann", "bob"]);
    game.renew_inherit_clients();
    assert!(is_fresh(&game));
    let once = format!("{:?}", game);
    game.renew_inherit_clients();
    assert_eq!(format!("{:?}", game), once);
}

#[test]
fn only_a_lost_connection_ends_a_session() {
    let mut game = Game::default();
    let mut sessions = gather(&mut game, &["ann"]);
    for (message, keep_open) in vec![
        (Incoming::Unrecognised, true),
        (Incoming::Failed(TransportError::Other), true),
        (Incoming::Failed(TransportError::ConnectionClosed), false),
        (Incoming::Failed(TransportError::AlreadyClosed), false),
        (Incoming::Failed(TransportError::Io), false),
        (Incoming::Failed(TransportError::AttackAttempt), false),
    ] {
        assert!(is_processable(&game, &sessions[0], &message));
        let outcome = process_message(&mut game, &mut sessions[0], message);
        assert_eq!(outcome.keep_open, keep_open);
        check(outcome.effects, vec![]);
    }
    assert!(is_fresh(&game));
    assert_eq!(sessions[0].name, Some(text("ann")));
}

#[test]
fn fight_without_anybody_in_the_running_has_no_winner() {
    let mut game = Game::default();
    let mut sessions = fighting(&mut game, &["ann", "bob"]);
    act(&mut game, by_name(&mut sessions, "bob"), Actions::CancelReady);
    let ann = &sessions[0];
    assert!(is_processable(&game, ann, &Incoming::Action(say("hello"))));
    assert!(!is_processable(&game, ann, &Incoming::Action(say("ng-ann"))));
    assert!(!is_processable(&game, ann, &Incoming::Action(Actions::Suicide)));
    assert!(!is_closable(&game, ann));
    assert!(is_closable(&game, &sessions[1]));
}

#[test]
fn fight_cannot_begin_with_a_word_missing() {
    let mut game = Game::default();
    let mut sessions = picking(&mut game, &["ann", "bob", "cat"]);
    act(&mut game, &mut sessions[1], pick("apple"));
    act(&mut game, &mut sessions[1], Actions::SetReady);
    act(&mut game, &mut sessions[2], pick("pear"));
    quit(&mut game, &sessions[2]);
    let mut cat = session(4);
    act(&mut game, &mut cat, login("cat"));
    // bob has no word, and the spectator cat would have to be told it
    assert!(!is_processable(&game, &cat, &Incoming::Action(Actions::SetReady)));
    act(&mut game, &mut sessions[0], pick("plum"));
    act(&mut game, &mut cat, Actions::SetReady);
    assert_eq!(game.state, GameState::Fighting);
}

#[test]
fn strangers_cannot_act_for_a_client() {
    let game = Game::default();
    let ghost = Session { id: 1, name: Some(text("ann")) };
    assert!(!is_processable(&game, &ghost, &Incoming::Action(Actions::VoteAbort { abort: true })));
    assert!(is_processable(&game, &ghost, &Incoming::Action(Actions::RequestAbort)));
    assert!(is_processable(&game, &ghost, &Incoming::Action(say("hello"))));
    assert!(!is_closable(&game, &ghost));
}

#[test]
fn newcomers_read_of_who_went_out() {
    let mut game = Game::default();
    let mut sessions = fighting(&mut game, &["ann", "bob", "cat"]);
    act(&mut game, &mut sessions[0], say("hello"));
    act(&mut game, &mut sessions[1], say("ng-bob"));
    let mut dan = session(4);
    let effects = act(&mut game, &mut dan, login("dan"));
    assert_eq!(
        show(&effects)[1],
        show(&vec![to(
            4,
            Response::MessageHistory {
                history: vec![
                    (text("ann"), text("hello")),
                    (text("bob"), text("ng-bob")),
                    (text(""), text("玩家 bob 因说出NG词 ng-bob 而出局！")),
                ],
            },
        )])[0]
    );
    // the end of the fight wipes the chat
    act(&mut game, &mut sessions[0], say("ng-ann"));
    let mut eve = session(5);
    let effects = act(&mut game, &mut eve, login("eve"));
    assert_eq!(
        show(&effects)[1],
        show(&vec![to(5, Response::MessageHistory { history: vec![] })])[0]
    );
}

#[test]
fn leaving_can_end_a_vote_and_the_fight() {
    let mut game = Game::default();
    let mut sessions = fighting(&mut game, &["ann", "bob", "cat"]);
    act(&mut game, &mut sessions[0], Actions::Suicide);
    act(&mut game, &mut sessions[0], Actions::RequestAbort);
    act(&mut game, &mut sessions[1], Actions::VoteAbort { abort: false });
    // without cat it is a tie, and bob is the last one in the running
    let effects = quit(&mut game, &sessions[2]);
    let mut expected: Vec<Effect> = Vec::new();
    for id in 1..3 {
        expected.push(to(id, Response::VoteAbortResult { abort: false }));
    }
    for id in 1..3 {
        expected.push(to(
            id,
            Response::PlayerOut { quitter: text("cat"), word: text("ng-cat"), suicide: false },
        ));
        expected.push(to(
            id,
            Response::MessageFrom {
                sender: text(""),
                content: text("玩家 cat 因为退出游戏而出局！"),
            },
        ));
        expected.push(to(id, Response::PlayerQuit { name: text("cat") }));
    }
    for id in 1..3 {
        expected.push(to(id, Response::GameWin { winner: text("bob"), word: text("ng-bob") }));
    }
    expected.push(Effect::CancelTimer);
    check(effects, expected);
    assert!(is_fresh(&game));
}
