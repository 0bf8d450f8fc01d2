use ng_server::names::{NameMap, NameSet};
use ng_server::protocol::{ClientState, GameState, PlayerState, Response};

fn text(s: &str) -> String {
    s.to_owned()
}

#[test]
fn game_begins_with_gathering() {
    assert_eq!(GameState::default(), GameState::Joining);
}

#[test]
fn player_goes_out_once() {
    let mut state = PlayerState::Alive;
    assert!(state.set_out());
    assert_eq!(state, PlayerState::Out);
    assert!(!state.set_out());
    assert_eq!(state, PlayerState::Out);
}

#[test]
fn player_keeps_word_when_out() {
    let mut client = ClientState::Player(PlayerState::Alive, None);
    assert!(client.is_player());
    assert!(!client.word_set());
    assert_eq!(client.get_word(), None);
    client.set_word(text("apple"));
    assert!(client.word_set());
    assert_eq!(client.get_word(), Some(text("apple")));
    client.set_word(text("pear"));
    assert_eq!(client.get_word(), Some(text("pear")));
    assert!(client.set_out());
    assert!(!client.set_out());
    assert!(client.is_player());
    assert_eq!(client.get_word(), Some(text("pear")));
    assert!(matches!(client, ClientState::Player(PlayerState::Out, Some(_))));
}

#[test]
fn spectator_has_no_word_and_cannot_go_out() {
    let mut client = ClientState::Spectator;
    client.set_word(text("apple"));
    assert!(!client.is_player());
    assert!(!client.word_set());
    assert_eq!(client.get_word(), None);
    assert!(!client.set_out());
    assert!(matches!(client, ClientState::Spectator));
}

#[test]
fn clone_of_a_client_is_independent() {
    let mut client = ClientState::Player(PlayerState::Alive, Some(text("apple")));
    let copy = client.clone();
    client.set_word(text("pear"));
    client.set_out();
    assert_eq!(copy.get_word(), Some(text("apple")));
    assert!(matches!(copy, ClientState::Player(PlayerState::Alive, _)));
}

#[test]
fn clone_of_a_response_says_the_same() {
    let mut assigned = NameMap::new();
    assigned.insert(text("ann"), text("apple"));
    let mut clients = NameMap::new();
    clients.insert(text("ann"), ClientState::Player(PlayerState::Out, Some(text("apple"))));
    clients.insert(text("bob"), ClientState::Spectator);
    let responses = vec![
        Response::LoginResult { excuse: Some(text("no")) },
        Response::LoginResult { excuse: None },
        Response::MessageFrom { sender: text("ann"), content: text("hello") },
        Response::AssignResult { excuse: Some(text("no")) },
        Response::PlayerOut { quitter: text("ann"), word: text("apple"), suicide: true },
        Response::PlayerReady { name: text("ann") },
        Response::ReadyResult { excuse: None },
        Response::PlayerNotReady { name: text("ann") },
        Response::TimerReset { timer: 600 },
        Response::GameWin { winner: text("ann"), word: text("apple") },
        Response::GameEndTimeout,
        Response::GameEndUnproceedable,
        Response::StartVoteAbort,
        Response::VotedAbort { abort: true, voter: text("ann") },
        Response::VoteAbortResult { abort: false },
        Response::AssignStart { assignee: text("ann") },
        Response::GameStart { assigned },
        Response::Overview { clients, game_state: GameState::Fighting },
        Response::MessageHistory { history: vec![(text("ann"), text("hello"))] },
        Response::PlayerJoin { name: text("ann") },
        Response::PlayerQuit { name: text("ann") },
    ];
    for response in &responses {
        assert_eq!(format!("{:?}", response.clone()), format!("{:?}", response));
    }
}

#[test]
fn name_set_keeps_each_name_once_in_order() {
    let mut set = NameSet::new();
    assert!(set.insert(text("b")));
    assert!(set.insert(text("a")));
    assert!(!set.insert(text("b")));
    assert!(set.insert(text("c")));
    assert_eq!(set.len(), 3);
    assert_eq!((set.at(0).as_str(), set.at(1).as_str(), set.at(2).as_str()), ("b", "a", "c"));
    assert!(set.contains(&text("a")));
    assert!(set.remove(&text("a")));
    assert!(!set.remove(&text("a")));
    assert!(!set.contains(&text("a")));
    assert_eq!((set.len(), set.at(0).as_str(), set.at(1).as_str()), (2, "b", "c"));
}

#[test]
fn name_map_keeps_the_last_value_of_a_name() {
    let mut map: NameMap<u64> = NameMap::new();
    map.insert(text("b"), 1);
    map.insert(text("a"), 2);
    map.insert(text("b"), 3);
    assert_eq!(map.len(), 2);
    assert_eq!((map.key_at(0).as_str(), *map.value_at(0)), ("b", 3));
    assert_eq!((map.key_at(1).as_str(), *map.value_at(1)), ("a", 2));
    assert_eq!(map.get(&text("a")), Some(&2));
    assert_eq!(map.get(&text("c")), None);
    assert!(map.contains_key(&text("b")));
    assert_eq!(map.remove(&text("b")), Some(3));
    assert_eq!(map.remove(&text("b")), None);
    assert!(!map.contains_key(&text("b")));
    assert_eq!(map.len(), 1);
}
