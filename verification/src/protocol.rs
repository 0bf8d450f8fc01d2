//! What clients and server say to each other, and the states they speak of.
use crate::names::{Name, NameMap, Replicate};
use vstd::prelude::*;

verus! {

/// The phase of the game.
#[derive(Clone, Copy, Debug, PartialEq, Eq, Structural)]
pub enum GameState {
    /// Players gather and declare themselves ready.
    Joining,
    /// Every player picks the forbidden word of another one.
    Assigning,
    /// Players talk; whoever says the own forbidden word is out.
    Fighting,
}

impl Default for GameState {
    fn default() -> (state: GameState)
        ensures
            state == GameState::Joining,
    {
        GameState::Joining
    }
}

/// Whether a player is still in the running.
#[derive(Clone, Copy, Debug, PartialEq, Eq, Structural)]
pub enum PlayerState {
    Alive,
    Out,
}

impl PlayerState {
    /// Puts the player out, and says whether that changed anything.
    pub fn set_out(&mut self) -> (changed: bool)
        ensures
            changed == (*old(self) == PlayerState::Alive),
            *final(self) == PlayerState::Out,
    {
        match self {
            PlayerState::Alive => {
                *self = PlayerState::Out;
                true
            },
            PlayerState::Out => false,
        }
    }
}

/// What a text that may be missing is in contracts.
pub open spec fn text_view(text: Option<String>) -> Option<Seq<char>> {
    match text {
        Some(text) => Some(text@),
        None => None,
    }
}

/// What chat lines, each with its sender, are in contracts.
pub open spec fn lines_view(lines: Seq<(String, String)>) -> Seq<(Name, Seq<char>)> {
    lines.map_values(|line: (String, String)| (line.0@, line.1@))
}

/// The part a client has in the game; a player may have a forbidden word.
#[derive(Debug)]
pub enum ClientState {
    Player(PlayerState, Option<String>),
    Spectator,
}

/// What a `ClientState` is in contracts.
pub enum ClientStateView {
    Player(PlayerState, Option<Seq<char>>),
    Spectator,
}

impl ClientStateView {
    pub open spec fn is_player(self) -> bool {
        self is Player
    }

    /// The forbidden word of the client.
    pub open spec fn word(self) -> Option<Seq<char>> {
        match self {
            ClientStateView::Player(_, word) => word,
            ClientStateView::Spectator => None,
        }
    }

    /// The client with another forbidden word; a spectator has none.
    pub open spec fn with_word(self, word: Seq<char>) -> ClientStateView {
        match self {
            ClientStateView::Player(state, _) => ClientStateView::Player(state, Some(word)),
            ClientStateView::Spectator => ClientStateView::Spectator,
        }
    }

    /// Whether the client is a player in the running.
    pub open spec fn is_alive(self) -> bool {
        self matches ClientStateView::Player(PlayerState::Alive, _)
    }

    /// The client out of the running; the forbidden word stays.
    pub open spec fn out(self) -> ClientStateView {
        match self {
            ClientStateView::Player(_, word) => ClientStateView::Player(PlayerState::Out, word),
            ClientStateView::Spectator => ClientStateView::Spectator,
        }
    }
}

impl View for ClientState {
    type V = ClientStateView;

    open spec fn view(&self) -> ClientStateView {
        match *self {
            ClientState::Player(state, word) => ClientStateView::Player(state, text_view(word)),
            ClientState::Spectator => ClientStateView::Spectator,
        }
    }
}

impl Clone for ClientState {
    fn clone(&self) -> (copy: ClientState)
        ensures
            copy@ == self@,
    {
        match self {
            ClientState::Player(state, word) => ClientState::Player(*state, copy_text(word)),
            ClientState::Spectator => ClientState::Spectator,
        }
    }
}

impl Replicate for ClientState {
    fn replicate(&self) -> (copy: ClientState) {
        self.clone()
    }
}

/// A second text that is missing if the first one is.
pub(crate) fn copy_text(text: &Option<String>) -> (copy: Option<String>)
    ensures
        text_view(copy) == text_view(*text),
{
    match text {
        Some(text) => Some(text.clone()),
        None => None,
    }
}

/// A second list of the same chat lines.
pub(crate) fn copy_lines(lines: &Vec<(String, String)>) -> (copy: Vec<(String, String)>)
    ensures
        lines_view(copy@) == lines_view(lines@),
{
    let mut copy: Vec<(String, String)> = Vec::new();
    let mut index: usize = 0;
    while index < lines.len()
        invariant
            index <= lines@.len(),
            lines_view(copy@) == lines_view(lines@).take(index as int),
        decreases lines@.len() - index,
    {
        let line = &lines[index];
        let ghost before = copy@;
        copy.push((line.0.clone(), line.1.clone()));
        index = index + 1;
        proof {
            assert(lines_view(copy@) =~= lines_view(before).push((line.0@, line.1@)));
            assert(lines_view(copy@) =~= lines_view(lines@).take(index as int));
        }
    }
    assert(lines_view(copy@) =~= lines_view(lines@));
    copy
}

impl ClientState {
    /// Whether the client takes part in the game.
    pub fn is_player(&self) -> (result: bool)
        ensures
            result == self@.is_player(),
    {
        match self {
            ClientState::Player(_, _) => true,
            ClientState::Spectator => false,
        }
    }

    /// The forbidden word of the client, if it has one.
    pub fn get_word(&self) -> (word: Option<String>)
        ensures
            text_view(word) == self@.word(),
    {
        match self {
            ClientState::Player(_, word) => copy_text(word),
            ClientState::Spectator => None,
        }
    }

    /// Gives a player a forbidden word; a spectator is left alone.
    pub fn set_word(&mut self, new_word: String)
        ensures
            final(self)@ == old(self)@.with_word(new_word@),
    {
        match self {
            ClientState::Player(_, word) => {
                *word = Some(new_word);
            },
            ClientState::Spectator => (),
        }
    }

    /// Whether the client has a forbidden word.
    pub fn word_set(&self) -> (result: bool)
        ensures
            result == self@.word() is Some,
    {
        match self {
            ClientState::Player(_, Some(_)) => true,
            _ => false,
        }
    }

    /// Puts a player out, and says whether that changed anything.
    pub fn set_out(&mut self) -> (changed: bool)
        ensures
            changed == old(self)@.is_alive(),
            final(self)@ == old(self)@.out(),
    {
        match self {
            ClientState::Player(state, _) => state.set_out(),
            ClientState::Spectator => false,
        }
    }
}

/// What a client asks of the server.
#[derive(Debug)]
pub enum Actions {
    Login { name: String },
    Send(String),
    Suicide,
    RequestAbort,
    VoteAbort { abort: bool },
    AssignWord { word: String },
    SetReady,
    CancelReady,
}

/// What an `Actions` is in contracts.
pub enum ActionsView {
    Login { name: Name },
    Send(Seq<char>),
    Suicide,
    RequestAbort,
    VoteAbort { abort: bool },
    AssignWord { word: Seq<char> },
    SetReady,
    CancelReady,
}

impl View for Actions {
    type V = ActionsView;

    open spec fn view(&self) -> ActionsView {
        match *self {
            Actions::Login { name } => ActionsView::Login { name: name@ },
            Actions::Send(message) => ActionsView::Send(message@),
            Actions::Suicide => ActionsView::Suicide,
            Actions::RequestAbort => ActionsView::RequestAbort,
            Actions::VoteAbort { abort } => ActionsView::VoteAbort { abort },
            Actions::AssignWord { word } => ActionsView::AssignWord { word: word@ },
            Actions::SetReady => ActionsView::SetReady,
            Actions::CancelReady => ActionsView::CancelReady,
        }
    }
}

/// What the server tells a client.
#[derive(Debug)]
pub enum Response {
    LoginResult { excuse: Option<String> },
    MessageFrom { sender: String, content: String },
    AssignResult { excuse: Option<String> },
    PlayerOut { quitter: String, word: String, suicide: bool },
    PlayerReady { name: String },
    ReadyResult { excuse: Option<String> },
    PlayerNotReady { name: String },
    /// The game ends unless something happens within `timer` seconds.
    TimerReset { timer: u64 },
    GameWin { winner: String, word: String },
    GameEndTimeout,
    GameEndUnproceedable,
    StartVoteAbort,
    VotedAbort { abort: bool, voter: String },
    VoteAbortResult { abort: bool },
    AssignStart { assignee: String },
    GameStart { assigned: NameMap<String> },
    Overview { clients: NameMap<ClientState>, game_state: GameState },
    MessageHistory { history: Vec<(String, String)> },
    PlayerJoin { name: String },
    PlayerQuit { name: String },
}

/// What a `Response` is in contracts.
pub enum ResponseView {
    LoginResult { excuse: Option<Seq<char>> },
    MessageFrom { sender: Name, content: Seq<char> },
    AssignResult { excuse: Option<Seq<char>> },
    PlayerOut { quitter: Name, word: Seq<char>, suicide: bool },
    PlayerReady { name: Name },
    ReadyResult { excuse: Option<Seq<char>> },
    PlayerNotReady { name: Name },
    TimerReset { timer: u64 },
    GameWin { winner: Name, word: Seq<char> },
    GameEndTimeout,
    GameEndUnproceedable,
    StartVoteAbort,
    VotedAbort { abort: bool, voter: Name },
    VoteAbortResult { abort: bool },
    AssignStart { assignee: Name },
    GameStart { assigned: Map<Name, Seq<char>> },
    Overview { clients: Map<Name, ClientStateView>, game_state: GameState },
    MessageHistory { history: Seq<(Name, Seq<char>)> },
    PlayerJoin { name: Name },
    PlayerQuit { name: Name },
}

impl View for Response {
    type V = ResponseView;

    open spec fn view(&self) -> ResponseView {
        match *self {
            Response::LoginResult { excuse } => ResponseView::LoginResult {
                excuse: text_view(excuse),
            },
            Response::MessageFrom { sender, content } => ResponseView::MessageFrom {
                sender: sender@,
                content: content@,
            },
            Response::AssignResult { excuse } => ResponseView::AssignResult {
                excuse: text_view(excuse),
            },
            Response::PlayerOut { quitter, word, suicide } => ResponseView::PlayerOut {
                quitter: quitter@,
                word: word@,
                suicide,
            },
            Response::PlayerReady { name } => ResponseView::PlayerReady { name: name@ },
            Response::ReadyResult { excuse } => ResponseView::ReadyResult {
                excuse: text_view(excuse),
            },
            Response::PlayerNotReady { name } => ResponseView::PlayerNotReady { name: name@ },
            Response::TimerReset { timer } => ResponseView::TimerReset { timer },
            Response::GameWin { winner, word } => ResponseView::GameWin {
                winner: winner@,
                word: word@,
            },
            Response::GameEndTimeout => ResponseView::GameEndTimeout,
            Response::GameEndUnproceedable => ResponseView::GameEndUnproceedable,
            Response::StartVoteAbort => ResponseView::StartVoteAbort,
            Response::VotedAbort { abort, voter } => ResponseView::VotedAbort {
                abort,
                voter: voter@,
            },
            Response::VoteAbortResult { abort } => ResponseView::VoteAbortResult { abort },
            Response::AssignStart { assignee } => ResponseView::AssignStart {
                assignee: assignee@,
            },
            Response::GameStart { assigned } => ResponseView::GameStart { assigned: assigned@ },
            Response::Overview { clients, game_state } => ResponseView::Overview {
                clients: clients@,
                game_state,
            },
            Response::MessageHistory { history } => ResponseView::MessageHistory {
                history: lines_view(history@),
            },
            Response::PlayerJoin { name } => ResponseView::PlayerJoin { name: name@ },
            Response::PlayerQuit { name } => ResponseView::PlayerQuit { name: name@ },
        }
    }
}

impl Clone for Response {
    fn clone(&self) -> (copy: Response)
        ensures
            copy@ == self@,
    {
        match self {
            Response::LoginResult { excuse } => Response::LoginResult {
                excuse: copy_text(excuse),
            },
            Response::MessageFrom { sender, content } => Response::MessageFrom {
                sender: sender.clone(),
                content: content.clone(),
            },
            Response::AssignResult { excuse } => Response::AssignResult {
                excuse: copy_text(excuse),
            },
            Response::PlayerOut { quitter, word, suicide } => Response::PlayerOut {
                quitter: quitter.clone(),
                word: word.clone(),
                suicide: *suicide,
            },
            Response::PlayerReady { name } => Response::PlayerReady { name: name.clone() },
            Response::ReadyResult { excuse } => Response::ReadyResult {
                excuse: copy_text(excuse),
            },
            Response::PlayerNotReady { name } => Response::PlayerNotReady { name: name.clone() },
            Response::TimerReset { timer } => Response::TimerReset { timer: *timer },
            Response::GameWin { winner, word } => Response::GameWin {
                winner: winner.clone(),
                word: word.clone(),
            },
            Response::GameEndTimeout => Response::GameEndTimeout,
            Response::GameEndUnproceedable => Response::GameEndUnproceedable,
            Response::StartVoteAbort => Response::StartVoteAbort,
            Response::VotedAbort { abort, voter } => Response::VotedAbort {
                abort: *abort,
                voter: voter.clone(),
            },
            Response::VoteAbortResult { abort } => Response::VoteAbortResult { abort: *abort },
            Response::AssignStart { assignee } => Response::AssignStart {
                assignee: assignee.clone(),
            },
            Response::GameStart { assigned } => Response::GameStart {
                assigned: assigned.replicate(),
            },
            Response::Overview { clients, game_state } => Response::Overview {
                clients: clients.replicate(),
                game_state: *game_state,
            },
            Response::MessageHistory { history } => Response::MessageHistory {
                history: copy_lines(history),
            },
            Response::PlayerJoin { name } => Response::PlayerJoin { name: name.clone() },
            Response::PlayerQuit { name } => Response::PlayerQuit { name: name.clone() },
        }
    }
}

} // verus!
