//! The game and everything that can happen to it.
use crate::chance::{lemma_reordered, names_view, shuffle};
use crate::model::{
    deliveries, fresh_player, next_in_ring, ring, EffectView, GameView, SessionView, VotingView,
    TIMEOUT_SECS,
};
use crate::names::{Name, NameMap, NameSet};
use crate::protocol::{
    copy_lines, lines_view, text_view, ClientState, GameState, PlayerState, Response, ResponseView,
};
use crate::text::{contains, is_blank, quit_notice, quit_text, spoken_notice, suicide_notice};
use vstd::prelude::*;

verus! {

/// Something the server does for a session.
#[derive(Debug)]
pub enum Effect {
    /// Send a response over a connection.
    Send { to: u64, response: Response },
    /// Stop the timer of the session, if it runs, and start it afresh.
    RestartTimer,
    /// Stop the timer of the session, if it runs.
    CancelTimer,
}

impl View for Effect {
    type V = EffectView;

    open spec fn view(&self) -> EffectView {
        match *self {
            Effect::Send { to, response } => EffectView::Send { to, response: response@ },
            Effect::RestartTimer => EffectView::RestartTimer,
            Effect::CancelTimer => EffectView::CancelTimer,
        }
    }
}

/// What effects are in contracts.
pub open spec fn effects_view(effects: Seq<Effect>) -> Seq<EffectView> {
    effects.map_values(|effect: Effect| effect@)
}

/// What responses are in contracts.
pub open spec fn responses_view(responses: Seq<Response>) -> Seq<ResponseView> {
    responses.map_values(|response: Response| response@)
}

/// Adds an effect to a list.
fn add_effect(effects: &mut Vec<Effect>, effect: Effect)
    ensures
        effects_view(final(effects)@) == effects_view(old(effects)@).push(effect@),
{
    let ghost before = effects@;
    effects.push(effect);
    assert(effects_view(effects@) =~= effects_view(before).push(effect@));
}

/// A client at the other end of a connection; it has a name once it has
/// logged in.
#[derive(Debug)]
pub struct Session {
    pub id: u64,
    pub name: Option<String>,
}

impl View for Session {
    type V = SessionView;

    open spec fn view(&self) -> SessionView {
        SessionView { id: self.id, name: text_view(self.name) }
    }
}

impl Session {
    /// Answers the session itself.
    fn reply(&self, response: Response, effects: &mut Vec<Effect>)
        ensures
            effects_view(final(effects)@) == effects_view(old(effects)@) + self@.reply(response@),
    {
        let ghost before = effects_view(effects@);
        add_effect(effects, Effect::Send { to: self.id, response });
        assert(effects_view(effects@) =~= before + self@.reply(response@));
    }
}

/// A vote on whether to abort the game.
#[derive(Debug)]
pub struct VotingSession {
    pub agreed: NameSet,
    pub objection: NameSet,
}

impl View for VotingSession {
    type V = VotingView;

    open spec fn view(&self) -> VotingView {
        VotingView { agreed: self.agreed@.to_set(), objection: self.objection@.to_set() }
    }
}

/// The game.
#[derive(Debug)]
pub struct Game {
    pub state: GameState,
    pub connections: NameMap<u64>,
    pub client_states: NameMap<ClientState>,
    pub ready_players: NameSet,
    pub assignment_map: NameMap<String>,
    pub message_history: Vec<(String, String)>,
    pub voting_session: Option<VotingSession>,
}

impl View for Game {
    type V = GameView;

    open spec fn view(&self) -> GameView {
        GameView {
            state: self.state,
            connections: self.connections@,
            order: self.connections.keys(),
            clients: self.client_states@,
            ready: self.ready_players@,
            assignment: self.assignment_map@,
            history: lines_view(self.message_history@),
            voting: match self.voting_session {
                Some(voting) => Some(voting@),
                None => None,
            },
        }
    }
}

impl Default for Game {
    fn default() -> (game: Game)
        ensures
            game@ == GameView::initial(),
    {
        let game = Game {
            state: GameState::default(),
            connections: NameMap::new(),
            client_states: NameMap::new(),
            ready_players: NameSet::new(),
            assignment_map: NameMap::new(),
            message_history: Vec::new(),
            voting_session: None,
        };
        assert(game@.history =~= seq![]);
        game
    }
}

impl Game {
    /// Starts the game over with the same clients, all of them players.
    pub fn renew_inherit_clients(&mut self)
        ensures
            final(self)@ == old(self)@.renewed(),
    {
        let ghost before = self@;
        let mut clients: NameMap<ClientState> = NameMap::new();
        let count = self.client_states.len();
        let mut index: usize = 0;
        while index < count
            invariant
                index <= count,
                count == self.client_states.keys().len(),
                self.client_states.keys().no_duplicates(),
                clients.keys() == self.client_states.keys().take(index as int),
                clients@.dom() == clients.keys().to_set(),
                forall|name: Name|
                    clients@.contains_key(name) ==> clients@[name] == fresh_player(),
            decreases count - index,
        {
            let name = self.client_states.key_at(index);
            let ghost earlier = clients.keys();
            clients.insert(name.clone(), ClientState::Player(PlayerState::Alive, None));
            index = index + 1;
            proof {
                earlier.lemma_push_to_set_commute(name@);
                assert(!earlier.contains(name@)) by {
                    if earlier.contains(name@) {
                        let i = choose|i: int| 0 <= i < earlier.len() && earlier[i] == name@;
                        assert(self.client_states.keys()[i] == self.client_states.keys()[index - 1]);
                    }
                }
                assert(clients.keys() =~= self.client_states.keys().take(index as int));
            }
        }
        proof {
            assert(clients.keys() =~= self.client_states.keys());
            assert(clients@ =~= before.renewed().clients);
        }
        self.client_states = clients;
        self.state = GameState::default();
        self.ready_players = NameSet::new();
        self.assignment_map = NameMap::new();
        self.message_history = Vec::new();
        self.voting_session = None;
        assert(self@.history =~= seq![]);
    }

    /// Tells every client in turn a list of responses.
    fn broadcast(&self, responses: &Vec<Response>, effects: &mut Vec<Effect>)
        ensures
            effects_view(final(effects)@) == effects_view(old(effects)@) + self@.broadcast(
                responses_view(responses@),
            ),
    {
        let ghost before = effects_view(effects@);
        let ghost told = responses_view(responses@);
        let ghost to_one = |name: Name| deliveries(self@.connections[name], told);
        let ghost order = self@.order;
        let count = self.connections.len();
        let mut index: usize = 0;
        assert(effects_view(effects@) =~= before + order.take(0).flat_map(to_one));
        while index < count
            invariant
                index <= count,
                count == self.connections.keys().len(),
                order == self.connections.keys(),
                told == responses_view(responses@),
                to_one == (|name: Name| deliveries(self@.connections[name], told)),
                effects_view(effects@) == before + order.take(index as int).flat_map(to_one),
            decreases count - index,
        {
            let to = *self.connections.value_at(index);
            let ghost earlier = effects_view(effects@);
            let mut next: usize = 0;
            assert(effects_view(effects@) =~= earlier + deliveries(to, told.take(0)));
            while next < responses.len()
                invariant
                    next <= responses@.len(),
                    told == responses_view(responses@),
                    effects_view(effects@) == earlier + deliveries(to, told.take(next as int)),
                decreases responses@.len() - next,
            {
                add_effect(effects, Effect::Send { to, response: responses[next].clone() });
                next = next + 1;
                assert(deliveries(to, told.take(next as int)) =~= deliveries(
                    to,
                    told.take(next - 1),
                ).push(EffectView::Send { to, response: told[next - 1] }));
                assert(effects_view(effects@) =~= earlier + deliveries(
                    to,
                    told.take(next as int),
                ));
            }
            assert(told.take(told.len() as int) =~= told);
            index = index + 1;
            proof {
                order.lemma_flat_map_take_append(to_one, index - 1);
                assert(effects_view(effects@) =~= before + order.take(index as int).flat_map(
                    to_one,
                ));
            }
        }
        assert(order.take(count as int) =~= order);
    }

    /// Tells every client in turn one response.
    fn tell_all(&self, response: Response, effects: &mut Vec<Effect>)
        ensures
            effects_view(final(effects)@) == effects_view(old(effects)@) + self@.tell_all(
                response@,
            ),
    {
        let responses: Vec<Response> = vec![response];
        assert(responses_view(responses@) =~= seq![response@]);
        self.broadcast(&responses, effects);
    }

    /// How many clients take part in the game.
    pub(crate) fn player_count(&self) -> (count: usize)
        ensures
            count == self@.players().len(),
            self@.players().finite(),
    {
        let ghost keys = self.client_states.keys();
        let ghost plays = |name: Name| self@.clients[name].is_player();
        let len = self.client_states.len();
        let mut count: usize = 0;
        let mut index: usize = 0;
        proof {
            reveal(Seq::filter);
            assert(keys.take(0) =~= seq![]);
        }
        while index < len
            invariant
                count <= index <= len,
                len == self.client_states.keys().len(),
                keys == self.client_states.keys(),
                plays == (|name: Name| self@.clients[name].is_player()),
                count == keys.take(index as int).filter(plays).len(),
            decreases len - index,
        {
            proof {
                reveal(Seq::filter);
                assert(keys.take(index + 1).drop_last() =~= keys.take(index as int));
            }
            if self.client_states.value_at(index).is_player() {
                count = count + 1;
            }
            index = index + 1;
        }
        proof {
            assert(keys.take(len as int) =~= keys);
            lemma_filter_count(keys, plays);
            assert(self@.players() =~= keys.to_set().filter(plays));
        }
        count
    }

    /// Ends the fight when one player is left in the running.
    fn settle(&mut self, effects: &mut Vec<Effect>)
        requires
            old(self)@.can_settle(),
        ensures
            final(self)@ == old(self)@.settle().game,
            effects_view(final(effects)@) == effects_view(old(effects)@)
                + old(self)@.settle().effects,
    {
        let ghost before = effects_view(effects@);
        if self.ready_players.len() <= 1 {
            let winner = self.ready_players.at(0).clone();
            let word = match self.client_states.get(&winner) {
                Some(client) => client.get_word(),
                None => Some("".to_owned()),
            };
            self.tell_all(Response::GameWin { winner, word: word.unwrap() }, effects);
            add_effect(effects, Effect::CancelTimer);
            assert(effects_view(effects@) =~= before + self@.settle().effects);
            self.renew_inherit_clients();
        } else {
            assert(effects_view(effects@) =~= before + self@.settle().effects);
        }
    }

    /// Ends the vote when every player has voted.
    fn tally(&mut self, effects: &mut Vec<Effect>)
        ensures
            final(self)@ == old(self)@.tally().game,
            effects_view(final(effects)@) == effects_view(old(effects)@)
                + old(self)@.tally().effects,
    {
        let ghost before = effects_view(effects@);
        let ghost step = self@.tally();
        let player_count = self.player_count();
        let (agree_count, objection_count): (usize, usize) = match &self.voting_session {
            Some(voting) => (voting.agreed.len(), voting.objection.len()),
            None => {
                assert(effects_view(effects@) =~= before + step.effects);
                return ;
            },
        };
        if player_count >= agree_count && player_count - agree_count == objection_count {
            if agree_count > objection_count {
                self.tell_all(Response::VoteAbortResult { abort: true }, effects);
                self.renew_inherit_clients();
                add_effect(effects, Effect::CancelTimer);
            } else {
                self.tell_all(Response::VoteAbortResult { abort: false }, effects);
                self.voting_session = None;
            }
        }
        assert(effects_view(effects@) =~= before + step.effects);
    }

    /// Adds a line of chat.
    fn say(&mut self, sender: String, content: String)
        ensures
            final(self)@ == old(self)@.said(sender@, content@),
    {
        let ghost before = self.message_history@;
        self.message_history.push((sender, content));
        assert(lines_view(self.message_history@) =~= lines_view(before).push(
            (sender@, content@),
        ));
    }

    /// Puts a player out of the running.
    fn put_out(&mut self, name: &String)
        requires
            old(self)@.clients.contains_key(name@),
        ensures
            final(self)@ == old(self)@.with_out(name@),
    {
        let mut client = self.client_states.get(name).unwrap().clone();
        client.set_out();
        let ghost before = self@;
        self.client_states.insert(name.clone(), client);
        self.ready_players.remove(name);
        assert(self@ =~= before.with_out(name@));
    }

    /// A session asks for a name. It gets every line of chat so far and the
    /// states of all clients, and everybody hears of it; but a name that is
    /// taken is refused. A session that has a name already is told so.
    pub fn login(&mut self, session: &mut Session, name: String) -> (effects: Vec<Effect>)
        ensures
            final(self)@ == old(self)@.login(old(session)@, name@).game,
            effects_view(effects@) == old(self)@.login(old(session)@, name@).effects,
            final(session)@.id == old(session)@.id,
            final(session)@.name == old(self)@.name_after_login(old(session)@, name@),
    {
        let ghost before = self@;
        let ghost asker = session@;
        let mut effects: Vec<Effect> = Vec::new();
        if session.name.is_some() {
            session.reply(
                Response::LoginResult { excuse: Some("您已经加入过了".to_owned()) },
                &mut effects,
            );
        }
        if self.connections.contains_key(&name) {
            session.reply(
                Response::LoginResult { excuse: Some("该名称已占用".to_owned()) },
                &mut effects,
            );
        } else {
            session.reply(Response::LoginResult { excuse: None }, &mut effects);
            self.connections.insert(name.clone(), session.id);
            let client_state = match self.state {
                GameState::Joining => ClientState::Player(PlayerState::Alive, None),
                GameState::Assigning | GameState::Fighting => ClientState::Spectator,
            };
            self.client_states.insert(name.clone(), client_state);
            assert(self@ =~= before.joined(asker.id, name@));
            session.reply(
                Response::MessageHistory { history: copy_lines(&self.message_history) },
                &mut effects,
            );
            session.reply(
                Response::Overview {
                    clients: self.client_states.replicate(),
                    game_state: self.state,
                },
                &mut effects,
            );
            self.tell_all(Response::PlayerJoin { name: name.clone() }, &mut effects);
            session.name = Some(name);
        }
        assert(effects_view(effects@) =~= before.login(asker, name@).effects);
        effects
    }

    /// A client says something to everybody. A player in the running who says
    /// the own forbidden word in a fight is out.
    pub fn send(&mut self, name: &String, message: String) -> (effects: Vec<Effect>)
        requires
            old(self)@.can_send(name@, message@),
        ensures
            final(self)@ == old(self)@.send(name@, message@).game,
            effects_view(effects@) == old(self)@.send(name@, message@).effects,
    {
        let ghost before = self@;
        let ghost step = self@.send(name@, message@);
        let mut effects: Vec<Effect> = Vec::new();
        self.tell_all(
            Response::MessageFrom { sender: name.clone(), content: message.clone() },
            &mut effects,
        );
        assert(effects_view(effects@) =~= before.tell_all(
            ResponseView::MessageFrom { sender: name@, content: message@ },
        ));
        self.say(name.clone(), message.clone());
        if self.state == GameState::Fighting {
            let spoken: Option<String> = match self.client_states.get(name).unwrap() {
                ClientState::Player(PlayerState::Alive, Some(word)) => {
                    if contains(&message, word) {
                        Some(word.clone())
                    } else {
                        None
                    }
                },
                _ => None,
            };
            if let Some(word) = spoken {
                self.put_out(name);
                let notice = spoken_notice(name, &word);
                self.say("".to_owned(), notice.clone());
                let ghost game = self@;
                assert(game =~= before.after_giving_away(name@, message@));
                add_effect(&mut effects, Effect::RestartTimer);
                let news: Vec<Response> = vec![
                    Response::PlayerOut { quitter: name.clone(), word, suicide: false },
                    Response::MessageFrom { sender: "".to_owned(), content: notice },
                    Response::TimerReset { timer: TIMEOUT_SECS },
                ];
                let ghost told = seq![
                    ResponseView::PlayerOut { quitter: name@, word: word@, suicide: false },
                    ResponseView::MessageFrom { sender: ""@, content: notice@ },
                    ResponseView::TimerReset { timer: TIMEOUT_SECS },
                ];
                assert(responses_view(news@) =~= told);
                self.broadcast(&news, &mut effects);
                self.settle(&mut effects);
                assert(effects_view(effects@) =~= step.effects);
            }
        }
        effects
    }

    /// A client gives up; a player in the running is out.
    pub fn suicide(&mut self, name: &String) -> (effects: Vec<Effect>)
        requires
            old(self)@.can_suicide(name@),
        ensures
            final(self)@ == old(self)@.suicide(name@).game,
            effects_view(effects@) == old(self)@.suicide(name@).effects,
    {
        let ghost before = self@;
        let ghost step = self@.suicide(name@);
        let mut effects: Vec<Effect> = Vec::new();
        if self.state == GameState::Fighting {
            let mut client = self.client_states.get(name).unwrap().clone();
            let word = match client.get_word() {
                Some(word) => word,
                None => String::new(),
            };
            let killed = client.set_out();
            if killed {
                let notice = suicide_notice(name);
                self.put_out(name);
                self.say("".to_owned(), notice.clone());
                let ghost game = self@;
                assert(game =~= before.after_suicide(name@));
                let news: Vec<Response> = vec![
                    Response::PlayerOut { quitter: name.clone(), word, suicide: true },
                    Response::MessageFrom { sender: "".to_owned(), content: notice },
                    Response::TimerReset { timer: TIMEOUT_SECS },
                ];
                let ghost told = seq![
                    ResponseView::PlayerOut {
                        quitter: name@,
                        word: before.clients[name@].word()->0,
                        suicide: true,
                    },
                    ResponseView::MessageFrom { sender: ""@, content: notice@ },
                    ResponseView::TimerReset { timer: TIMEOUT_SECS },
                ];
                self.broadcast(&news, &mut effects);
                proof {
                    if game.order.len() == 0 {
                        lemma_nobody_told(game, responses_view(news@), told);
                    } else {
                        assert(responses_view(news@) =~= told);
                    }
                }
                add_effect(&mut effects, Effect::RestartTimer);
                self.settle(&mut effects);
            }
        }
        assert(effects_view(effects@) =~= step.effects);
        effects
    }

    /// A player asks to abort the game, and so begins a vote and agrees.
    pub fn request_abort(&mut self, name: &String) -> (effects: Vec<Effect>)
        requires
            old(self)@.can_request_abort(name@),
        ensures
            final(self)@ == old(self)@.request_abort(name@).game,
            effects_view(effects@) == old(self)@.request_abort(name@).effects,
    {
        let ghost before = self@;
        let mut effects: Vec<Effect> = Vec::new();
        if self.state != GameState::Joining && self.client_states.get(name).unwrap().is_player()
            && self.voting_session.is_none() {
            let news: Vec<Response> = vec![
                Response::StartVoteAbort,
                Response::VotedAbort { abort: true, voter: name.clone() },
            ];
            assert(responses_view(news@) =~= seq![
                ResponseView::StartVoteAbort,
                ResponseView::VotedAbort { abort: true, voter: name@ },
            ]);
            self.broadcast(&news, &mut effects);
            let mut agreed = NameSet::new();
            agreed.insert(name.clone());
            let voting = VotingSession { agreed, objection: NameSet::new() };
            assert(voting@.agreed =~= set![name@]);
            assert(voting@.objection =~= set![]);
            self.voting_session = Some(voting);
        }
        assert(effects_view(effects@) =~= before.request_abort(name@).effects);
        effects
    }

    /// A player votes on whether to abort the game. Everybody hears of every
    /// ballot, but only the first one of a player counts.
    pub fn vote_abort(&mut self, name: &String, abort: bool) -> (effects: Vec<Effect>)
        requires
            old(self)@.can_vote_abort(name@),
        ensures
            final(self)@ == old(self)@.vote_abort(name@, abort).game,
            effects_view(effects@) == old(self)@.vote_abort(name@, abort).effects,
    {
        let ghost before = self@;
        let mut effects: Vec<Effect> = Vec::new();
        if self.client_states.get(name).unwrap().is_player() {
            if let Some(mut voting) = self.voting_session.take() {
                if !voting.agreed.contains(name) && !voting.objection.contains(name) {
                    if abort {
                        voting.agreed.insert(name.clone());
                    } else {
                        voting.objection.insert(name.clone());
                    }
                }
                self.voting_session = Some(voting);
                assert(self@ =~= (GameView {
                    voting: Some(before.voting->0.cast(name@, abort)),
                    ..before
                }));
                self.tell_all(Response::VotedAbort { abort, voter: name.clone() }, &mut effects);
                self.tally(&mut effects);
            }
        }
        assert(effects_view(effects@) =~= before.vote_abort(name@, abort).effects);
        effects
    }

    /// A player picks the forbidden word of the one it is to pick for. A word
    /// of nothing but white space is refused.
    pub fn assign_word(&mut self, session: &Session, name: &String, word: String) -> (effects: Vec<
        Effect,
    >)
        ensures
            final(self)@ == old(self)@.assign_word(session@, name@, word@).game,
            effects_view(effects@) == old(self)@.assign_word(session@, name@, word@).effects,
    {
        let ghost before = self@;
        let ghost step = self@.assign_word(session@, name@, word@);
        let mut effects: Vec<Effect> = Vec::new();
        if self.state == GameState::Assigning {
            if is_blank(&word) {
                session.reply(
                    Response::AssignResult { excuse: Some("该词被禁止".to_owned()) },
                    &mut effects,
                );
            } else if let Some(assignee) = self.assignment_map.get(name) {
                let assignee = assignee.clone();
                if let Some(client_state) = self.client_states.get(&assignee) {
                    let mut client_state = client_state.clone();
                    client_state.set_word(word);
                    self.client_states.insert(assignee, client_state);
                    session.reply(Response::AssignResult { excuse: None }, &mut effects);
                } else {
                    session.reply(
                        Response::AssignResult { excuse: Some("指定对象已经无效".to_owned()) },
                        &mut effects,
                    );
                }
            }
        }
        assert(effects_view(effects@) =~= step.effects);
        assert(self@ =~= step.game);
        effects
    }

    /// Begins the picking of words: everybody in the ring `order` picks for
    /// the one behind, and is told so.
    pub fn start_assigning(&mut self, order: &Vec<String>) -> (effects: Vec<Effect>)
        ensures
            final(self)@ == old(self)@.start_assigning(names_view(order@)).game,
            effects_view(effects@) == old(self)@.start_assigning(names_view(order@)).effects,
    {
        let ghost before = self@;
        let ghost names = names_view(order@);
        let ghost told = |index: int| before.assign_start(names, index);
        let mut effects: Vec<Effect> = Vec::new();
        self.state = GameState::Assigning;
        self.ready_players = NameSet::new();
        let count = order.len();
        let mut index: usize = 0;
        assert(effects_view(effects@) =~= Seq::new(0, told).flatten());
        while index < count
            invariant
                index <= count,
                count == order@.len(),
                names == names_view(order@),
                told == (|index: int| before.assign_start(names, index)),
                self@ == (GameView {
                    state: GameState::Assigning,
                    ready: seq![],
                    assignment: ring(before.assignment, names, index as nat),
                    ..before
                }),
                effects_view(effects@) == Seq::new(index as nat, told).flatten(),
            decreases count - index,
        {
            proof {
                vstd::arithmetic::div_mod::lemma_mod_bound(index + 1, count as int);
            }
            let name = &order[index];
            let assignee = &order[(index + 1) % count];
            assert(names[index as int] == name@);
            assert(next_in_ring(names, index as int) == assignee@);
            let ghost earlier = effects_view(effects@);
            self.assignment_map.insert(name.clone(), assignee.clone());
            if let Some(to) = self.connections.get(name) {
                add_effect(
                    &mut effects,
                    Effect::Send {
                        to: *to,
                        response: Response::AssignStart { assignee: assignee.clone() },
                    },
                );
            }
            proof {
                assert(effects_view(effects@) =~= earlier + told(index as int));
                assert(Seq::new((index + 1) as nat, told) =~= Seq::new(index as nat, told).push(
                    told(index as int),
                ));
                Seq::new(index as nat, told).lemma_flatten_push(told(index as int));
            }
            index = index + 1;
        }
        assert(Seq::new(count as nat, told) =~= Seq::new(
            names.len(),
            |index: int| before.assign_start(names, index),
        ));
        effects
    }

    /// The forbidden words that a player may see: those of the others.
    fn words_for(&self, player: &String) -> (words: NameMap<String>)
        requires
            forall|name: Name|
                #[trigger] self@.clients.contains_key(name) && self@.clients[name].is_player()
                    && name != player@ ==> self@.clients[name].word() is Some,
        ensures
            words@ == self@.words_for(player@),
    {
        let mut words: NameMap<String> = NameMap::new();
        let count = self.client_states.len();
        let mut index: usize = 0;
        while index < count
            invariant
                index <= count,
                count == self.client_states.keys().len(),
                self.client_states.keys().to_set() == self@.clients.dom(),
                forall|name: Name|
                    #[trigger] self@.clients.contains_key(name) && self@.clients[name].is_player()
                        && name != player@ ==> self@.clients[name].word() is Some,
                forall|name: Name| #[trigger]
                    words@.contains_key(name) ==> self@.words_for(player@).contains_key(name)
                        && words@[name] == self@.words_for(player@)[name],
                forall|i: int|
                    0 <= i < index && self@.words_for(player@).contains_key(
                        #[trigger] self.client_states.keys()[i],
                    ) ==> words@.contains_key(self.client_states.keys()[i]),
            decreases count - index,
        {
            let name = self.client_states.key_at(index);
            let client = self.client_states.value_at(index);
            if client.is_player() && *name != *player {
                words.insert(name.clone(), client.get_word().unwrap());
            }
            index = index + 1;
        }
        proof {
            assert forall|name: Name| self@.words_for(player@).contains_key(name) implies
                words@.contains_key(name) by {
                assert(self.client_states.keys().to_set().contains(name));
                assert(self.client_states.keys().contains(name));
                let i = choose|i: int|
                    0 <= i < count && self.client_states.keys()[i] == name;
                assert(words@.contains_key(self.client_states.keys()[i]));
            }
            assert(words@ =~= self@.words_for(player@));
        }
        words
    }

    /// Begins the fight: every player is told the words of the others.
    fn start_fighting(&mut self, effects: &mut Vec<Effect>)
        requires
            old(self)@.words_known(),
        ensures
            final(self)@ == old(self)@.start_fighting().game,
            effects_view(final(effects)@) == effects_view(old(effects)@)
                + old(self)@.start_fighting().effects,
    {
        let ghost before = effects_view(effects@);
        let ghost game = self@;
        let ghost step = self@.start_fighting();
        let ghost told = |player: Name| game.game_start(player);
        let count = self.ready_players.len();
        let mut index: usize = 0;
        assert(effects_view(effects@) =~= before + game.ready.take(0).flat_map(told));
        while index < count
            invariant
                index <= count,
                count == game.ready.len(),
                self@ == game,
                game.words_known(),
                told == (|player: Name| game.game_start(player)),
                effects_view(effects@) == before + game.ready.take(index as int).flat_map(told),
            decreases count - index,
        {
            let player = self.ready_players.at(index);
            let ghost earlier = effects_view(effects@);
            assert(game.ready.contains(player@));
            if let Some(to) = self.connections.get(player) {
                let assigned = self.words_for(player);
                add_effect(
                    effects,
                    Effect::Send { to: *to, response: Response::GameStart { assigned } },
                );
                add_effect(
                    effects,
                    Effect::Send {
                        to: *to,
                        response: Response::TimerReset { timer: TIMEOUT_SECS },
                    },
                );
            }
            index = index + 1;
            proof {
                assert(effects_view(effects@) =~= earlier + told(player@));
                game.ready.lemma_flat_map_take_append(told, index - 1);
                assert(effects_view(effects@) =~= before + game.ready.take(index as int).flat_map(
                    told,
                ));
            }
        }
        assert(game.ready.take(count as int) =~= game.ready);
        self.state = GameState::Fighting;
        add_effect(effects, Effect::RestartTimer);
        assert(effects_view(effects@) =~= before + step.effects);
    }

    /// The names of all clients.
    fn client_names(&self) -> (names: Vec<String>)
        ensures
            names_view(names@) == self.client_states.keys(),
    {
        let mut names: Vec<String> = Vec::new();
        let count = self.client_states.len();
        let mut index: usize = 0;
        while index < count
            invariant
                index <= count,
                count == self.client_states.keys().len(),
                names_view(names@) == self.client_states.keys().take(index as int),
            decreases count - index,
        {
            let ghost earlier = names@;
            names.push(self.client_states.key_at(index).clone());
            index = index + 1;
            assert(names_view(names@) =~= names_view(earlier).push(
                self.client_states.keys()[index - 1],
            ));
            assert(names_view(names@) =~= self.client_states.keys().take(index as int));
        }
        assert(names_view(names@) =~= self.client_states.keys());
        names
    }

    /// A client declares itself ready. Once all are ready, and at least two,
    /// words are picked in a ring of all clients that is left to chance; once
    /// all have picked and are ready, the fight begins.
    pub fn set_ready(&mut self, session: &Session, name: &String) -> (effects: Vec<Effect>)
        requires
            old(self)@.can_set_ready(name@),
        ensures
            exists|order: Seq<Name>| #[trigger]
                old(self)@.is_ring(order) && final(self)@ == old(self)@.set_ready(
                    session@,
                    name@,
                    order,
                ).game && effects_view(effects@) == old(self)@.set_ready(
                    session@,
                    name@,
                    order,
                ).effects,
    {
        let ghost before = self@;
        let ghost mut order: Seq<Name> = self.client_states.keys();
        let mut effects: Vec<Effect> = Vec::new();
        let client_count = self.client_states.len();
        assert(before.is_ring(order));
        match self.state {
            GameState::Joining => {
                if self.ready_players.insert(name.clone()) {
                    assert(self@ =~= before.with_ready(name@));
                    session.reply(Response::ReadyResult { excuse: None }, &mut effects);
                    self.tell_all(Response::PlayerReady { name: name.clone() }, &mut effects);
                    if self.ready_players.len() == client_count && self.ready_players.len() > 1 {
                        let mut names = self.client_names();
                        shuffle(&mut names);
                        proof {
                            lemma_reordered(order, names_view(names@));
                            order = names_view(names@);
                        }
                        let mut start = self.start_assigning(&names);
                        let ghost told = effects@;
                        let ghost started = start@;
                        effects.append(&mut start);
                        assert(effects_view(effects@) =~= effects_view(told) + effects_view(
                            started,
                        ));
                    }
                } else {
                    session.reply(
                        Response::ReadyResult { excuse: Some("您已经准备过了".to_owned()) },
                        &mut effects,
                    );
                }
            },
            GameState::Assigning => {
                if let Some(assignee) = self.assignment_map.get(name) {
                    let picked = match self.client_states.get(assignee) {
                        Some(client) => client.word_set(),
                        None => false,
                    };
                    if picked {
                        if self.ready_players.insert(name.clone()) {
                            assert(self@ =~= before.with_ready(name@));
                            session.reply(Response::ReadyResult { excuse: None }, &mut effects);
                            self.tell_all(
                                Response::PlayerReady { name: name.clone() },
                                &mut effects,
                            );
                            if self.ready_players.len() == self.player_count() {
                                self.start_fighting(&mut effects);
                            }
                        } else {
                            session.reply(
                                Response::ReadyResult {
                                    excuse: Some("您已经准备过了".to_owned()),
                                },
                                &mut effects,
                            );
                        }
                    } else {
                        session.reply(
                            Response::ReadyResult { excuse: Some("您还未指定词语".to_owned()) },
                            &mut effects,
                        );
                    }
                }
            },
            GameState::Fighting => (),
        }
        proof {
            let step = before.set_ready(session@, name@, order);
            assert(effects_view(effects@) =~= step.effects);
            assert(self@ =~= step.game);
            assert(before.is_ring(order));
        }
        effects
    }

    /// A client is no longer ready.
    pub fn cancel_ready(&mut self, session: &Session, name: &String) -> (effects: Vec<Effect>)
        ensures
            final(self)@ == old(self)@.cancel_ready(session@, name@).game,
            effects_view(effects@) == old(self)@.cancel_ready(session@, name@).effects,
    {
        let ghost step = self@.cancel_ready(session@, name@);
        let mut effects: Vec<Effect> = Vec::new();
        session.reply(Response::ReadyResult { excuse: None }, &mut effects);
        if self.ready_players.remove(name) {
            self.tell_all(Response::PlayerNotReady { name: name.clone() }, &mut effects);
        }
        assert(effects_view(effects@) =~= step.effects);
        effects
    }

    /// A client leaves. Its ballot and its readiness go with it, which may end
    /// a vote or a fight; while words are picked, the game ends when nobody is
    /// left to pick the word of somebody.
    pub fn leave(&mut self, name: &String) -> (effects: Vec<Effect>)
        requires
            old(self)@.can_leave(name@),
        ensures
            final(self)@ == old(self)@.leave(name@).game,
            effects_view(effects@) == old(self)@.leave(name@).effects,
    {
        let ghost before = self@;
        let ghost step = self@.leave(name@);
        let mut effects: Vec<Effect> = Vec::new();
        let client_state = self.client_states.remove(name).unwrap();
        self.connections.remove(name);
        self.ready_players.remove(name);
        if let Some(mut voting) = self.voting_session.take() {
            voting.agreed.remove(name);
            voting.objection.remove(name);
            self.voting_session = Some(voting);
        }
        assert(self@ =~= before.removed(name@));
        self.tally(&mut effects);
        assert(effects_view(effects@) =~= before.removed(name@).tally().effects);
        let mut news: Vec<Response> = Vec::new();
        if self.state == GameState::Fighting {
            if let ClientState::Player(PlayerState::Alive, Some(word)) = &client_state {
                let notice = quit_notice(name);
                self.say("".to_owned(), notice.clone());
                news.push(
                    Response::PlayerOut {
                        quitter: name.clone(),
                        word: word.clone(),
                        suicide: false,
                    },
                );
                news.push(Response::MessageFrom { sender: "".to_owned(), content: notice });
            }
        }
        news.push(Response::PlayerQuit { name: name.clone() });
        let ghost game = self@;
        assert(game =~= before.after_leaving(name@));
        let ghost told = if before.removed(name@).tally().game.deserts(client_state@) {
            seq![
                ResponseView::PlayerOut {
                    quitter: name@,
                    word: client_state@.word()->0,
                    suicide: false,
                },
                ResponseView::MessageFrom { sender: ""@, content: quit_text(name@) },
                ResponseView::PlayerQuit { name: name@ },
            ]
        } else {
            seq![ResponseView::PlayerQuit { name: name@ }]
        };
        assert(responses_view(news@) =~= told);
        self.broadcast(&news, &mut effects);
        if self.state == GameState::Fighting {
            self.settle(&mut effects);
        } else if self.state == GameState::Assigning {
            if client_state.is_player() {
                let stuck = match self.assignment_map.get(name) {
                    Some(assignee) => match self.client_states.get(assignee) {
                        Some(assignee) => assignee.get_word().is_none(),
                        None => false,
                    },
                    None => false,
                };
                if stuck {
                    self.tell_all(Response::GameEndUnproceedable, &mut effects);
                    self.renew_inherit_clients();
                    add_effect(&mut effects, Effect::CancelTimer);
                }
            }
        }
        assert(effects_view(effects@) =~= step.effects);
        effects
    }

    /// The timer of a session has run out: the game ends without a winner.
    pub fn time_out(&mut self) -> (effects: Vec<Effect>)
        ensures
            final(self)@ == old(self)@.time_out().game,
            effects_view(effects@) == old(self)@.time_out().effects,
    {
        let ghost step = self@.time_out();
        let mut effects: Vec<Effect> = Vec::new();
        self.tell_all(Response::GameEndTimeout, &mut effects);
        self.renew_inherit_clients();
        assert(effects_view(effects@) =~= step.effects);
        effects
    }
}

/// Counting the names that meet a condition counts the set of them.
proof fn lemma_filter_count(names: Seq<Name>, condition: spec_fn(Name) -> bool)
    requires
        names.no_duplicates(),
    ensures
        names.filter(condition).len() == names.to_set().filter(condition).len(),
        names.to_set().filter(condition).finite(),
    decreases names.len(),
{
    reveal(Seq::filter);
    broadcast use vstd::set::group_set_axioms;

    if names.len() == 0 {
        assert(names.to_set().filter(condition) =~= Set::empty());
    } else {
        let rest = names.drop_last();
        let last = names.last();
        lemma_filter_count(rest, condition);
        assert(names =~= rest.push(last));
        rest.lemma_push_to_set_commute(last);
        assert(!rest.contains(last));
        if condition(last) {
            assert(names.to_set().filter(condition) =~= rest.to_set().filter(condition).insert(
                last,
            ));
        } else {
            assert(names.to_set().filter(condition) =~= rest.to_set().filter(condition));
        }
    }
}

/// Where there is nobody, it does not matter what everybody is told.
proof fn lemma_nobody_told(game: GameView, one: Seq<ResponseView>, other: Seq<ResponseView>)
    requires
        game.order.len() == 0,
    ensures
        game.broadcast(one) == game.broadcast(other),
{
    let told_one = game.order.map_values(
        |name: Name| deliveries(game.connections[name], one),
    );
    let told_other = game.order.map_values(
        |name: Name| deliveries(game.connections[name], other),
    );
    assert(told_one =~= told_other);
}

} // verus!
