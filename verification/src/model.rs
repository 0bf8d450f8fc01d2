//! The rules of the game as mathematics: what each request does to the game
//! and what is sent because of it.
use crate::names::{without, Name};
use crate::protocol::{ActionsView, ClientStateView, GameState, PlayerState, ResponseView};
use crate::text::{is_blank_text, occurs, quit_text, spoken_text, suicide_text};
use vstd::prelude::*;

verus! {

/// How many seconds a fight may go on without anybody going out.
pub const TIMEOUT_SECS: u64 = 600;

/// A vote on whether to abort the game.
#[verifier::ext_equal]
pub struct VotingView {
    pub agreed: Set<Name>,
    pub objection: Set<Name>,
}

impl VotingView {
    /// Whether a player has voted.
    pub open spec fn has_voted(self, name: Name) -> bool {
        self.agreed.contains(name) || self.objection.contains(name)
    }

    /// The vote after a ballot; a second ballot of a player does not count.
    pub open spec fn cast(self, name: Name, abort: bool) -> VotingView {
        if self.has_voted(name) {
            self
        } else if abort {
            VotingView { agreed: self.agreed.insert(name), ..self }
        } else {
            VotingView { objection: self.objection.insert(name), ..self }
        }
    }

    /// The vote without the ballot of a player.
    pub open spec fn without_voter(self, name: Name) -> VotingView {
        VotingView { agreed: self.agreed.remove(name), objection: self.objection.remove(name) }
    }

    /// How many ballots there are.
    pub open spec fn ballots(self) -> nat {
        self.agreed.len() + self.objection.len()
    }
}

/// Something the server does for a session.
pub enum EffectView {
    /// Sends a response over a connection.
    Send { to: u64, response: ResponseView },
    /// Stops the timer of the session, if it runs, and starts it afresh.
    RestartTimer,
    /// Stops the timer of the session, if it runs.
    CancelTimer,
}

/// The responses, one after the other, over one connection.
pub open spec fn deliveries(to: u64, responses: Seq<ResponseView>) -> Seq<EffectView> {
    responses.map_values(|response: ResponseView| EffectView::Send { to, response })
}

/// A client at the other end of a connection; it has a name once it has
/// logged in.
pub struct SessionView {
    pub id: u64,
    pub name: Option<Name>,
}

impl SessionView {
    /// A response to the session itself.
    pub open spec fn reply(self, response: ResponseView) -> Seq<EffectView> {
        seq![EffectView::Send { to: self.id, response }]
    }
}

/// The game.
#[verifier::ext_equal]
pub struct GameView {
    pub state: GameState,
    /// The connection of every name that is logged in.
    pub connections: Map<Name, u64>,
    /// The names that are logged in, in the order in which they are told
    /// things.
    pub order: Seq<Name>,
    pub clients: Map<Name, ClientStateView>,
    /// Who is ready; in a fight, who is in the running.
    pub ready: Seq<Name>,
    /// Whose forbidden word each player picks.
    pub assignment: Map<Name, Name>,
    pub history: Seq<(Name, Seq<char>)>,
    pub voting: Option<VotingView>,
}

/// What a request leads to: the game after it and what the server does.
#[verifier::ext_equal]
pub struct StepView {
    pub game: GameView,
    pub effects: Seq<EffectView>,
}

/// A player in the running, without a forbidden word.
pub open spec fn fresh_player() -> ClientStateView {
    ClientStateView::Player(PlayerState::Alive, None)
}

/// What each name of `order` picks a word for: the name behind it, and the
/// first one for the last; earlier entries of `map` stay.
pub open spec fn ring(map: Map<Name, Name>, order: Seq<Name>, count: nat) -> Map<Name, Name>
    decreases count,
{
    if count == 0 {
        map
    } else {
        ring(map, order, (count - 1) as nat).insert(order[count - 1], next_in_ring(order, count - 1))
    }
}

/// The name behind the one at `index`, where the first is behind the last.
pub open spec fn next_in_ring(order: Seq<Name>, index: int) -> Name {
    order[(index + 1) % (order.len() as int)]
}

impl GameView {
    /// The game before anybody has come.
    pub open spec fn initial() -> GameView {
        GameView {
            state: GameState::Joining,
            connections: Map::empty(),
            order: seq![],
            clients: Map::empty(),
            ready: seq![],
            assignment: Map::empty(),
            history: seq![],
            voting: None,
        }
    }

    /// The responses, one after the other, to every client in turn.
    pub open spec fn broadcast(self, responses: Seq<ResponseView>) -> Seq<EffectView> {
        self.order.flat_map(|name: Name| deliveries(self.connections[name], responses))
    }

    /// One response to every client in turn.
    pub open spec fn tell_all(self, response: ResponseView) -> Seq<EffectView> {
        self.broadcast(seq![response])
    }

    /// Nothing happens.
    pub open spec fn unchanged(self) -> StepView {
        StepView { game: self, effects: seq![] }
    }

    /// The game only answers.
    pub open spec fn answers(self, effects: Seq<EffectView>) -> StepView {
        StepView { game: self, effects }
    }

    /// The clients that take part in the game.
    pub open spec fn players(self) -> Set<Name> {
        self.clients.dom().filter(|name: Name| self.clients[name].is_player())
    }

    /// The game from the start, with the same clients, all of them players.
    pub open spec fn renewed(self) -> GameView {
        GameView {
            state: GameState::Joining,
            clients: self.clients.map_values(|client: ClientStateView| fresh_player()),
            ready: seq![],
            assignment: Map::empty(),
            history: seq![],
            voting: None,
            ..self
        }
    }

    /// The forbidden word that is shown of a winner; nothing of one who left.
    pub open spec fn winner_word(self, winner: Name) -> Option<Seq<char>> {
        if self.clients.contains_key(winner) {
            self.clients[winner].word()
        } else {
            Some(""@)
        }
    }

    /// Whether the fight goes on, or has a winner whose word can be shown.
    pub open spec fn can_settle(self) -> bool {
        self.ready.len() <= 1 ==> self.ready.len() == 1 && self.winner_word(self.ready[0]) is Some
    }

    /// Ends the fight when one player is left in the running.
    pub open spec fn settle(self) -> StepView {
        if self.ready.len() <= 1 {
            let winner = self.ready[0];
            StepView {
                game: self.renewed(),
                effects: self.tell_all(
                    ResponseView::GameWin { winner, word: self.winner_word(winner)->0 },
                ).push(EffectView::CancelTimer),
            }
        } else {
            self.unchanged()
        }
    }

    /// Ends the vote when every player has voted; the game is aborted when
    /// more agree than object.
    pub open spec fn tally(self) -> StepView {
        match self.voting {
            None => self.unchanged(),
            Some(voting) => if self.players().len() != voting.ballots() {
                self.unchanged()
            } else if voting.agreed.len() > voting.objection.len() {
                StepView {
                    game: self.renewed(),
                    effects: self.tell_all(ResponseView::VoteAbortResult { abort: true }).push(
                        EffectView::CancelTimer,
                    ),
                }
            } else {
                StepView {
                    game: GameView { voting: None, ..self },
                    effects: self.tell_all(ResponseView::VoteAbortResult { abort: false }),
                }
            },
        }
    }

    /// The part a client gets who comes now.
    pub open spec fn newcomer(self) -> ClientStateView {
        match self.state {
            GameState::Joining => fresh_player(),
            _ => ClientStateView::Spectator,
        }
    }

    /// The game with one more client.
    pub open spec fn joined(self, id: u64, name: Name) -> GameView {
        GameView {
            connections: self.connections.insert(name, id),
            order: self.order.push(name),
            clients: self.clients.insert(name, self.newcomer()),
            ..self
        }
    }

    /// A session that has a name already is told so, but may take another one.
    pub open spec fn login(self, session: SessionView, name: Name) -> StepView {
        let reminder = if session.name is Some {
            session.reply(ResponseView::LoginResult { excuse: Some("您已经加入过了"@) })
        } else {
            seq![]
        };
        if self.connections.contains_key(name) {
            self.answers(
                reminder + session.reply(
                    ResponseView::LoginResult { excuse: Some("该名称已占用"@) },
                ),
            )
        } else {
            let game = self.joined(session.id, name);
            StepView {
                game,
                effects: reminder + session.reply(ResponseView::LoginResult { excuse: None })
                    + session.reply(ResponseView::MessageHistory { history: game.history })
                    + session.reply(
                    ResponseView::Overview { clients: game.clients, game_state: game.state },
                ) + game.tell_all(ResponseView::PlayerJoin { name }),
            }
        }
    }

    /// The name of a session after it has asked for `name`.
    pub open spec fn name_after_login(self, session: SessionView, name: Name) -> Option<Name> {
        if self.connections.contains_key(name) {
            session.name
        } else {
            Some(name)
        }
    }

    /// The game with one more line of chat.
    pub open spec fn said(self, sender: Name, content: Seq<char>) -> GameView {
        GameView { history: self.history.push((sender, content)), ..self }
    }

    /// The game with a player out of the running.
    pub open spec fn with_out(self, name: Name) -> GameView {
        GameView {
            clients: self.clients.insert(name, self.clients[name].out()),
            ready: without(self.ready, name),
            ..self
        }
    }

    /// Whether a player in the running says the own forbidden word.
    pub open spec fn gives_away(self, name: Name, message: Seq<char>) -> bool {
        &&& self.state == GameState::Fighting
        &&& self.clients[name].is_alive()
        &&& self.clients[name].word() matches Some(word) && occurs(word, message)
    }

    /// The game after a player has said the own forbidden word.
    pub open spec fn after_giving_away(self, name: Name, message: Seq<char>) -> GameView {
        self.said(name, message).with_out(name).said(
            ""@,
            spoken_text(name, self.clients[name].word()->0),
        )
    }

    /// A client says something to everybody; a player in the running who says
    /// the own forbidden word in a fight is out.
    pub open spec fn send(self, name: Name, message: Seq<char>) -> StepView {
        let heard = self.tell_all(ResponseView::MessageFrom { sender: name, content: message });
        if self.gives_away(name, message) {
            let word = self.clients[name].word()->0;
            let game = self.after_giving_away(name, message);
            let end = game.settle();
            StepView {
                game: end.game,
                effects: heard.push(EffectView::RestartTimer) + game.broadcast(
                    seq![
                        ResponseView::PlayerOut { quitter: name, word, suicide: false },
                        ResponseView::MessageFrom {
                            sender: ""@,
                            content: spoken_text(name, word),
                        },
                        ResponseView::TimerReset { timer: TIMEOUT_SECS },
                    ],
                ) + end.effects,
            }
        } else {
            StepView { game: self.said(name, message), effects: heard }
        }
    }

    /// What `send` needs: in a fight the sender is a client, and if the fight
    /// ends with this message, it ends with a winner.
    pub open spec fn can_send(self, name: Name, message: Seq<char>) -> bool {
        self.state == GameState::Fighting ==> {
            &&& self.clients.contains_key(name)
            &&& self.gives_away(name, message) ==> self.after_giving_away(
                name,
                message,
            ).can_settle()
        }
    }

    /// The game after a player has given up.
    pub open spec fn after_suicide(self, name: Name) -> GameView {
        self.with_out(name).said(""@, suicide_text(name))
    }

    /// A client gives up; a player in the running is out.
    pub open spec fn suicide(self, name: Name) -> StepView {
        if self.state == GameState::Fighting && self.clients[name].is_alive() {
            let game = self.after_suicide(name);
            let end = game.settle();
            StepView {
                game: end.game,
                effects: game.broadcast(
                    seq![
                        ResponseView::PlayerOut {
                            quitter: name,
                            word: self.clients[name].word()->0,
                            suicide: true,
                        },
                        ResponseView::MessageFrom { sender: ""@, content: suicide_text(name) },
                        ResponseView::TimerReset { timer: TIMEOUT_SECS },
                    ],
                ).push(EffectView::RestartTimer) + end.effects,
            }
        } else {
            self.unchanged()
        }
    }

    /// What `suicide` needs: in a fight the session is a client; one in the
    /// running has a word to show to the others, and if the fight ends, it
    /// ends with a winner.
    pub open spec fn can_suicide(self, name: Name) -> bool {
        self.state == GameState::Fighting ==> {
            &&& self.clients.contains_key(name)
            &&& self.clients[name].is_alive() ==> {
                &&& self.order.len() > 0 ==> self.clients[name].word() is Some
                &&& self.after_suicide(name).can_settle()
            }
        }
    }

    /// A player asks to abort the game, and so begins a vote and agrees.
    pub open spec fn request_abort(self, name: Name) -> StepView {
        if self.state != GameState::Joining && self.clients[name].is_player() && self.voting
            is None {
            StepView {
                game: GameView {
                    voting: Some(VotingView { agreed: set![name], objection: set![] }),
                    ..self
                },
                effects: self.broadcast(
                    seq![
                        ResponseView::StartVoteAbort,
                        ResponseView::VotedAbort { abort: true, voter: name },
                    ],
                ),
            }
        } else {
            self.unchanged()
        }
    }

    /// What `request_abort` needs: once the game is on, the session is a
    /// client.
    pub open spec fn can_request_abort(self, name: Name) -> bool {
        self.state != GameState::Joining ==> self.clients.contains_key(name)
    }

    /// A player votes; everybody hears of every ballot, counted or not.
    pub open spec fn vote_abort(self, name: Name, abort: bool) -> StepView {
        if self.clients[name].is_player() && self.voting is Some {
            let end = GameView { voting: Some(self.voting->0.cast(name, abort)), ..self }.tally();
            StepView {
                game: end.game,
                effects: self.tell_all(ResponseView::VotedAbort { abort, voter: name })
                    + end.effects,
            }
        } else {
            self.unchanged()
        }
    }

    /// What `vote_abort` needs: the session is a client.
    pub open spec fn can_vote_abort(self, name: Name) -> bool {
        self.clients.contains_key(name)
    }

    /// A player picks the forbidden word of the one it is to pick for.
    pub open spec fn assign_word(
        self,
        session: SessionView,
        name: Name,
        word: Seq<char>,
    ) -> StepView {
        if self.state != GameState::Assigning {
            self.unchanged()
        } else if is_blank_text(word) {
            self.answers(
                session.reply(ResponseView::AssignResult { excuse: Some("该词被禁止"@) }),
            )
        } else if !self.assignment.contains_key(name) {
            self.unchanged()
        } else if !self.clients.contains_key(self.assignment[name]) {
            self.answers(
                session.reply(ResponseView::AssignResult { excuse: Some("指定对象已经无效"@) }),
            )
        } else {
            let assignee = self.assignment[name];
            StepView {
                game: GameView {
                    clients: self.clients.insert(assignee, self.clients[assignee].with_word(word)),
                    ..self
                },
                effects: session.reply(ResponseView::AssignResult { excuse: None }),
            }
        }
    }

    /// The game with one more client ready.
    pub open spec fn with_ready(self, name: Name) -> GameView {
        GameView { ready: self.ready.push(name), ..self }
    }

    /// A client is told whose word it picks, if it is connected.
    pub open spec fn assign_start(self, order: Seq<Name>, index: int) -> Seq<EffectView> {
        if self.connections.contains_key(order[index]) {
            seq![
                EffectView::Send {
                    to: self.connections[order[index]],
                    response: ResponseView::AssignStart { assignee: next_in_ring(order, index) },
                },
            ]
        } else {
            seq![]
        }
    }

    /// The picking of words begins, with the players in the ring `order`.
    pub open spec fn start_assigning(self, order: Seq<Name>) -> StepView {
        StepView {
            game: GameView {
                state: GameState::Assigning,
                ready: seq![],
                assignment: ring(self.assignment, order, order.len()),
                ..self
            },
            effects: Seq::new(order.len(), |index: int| self.assign_start(order, index)).flatten(),
        }
    }

    /// The forbidden words that a player may see: those of the others.
    pub open spec fn words_for(self, player: Name) -> Map<Name, Seq<char>> {
        Map::new(
            |name: Name| self.players().contains(name) && name != player,
            |name: Name| self.clients[name].word()->0,
        )
    }

    /// Whether the words that every player may see have all been picked.
    pub open spec fn words_known(self) -> bool {
        forall|player: Name, name: Name|
            #![trigger self.ready.contains(player), self.clients.contains_key(name)]
            self.ready.contains(player) && self.connections.contains_key(player)
                && self.clients.contains_key(name) && self.clients[name].is_player() && name
                != player ==> self.clients[name].word() is Some
    }

    /// A player is told that the fight begins, if it is connected.
    pub open spec fn game_start(self, player: Name) -> Seq<EffectView> {
        if self.connections.contains_key(player) {
            deliveries(
                self.connections[player],
                seq![
                    ResponseView::GameStart { assigned: self.words_for(player) },
                    ResponseView::TimerReset { timer: TIMEOUT_SECS },
                ],
            )
        } else {
            seq![]
        }
    }

    /// The fight begins.
    pub open spec fn start_fighting(self) -> StepView {
        StepView {
            game: GameView { state: GameState::Fighting, ..self },
            effects: self.ready.flat_map(|player: Name| self.game_start(player)).push(
                EffectView::RestartTimer,
            ),
        }
    }

    /// Whether the word that a player picks has been picked.
    pub open spec fn has_picked(self, name: Name) -> bool {
        let assignee = self.assignment[name];
        self.clients.contains_key(assignee) && self.clients[assignee].word() is Some
    }

    /// A client declares itself ready. `order` is the ring in which words are
    /// picked if everybody is ready now.
    pub open spec fn set_ready(
        self,
        session: SessionView,
        name: Name,
        order: Seq<Name>,
    ) -> StepView {
        let game = self.with_ready(name);
        let told = session.reply(ResponseView::ReadyResult { excuse: None }) + self.tell_all(
            ResponseView::PlayerReady { name },
        );
        let again = session.reply(
            ResponseView::ReadyResult { excuse: Some("您已经准备过了"@) },
        );
        match self.state {
            GameState::Joining => if self.ready.contains(name) {
                self.answers(again)
            } else if game.ready.len() == game.clients.len() && game.ready.len() > 1 {
                let start = game.start_assigning(order);
                StepView { game: start.game, effects: told + start.effects }
            } else {
                game.answers(told)
            },
            GameState::Assigning => if !self.assignment.contains_key(name) {
                self.unchanged()
            } else if !self.has_picked(name) {
                self.answers(
                    session.reply(ResponseView::ReadyResult { excuse: Some("您还未指定词语"@) }),
                )
            } else if self.ready.contains(name) {
                self.answers(again)
            } else if game.ready.len() == game.players().len() {
                let start = game.start_fighting();
                StepView { game: start.game, effects: told + start.effects }
            } else {
                game.answers(told)
            },
            GameState::Fighting => self.unchanged(),
        }
    }

    /// What `set_ready` needs: if the fight begins, everybody who sees the
    /// word of a player sees one.
    pub open spec fn can_set_ready(self, name: Name) -> bool {
        let game = self.with_ready(name);
        self.state == GameState::Assigning && self.assignment.contains_key(name)
            && self.has_picked(name) && !self.ready.contains(name) && game.ready.len()
            == game.players().len() ==> game.words_known()
    }

    /// A client is no longer ready.
    pub open spec fn cancel_ready(self, session: SessionView, name: Name) -> StepView {
        StepView {
            game: GameView { ready: without(self.ready, name), ..self },
            effects: session.reply(ResponseView::ReadyResult { excuse: None })
                + if self.ready.contains(name) {
                self.tell_all(ResponseView::PlayerNotReady { name })
            } else {
                seq![]
            },
        }
    }

    /// The game without a client.
    pub open spec fn removed(self, name: Name) -> GameView {
        GameView {
            connections: self.connections.remove(name),
            order: without(self.order, name),
            clients: self.clients.remove(name),
            ready: without(self.ready, name),
            voting: match self.voting {
                Some(voting) => Some(voting.without_voter(name)),
                None => None,
            },
            ..self
        }
    }

    /// Whether a client leaves a fight while it is in the running.
    pub open spec fn deserts(self, client: ClientStateView) -> bool {
        self.state == GameState::Fighting && client.is_alive() && client.word() is Some
    }

    /// The game after a client has left, before it is known whether it goes
    /// on.
    pub open spec fn after_leaving(self, name: Name) -> GameView {
        let game = self.removed(name).tally().game;
        if game.deserts(self.clients[name]) {
            game.said(""@, quit_text(name))
        } else {
            game
        }
    }

    /// Whether words can still be picked after a player has left: not if it
    /// leaves somebody without a word.
    pub open spec fn is_stuck(self, name: Name, client: ClientStateView) -> bool {
        &&& client.is_player()
        &&& self.assignment.contains_key(name)
        &&& self.clients.contains_key(self.assignment[name])
        &&& self.clients[self.assignment[name]].word() is None
    }

    /// Whether the game goes on after a client has left.
    pub open spec fn proceed(self, name: Name, client: ClientStateView) -> StepView {
        match self.state {
            GameState::Fighting => self.settle(),
            GameState::Assigning => if self.is_stuck(name, client) {
                StepView {
                    game: self.renewed(),
                    effects: self.tell_all(ResponseView::GameEndUnproceedable).push(
                        EffectView::CancelTimer,
                    ),
                }
            } else {
                self.unchanged()
            },
            GameState::Joining => self.unchanged(),
        }
    }

    /// A client leaves.
    pub open spec fn leave(self, name: Name) -> StepView {
        let client = self.clients[name];
        let vote = self.removed(name).tally();
        let game = self.after_leaving(name);
        let quit = ResponseView::PlayerQuit { name };
        let news = if vote.game.deserts(client) {
            seq![
                ResponseView::PlayerOut {
                    quitter: name,
                    word: client.word()->0,
                    suicide: false,
                },
                ResponseView::MessageFrom { sender: ""@, content: quit_text(name) },
                quit,
            ]
        } else {
            seq![quit]
        };
        let end = game.proceed(name, client);
        StepView {
            game: end.game,
            effects: vote.effects + game.broadcast(news) + end.effects,
        }
    }

    /// What `leave` needs: it is a client that leaves, and if the fight ends,
    /// it ends with a winner.
    pub open spec fn can_leave(self, name: Name) -> bool {
        &&& self.clients.contains_key(name)
        &&& self.after_leaving(name).state == GameState::Fighting ==> self.after_leaving(
            name,
        ).can_settle()
    }

    /// The timer has run out.
    pub open spec fn time_out(self) -> StepView {
        StepView {
            game: self.renewed(),
            effects: self.tell_all(ResponseView::GameEndTimeout),
        }
    }

    /// What a request leads to.
    pub open spec fn act(
        self,
        session: SessionView,
        action: ActionsView,
        order: Seq<Name>,
    ) -> StepView {
        match (action, session.name) {
            (ActionsView::Login { name }, _) => self.login(session, name),
            (_, None) => self.unchanged(),
            (ActionsView::Send(message), Some(name)) => self.send(name, message),
            (ActionsView::Suicide, Some(name)) => self.suicide(name),
            (ActionsView::RequestAbort, Some(name)) => self.request_abort(name),
            (ActionsView::VoteAbort { abort }, Some(name)) => self.vote_abort(name, abort),
            (ActionsView::AssignWord { word }, Some(name)) => self.assign_word(
                session,
                name,
                word,
            ),
            (ActionsView::SetReady, Some(name)) => self.set_ready(session, name, order),
            (ActionsView::CancelReady, Some(name)) => self.cancel_ready(session, name),
        }
    }

    /// Whether a request can be carried out.
    pub open spec fn can_act(self, session: SessionView, action: ActionsView) -> bool {
        match (action, session.name) {
            (ActionsView::Send(message), Some(name)) => self.can_send(name, message),
            (ActionsView::Suicide, Some(name)) => self.can_suicide(name),
            (ActionsView::RequestAbort, Some(name)) => self.can_request_abort(name),
            (ActionsView::VoteAbort { abort: _ }, Some(name)) => self.can_vote_abort(name),
            (ActionsView::SetReady, Some(name)) => self.can_set_ready(name),
            _ => true,
        }
    }

    /// The session after a request.
    pub open spec fn session_after(self, session: SessionView, action: ActionsView) -> SessionView {
        match action {
            ActionsView::Login { name } => SessionView {
                name: self.name_after_login(session, name),
                ..session
            },
            _ => session,
        }
    }

    /// Whether `order` lists every client once.
    pub open spec fn is_ring(self, order: Seq<Name>) -> bool {
        order.no_duplicates() && order.to_set() == self.clients.dom()
    }
}

} // verus!
