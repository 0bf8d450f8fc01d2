//! One connection to the server: what is done with what comes in over it, and
//! what happens when it ends.
use crate::game::{effects_view, Effect, Game, Session};
use crate::model::{GameView, SessionView};
use crate::names::Name;
use crate::protocol::{copy_text, Actions, ActionsView};
use vstd::prelude::*;

verus! {

/// What can go wrong when the next message is awaited.
#[derive(Clone, Copy, Debug, PartialEq, Eq, Structural)]
pub enum TransportError {
    ConnectionClosed,
    AlreadyClosed,
    Io,
    AttackAttempt,
    Other,
}

/// What comes in over a connection.
#[derive(Debug)]
pub enum Incoming {
    /// A request.
    Action(Actions),
    /// A message that is not a request.
    Unrecognised,
    /// No message, but an error.
    Failed(TransportError),
}

/// What an `Incoming` is in contracts.
pub enum IncomingView {
    Action(ActionsView),
    Unrecognised,
    Failed(TransportError),
}

impl View for Incoming {
    type V = IncomingView;

    open spec fn view(&self) -> IncomingView {
        match *self {
            Incoming::Action(action) => IncomingView::Action(action@),
            Incoming::Unrecognised => IncomingView::Unrecognised,
            Incoming::Failed(error) => IncomingView::Failed(error),
        }
    }
}

impl IncomingView {
    /// Whether the connection can be used no more.
    pub open spec fn is_fatal(self) -> bool {
        match self {
            IncomingView::Failed(error) => error != TransportError::Other,
            _ => false,
        }
    }
}

/// What is done with what comes in.
#[derive(Debug)]
pub struct Outcome {
    /// Whether the session goes on.
    pub keep_open: bool,
    pub effects: Vec<Effect>,
}

/// Whether what comes in can be dealt with.
pub open spec fn can_process(game: GameView, session: SessionView, message: IncomingView) -> bool {
    match message {
        IncomingView::Action(action) => game.can_act(session, action),
        _ => true,
    }
}

/// Whether what comes in can be dealt with.
pub fn is_processable(game: &Game, session: &Session, message: &Incoming) -> (can: bool)
    ensures
        can == can_process(game@, session@, message@),
{
    match message {
        Incoming::Action(action) => game.can_act(session, action),
        _ => true,
    }
}

/// Deals with what comes in over the connection of a session. Requests change
/// the game; everything but a login is ignored until the session has a name.
/// The session ends only when its connection is lost.
pub fn process_message(game: &mut Game, session: &mut Session, message: Incoming) -> (outcome:
    Outcome)
    requires
        can_process(old(game)@, old(session)@, message@),
    ensures
        old(game)@.orderly(),
        final(game)@.orderly(),
        outcome.keep_open == !message@.is_fatal(),
        match message@ {
            IncomingView::Action(action) => {
                &&& final(session)@ == old(game)@.session_after(old(session)@, action)
                &&& exists|order: Seq<Name>| #[trigger]
                    old(game)@.is_ring(order) && final(game)@ == old(game)@.act(
                        old(session)@,
                        action,
                        order,
                    ).game && effects_view(outcome.effects@) == old(game)@.act(
                        old(session)@,
                        action,
                        order,
                    ).effects
            },
            _ => {
                &&& final(session)@ == old(session)@
                &&& final(game)@ == old(game)@
                &&& outcome.effects@.len() == 0
            },
        },
{
    proof {
        use_type_invariant(&game.client_states);
        game.client_states.lemma_keys();
        assert(game@.is_ring(game.client_states.keys()));
        use_type_invariant(&game.connections);
        game.connections.lemma_keys();
        use_type_invariant(&game.ready_players);
        game.ready_players.lemma_names();
    }
    let outcome = match message {
        Incoming::Action(action) => {
            let effects = match (action, copy_text(&session.name)) {
                (Actions::Login { name }, _) => game.login(session, name),
                (_, None) => Vec::new(),
                (Actions::Send(message), Some(name)) => game.send(&name, message),
                (Actions::Suicide, Some(name)) => game.suicide(&name),
                (Actions::RequestAbort, Some(name)) => game.request_abort(&name),
                (Actions::VoteAbort { abort }, Some(name)) => game.vote_abort(&name, abort),
                (Actions::AssignWord { word }, Some(name)) => game.assign_word(
                    session,
                    &name,
                    word,
                ),
                (Actions::SetReady, Some(name)) => game.set_ready(session, &name),
                (Actions::CancelReady, Some(name)) => game.cancel_ready(session, &name),
            };
            Outcome { keep_open: true, effects }
        },
        Incoming::Unrecognised => Outcome { keep_open: true, effects: Vec::new() },
        Incoming::Failed(error) => Outcome {
            keep_open: match error {
                TransportError::ConnectionClosed
                | TransportError::AlreadyClosed
                | TransportError::Io
                | TransportError::AttackAttempt => false,
                TransportError::Other => true,
            },
            effects: Vec::new(),
        },
    };
    proof {
        use_type_invariant(&game.connections);
        game.connections.lemma_keys();
        use_type_invariant(&game.ready_players);
        game.ready_players.lemma_names();
    }
    outcome
}

/// Whether a session can end.
pub open spec fn can_close(game: GameView, session: SessionView) -> bool {
    match session.name {
        Some(name) => game.can_leave(name),
        None => true,
    }
}

/// Whether a session can end.
pub fn is_closable(game: &Game, session: &Session) -> (can: bool)
    ensures
        can == can_close(game@, session@),
{
    match &session.name {
        Some(name) => game.can_leave(name),
        None => true,
    }
}

/// Ends a session: its client, if it has one, leaves the game.
pub fn close_session(game: &mut Game, session: &Session) -> (effects: Vec<Effect>)
    requires
        can_close(old(game)@, session@),
    ensures
        old(game)@.orderly(),
        final(game)@.orderly(),
        match session@.name {
            Some(name) => {
                &&& final(game)@ == old(game)@.leave(name).game
                &&& effects_view(effects@) == old(game)@.leave(name).effects
            },
            None => final(game)@ == old(game)@ && effects@.len() == 0,
        },
{
    proof {
        use_type_invariant(&game.connections);
        game.connections.lemma_keys();
        use_type_invariant(&game.ready_players);
        game.ready_players.lemma_names();
    }
    let effects = match &session.name {
        Some(name) => game.leave(name),
        None => Vec::new(),
    };
    proof {
        use_type_invariant(&game.connections);
        game.connections.lemma_keys();
        use_type_invariant(&game.ready_players);
        game.ready_players.lemma_names();
    }
    effects
}

} // verus!
