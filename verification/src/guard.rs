//! Telling beforehand whether a request can be carried out.
//!
//! A few requests have no outcome in some games: a fight that would end
//! without anybody in the running has no winner to announce, and a fight
//! cannot begin while a word that must be shown has not been picked. Whoever
//! drives a game asks here first.
use crate::game::{Game, Session};
use crate::names::{without, Name};
use crate::protocol::{Actions, ClientState, GameState, PlayerState};
use crate::text::contains;
use vstd::prelude::*;

verus! {

impl Game {
    /// Whether the fight goes on without a player, or has a winner then whose
    /// word can be shown.
    fn can_settle_without(&self, name: &String) -> (can: bool)
        ensures
            can == {
                let rest = without(self@.ready, name@);
                rest.len() <= 1 ==> rest.len() == 1 && self@.winner_word(rest[0]) is Some
            },
    {
        let ghost ready = self@.ready;
        let mut others: usize = 0;
        let mut first: usize = 0;
        let count = self.ready_players.len();
        let mut index: usize = 0;
        proof {
            reveal(Seq::filter);
            assert(ready.take(0) =~= seq![]);
        }
        while index < count
            invariant
                others <= index <= count,
                ready == self@.ready,
                count == ready.len(),
                others == without(ready.take(index as int), name@).len(),
                others > 0 ==> first < count && ready[first as int] == without(
                    ready.take(index as int),
                    name@,
                )[0],
            decreases count - index,
        {
            proof {
                reveal(Seq::filter);
                assert(ready.take(index + 1).drop_last() =~= ready.take(index as int));
            }
            if *self.ready_players.at(index) != *name {
                if others == 0 {
                    first = index;
                }
                others = others + 1;
            }
            index = index + 1;
        }
        assert(ready.take(count as int) =~= ready);
        if others > 1 {
            true
        } else if others == 0 {
            false
        } else {
            match self.client_states.get(self.ready_players.at(first)) {
                Some(client) => client.word_set(),
                None => true,
            }
        }
    }

    /// Whether a client can say something.
    pub fn can_send(&self, name: &String, message: &String) -> (can: bool)
        ensures
            can == self@.can_send(name@, message@),
    {
        if self.state != GameState::Fighting {
            return true;
        }
        let given_away = match self.client_states.get(name) {
            Some(ClientState::Player(PlayerState::Alive, Some(word))) => contains(message, word),
            Some(_) => false,
            None => {
                return false;
            },
        };
        proof {
            lemma_without_others(self@.ready, name@);
        }
        !given_away || self.can_settle_without(name)
    }

    /// Whether a client can give up.
    pub fn can_suicide(&self, name: &String) -> (can: bool)
        ensures
            can == self@.can_suicide(name@),
    {
        if self.state != GameState::Fighting {
            return true;
        }
        proof {
            lemma_without_others(self@.ready, name@);
        }
        match self.client_states.get(name) {
            Some(ClientState::Player(PlayerState::Alive, word)) => (word.is_some()
                || self.connections.len() == 0) && self.can_settle_without(name),
            Some(_) => true,
            None => false,
        }
    }

    /// Whether a client can ask to abort the game.
    pub fn can_request_abort(&self, name: &String) -> (can: bool)
        ensures
            can == self@.can_request_abort(name@),
    {
        self.state == GameState::Joining || self.client_states.contains_key(name)
    }

    /// Whether a client can vote.
    pub fn can_vote_abort(&self, name: &String) -> (can: bool)
        ensures
            can == self@.can_vote_abort(name@),
    {
        self.client_states.contains_key(name)
    }

    /// Whether every player but one has a forbidden word.
    fn others_have_words(&self, player: &String) -> (known: bool)
        ensures
            known == forall|name: Name|
                #[trigger] self@.clients.contains_key(name) && self@.clients[name].is_player()
                    && name != player@ ==> self@.clients[name].word() is Some,
    {
        let count = self.client_states.len();
        let mut index: usize = 0;
        while index < count
            invariant
                index <= count,
                count == self.client_states.keys().len(),
                self.client_states.keys().to_set() == self@.clients.dom(),
                forall|i: int|
                    0 <= i < index ==> {
                        let name = #[trigger] self.client_states.keys()[i];
                        self@.clients[name].is_player() && name != player@
                            ==> self@.clients[name].word() is Some
                    },
            decreases count - index,
        {
            let client = self.client_states.value_at(index);
            let name = self.client_states.key_at(index);
            if client.is_player() && *name != *player && !client.word_set() {
                return false;
            }
            index = index + 1;
        }
        proof {
            assert forall|name: Name|
                #[trigger] self@.clients.contains_key(name) && self@.clients[name].is_player()
                    && name != player@ implies self@.clients[name].word() is Some by {
                assert(self.client_states.keys().to_set().contains(name));
                assert(self.client_states.keys().contains(name));
                let i = choose|i: int|
                    0 <= i < count && self.client_states.keys()[i] == name;
                assert(self.client_states.keys()[i] == name);
            }
        }
        true
    }

    /// Whether a client can declare itself ready.
    pub fn can_set_ready(&self, name: &String) -> (can: bool)
        ensures
            can == self@.can_set_ready(name@),
    {
        if self.state != GameState::Assigning || self.ready_players.contains(name) {
            return true;
        }
        let picked = match self.assignment_map.get(name) {
            Some(assignee) => match self.client_states.get(assignee) {
                Some(client) => client.word_set(),
                None => false,
            },
            None => false,
        };
        let ghost game = self@.with_ready(name@);
        let player_count = self.player_count();
        assert(game.players() =~= self@.players());
        let count = self.ready_players.len();
        if !picked || player_count == 0 || count != player_count - 1 {
            return true;
        }
        assert(game.ready.last() == name@);
        assert(game.ready.contains(name@));
        if self.connections.contains_key(name) && !self.others_have_words(name) {
            return false;
        }
        let mut index: usize = 0;
        #[verifier::loop_isolation(false)]
        while index < count
            invariant
                index <= count,
                count == self@.ready.len(),
                game == self@.with_ready(name@),
                forall|i: int, other: Name|
                    #![trigger self@.ready[i], self@.clients.contains_key(other)]
                    0 <= i < index && self@.connections.contains_key(self@.ready[i])
                        && self@.clients.contains_key(other) && self@.clients[other].is_player()
                        && other != self@.ready[i] ==> self@.clients[other].word() is Some,
            decreases count - index,
        {
            let player = self.ready_players.at(index);
            assert(game.ready[index as int] == player@);
            assert(game.ready.contains(player@));
            if self.connections.contains_key(player) && !self.others_have_words(player) {
                return false;
            }
            index = index + 1;
        }
        proof {
            assert forall|player: Name, other: Name|
                #![trigger game.ready.contains(player), game.clients.contains_key(other)]
                game.ready.contains(player) && game.connections.contains_key(player)
                    && game.clients.contains_key(other) && game.clients[other].is_player() && other
                    != player implies game.clients[other].word() is Some by {
                let i = choose|i: int| 0 <= i < game.ready.len() && game.ready[i] == player;
                if i < count {
                    assert(self@.ready[i] == player);
                }
            }
        }
        true
    }

    /// Whether the vote aborts the game when a client leaves.
    fn leaving_aborts(&self, name: &String) -> (aborts: bool)
        requires
            self@.clients.contains_key(name@),
        ensures
            aborts == {
                let game = self@.removed(name@);
                game.voting is Some && game.players().len() == game.voting->0.ballots()
                    && game.voting->0.agreed.len() > game.voting->0.objection.len()
            },
    {
        let ghost game = self@.removed(name@);
        let player_count = self.player_count();
        let plays = self.client_states.get(name).unwrap().is_player();
        proof {
            if plays {
                assert(game.players() =~= self@.players().remove(name@));
                assert(self@.players().contains(name@));
                assert(player_count > 0) by {
                    vstd::set_lib::lemma_set_empty_equivalency_len(self@.players());
                }
            } else {
                assert(game.players() =~= self@.players());
            }
        }
        let players: usize = if plays { player_count - 1 } else { player_count };
        match &self.voting_session {
            Some(voting) => {
                let ghost agreed = voting@.agreed;
                let ghost objection = voting@.objection;
                let agree_len = voting.agreed.len();
                let objection_len = voting.objection.len();
                proof {
                    vstd::seq_lib::seq_to_set_is_finite(voting.agreed@);
                    vstd::seq_lib::seq_to_set_is_finite(voting.objection@);
                    vstd::set_lib::lemma_set_empty_equivalency_len(agreed);
                    vstd::set_lib::lemma_set_empty_equivalency_len(objection);
                }
                let agree_count: usize = if voting.agreed.contains(name) {
                    agree_len - 1
                } else {
                    assert(agreed.remove(name@) =~= agreed);
                    agree_len
                };
                let objection_count: usize = if voting.objection.contains(name) {
                    objection_len - 1
                } else {
                    assert(objection.remove(name@) =~= objection);
                    objection_len
                };
                agree_count > objection_count && players >= agree_count && players - agree_count
                    == objection_count
            },
            None => false,
        }
    }

    /// Whether a client can leave.
    pub fn can_leave(&self, name: &String) -> (can: bool)
        ensures
            can == self@.can_leave(name@),
    {
        if !self.client_states.contains_key(name) {
            return false;
        }
        if self.state != GameState::Fighting || self.leaving_aborts(name) {
            return true;
        }
        proof {
            lemma_without_others(self@.ready, name@);
        }
        self.can_settle_without(name)
    }

    /// Whether a request of a session can be carried out.
    pub fn can_act(&self, session: &Session, action: &Actions) -> (can: bool)
        ensures
            can == self@.can_act(session@, action@),
    {
        match &session.name {
            None => true,
            Some(name) => match action {
                Actions::Send(message) => self.can_send(name, message),
                Actions::Suicide => self.can_suicide(name),
                Actions::RequestAbort => self.can_request_abort(name),
                Actions::VoteAbort { abort: _ } => self.can_vote_abort(name),
                Actions::SetReady => self.can_set_ready(name),
                _ => true,
            },
        }
    }
}

/// None of the other names is the one left out.
proof fn lemma_without_others(names: Seq<Name>, name: Name)
    ensures
        forall|i: int| 0 <= i < without(names, name).len() ==> without(names, name)[i] != name,
{
    broadcast use vstd::seq_lib::group_filter_ensures;

}

} // verus!
