//! What always holds of the game, whatever is asked of it in which order.
use crate::model::{
    deliveries, fresh_player, next_in_ring, ring, EffectView, GameView, SessionView, VotingView,
    TIMEOUT_SECS,
};
use crate::names::{lemma_without_absent, without, Name};
use crate::protocol::{ActionsView, ClientStateView, GameState, ResponseView};
use crate::text::{is_blank_text, quit_text, spoken_text, suicide_text};
use vstd::prelude::*;

verus! {

/// Whether nobody is paired with itself and no two with the same one, and
/// whoever is picked for also picks.
pub open spec fn is_pairing(pairs: Map<Name, Name>) -> bool {
    &&& forall|name: Name| #[trigger]
        pairs.contains_key(name) ==> pairs.contains_key(pairs[name]) && pairs[name] != name
    &&& forall|one: Name, other: Name|
        #![trigger pairs[one], pairs[other]]
        pairs.contains_key(one) && pairs.contains_key(other) && pairs[one] == pairs[other] ==> one
            == other
}

impl VotingView {
    /// Whether nobody has voted twice, and only players have voted.
    pub open spec fn is_fair(self, players: Set<Name>) -> bool {
        &&& self.agreed.disjoint(self.objection)
        &&& self.agreed.subset_of(players)
        &&& self.objection.subset_of(players)
    }
}

impl GameView {
    /// What holds of every game that has begun with nobody in it.
    pub open spec fn valid(self) -> bool {
        // everybody who is connected is a client, and is told things once
        &&& self.order.no_duplicates()
        &&& self.order.to_set() == self.connections.dom()
        &&& self.connections.dom() == self.clients.dom()
        // only clients are ready
        &&& self.ready.no_duplicates()
        &&& forall|name: Name| #[trigger]
            self.ready.contains(name) ==> self.clients.contains_key(name)
        // no forbidden word is blank
        &&& forall|name: Name| #[trigger]
            self.clients.contains_key(name) ==> (self.clients[name].word() matches Some(word)
                ==> !is_blank_text(word))
        // everybody picks for somebody else
        &&& is_pairing(self.assignment)
        // while players gather, all clients are players without a word
        &&& self.state == GameState::Joining ==> {
            &&& forall|name: Name| #[trigger]
                self.clients.contains_key(name) ==> self.clients[name] == fresh_player()
            &&& self.assignment == Map::<Name, Name>::empty()
            &&& self.voting is None
        }
        &&& self.voting matches Some(voting) ==> voting.is_fair(self.players())
    }

    /// Whether the client of a session is in the game, connected to that
    /// session. A session without a name has no client.
    pub open spec fn knows(self, session: SessionView) -> bool {
        session.name matches Some(name) ==> {
            &&& self.clients.contains_key(name)
            &&& self.connections.contains_key(name)
            &&& self.connections[name] == session.id
        }
    }
}

/// The game before anybody has come is valid.
pub proof fn law_initial_is_valid()
    ensures
        GameView::initial().valid(),
{
    let game = GameView::initial();
    assert(game.order.to_set() =~= game.connections.dom());
    assert(game.connections.dom() =~= game.clients.dom());
}

/// Starting over keeps everybody connected and in the game, as players
/// without a word, and starting over twice is starting over once.
pub proof fn law_renewed(game: GameView)
    ensures
        game.renewed().clients.dom() == game.clients.dom(),
        game.renewed().connections == game.connections,
        game.renewed().order == game.order,
        game.renewed().state == GameState::Joining,
        game.renewed().renewed() == game.renewed(),
        game.renewed().players() == game.clients.dom(),
        game.valid() ==> game.renewed().valid(),
{
    let after = game.renewed();
    assert(after.clients.dom() =~= game.clients.dom());
    assert(after.renewed().clients =~= after.clients);
    assert(after.renewed() =~= after);
    assert(after.players() =~= game.clients.dom());
}

/// Any request that can be carried out keeps the game valid, keeps every
/// client in the game, and keeps every session connected to its client,
/// whether it made the request or not.
pub proof fn law_act_keeps_valid(
    game: GameView,
    session: SessionView,
    action: ActionsView,
    order: Seq<Name>,
    other: SessionView,
)
    requires
        game.valid(),
        game.knows(session),
        game.can_act(session, action),
        game.is_ring(order),
    ensures
        game.act(session, action, order).game.valid(),
        game.clients.dom().subset_of(game.act(session, action, order).game.clients.dom()),
        game.act(session, action, order).game.knows(game.session_after(session, action)),
        game.knows(other) ==> game.act(session, action, order).game.knows(other),
{
    let after = game.act(session, action, order).game;
    match (action, session.name) {
        (ActionsView::Login { name }, _) => {
            if !game.connections.contains_key(name) {
                lemma_joined(game, session.id, name);
            }
        },
        (_, None) => {},
        (ActionsView::Send(message), Some(name)) => {
            let said = game.said(name, message);
            if game.gives_away(name, message) {
                lemma_with_out(said, name);
                law_renewed(game.after_giving_away(name, message));
            }
        },
        (ActionsView::Suicide, Some(name)) => {
            if game.state == GameState::Fighting && game.clients[name].is_alive() {
                lemma_with_out(game, name);
                law_renewed(game.after_suicide(name));
            }
        },
        (ActionsView::RequestAbort, Some(name)) => {},
        (ActionsView::VoteAbort { abort }, Some(name)) => {
            if game.clients[name].is_player() && game.voting is Some {
                let voted = GameView { voting: Some(game.voting->0.cast(name, abort)), ..game };
                assert(voted.players() == game.players());
                assert(voted.valid());
                law_renewed(voted);
            }
        },
        (ActionsView::AssignWord { word }, Some(name)) => {
            assert(after.clients.dom() =~= game.clients.dom());
            assert(after.players() =~= game.players());
        },
        (ActionsView::SetReady, Some(name)) => {
            let ready = game.with_ready(name);
            if !game.ready.contains(name) {
                assert forall|one: Name| ready.ready.contains(one) implies
                    ready.clients.contains_key(one) by {
                    let i = choose|i: int| 0 <= i < ready.ready.len() && ready.ready[i] == one;
                    if i < game.ready.len() {
                        assert(game.ready[i] == one);
                        assert(game.ready.contains(one));
                    }
                }
                assert(ready.players() =~= game.players());
                assert(after.players() =~= game.players());
                if game.state == GameState::Joining {
                    order.unique_seq_to_set();
                    if ready.ready.len() == ready.clients.len() && ready.ready.len() > 1 {
                        lemma_ring(game.assignment, order, order.len());
                        lemma_ring_is_pairing(order);
                    }
                }
            }
        },
        (ActionsView::CancelReady, Some(name)) => {
            lemma_without(game.ready, name);
            assert(after.players() =~= game.players());
        },
    }
}

proof fn lemma_joined(game: GameView, id: u64, name: Name)
    requires
        game.valid(),
        !game.connections.contains_key(name),
    ensures
        game.joined(id, name).valid(),
{
    let after = game.joined(id, name);
    game.order.lemma_push_to_set_commute(name);
    assert(!game.order.to_set().contains(name));
    assert(!game.order.contains(name));
    assert(after.order.to_set() =~= after.connections.dom());
    assert(after.connections.dom() =~= after.clients.dom());
    assert(game.players().subset_of(after.players()));
}

proof fn lemma_with_out(game: GameView, name: Name)
    requires
        game.valid(),
        game.clients.contains_key(name),
        game.state == GameState::Fighting,
    ensures
        game.with_out(name).valid(),
        game.with_out(name).clients.dom() == game.clients.dom(),
{
    let after = game.with_out(name);
    lemma_without(game.ready, name);
    assert(after.clients.dom() =~= game.clients.dom());
    assert(after.players() =~= game.players());
}

/// What is left without a name.
pub(crate) proof fn lemma_without(names: Seq<Name>, name: Name)
    ensures
        names.no_duplicates() ==> without(names, name).no_duplicates(),
        forall|other: Name| #[trigger]
            without(names, name).contains(other) <==> names.contains(other) && other != name,
    decreases names.len(),
{
    reveal(Seq::filter);
    if names.len() > 0 {
        let rest = names.drop_last();
        let last = names.last();
        lemma_without(rest, name);
        assert(names =~= rest.push(last));
        assert forall|other: Name| names.contains(other) <==> rest.contains(other) || other
            == last by {
            if names.contains(other) {
                let i = choose|i: int| 0 <= i < names.len() && names[i] == other;
                if i < rest.len() {
                    assert(rest[i] == other);
                }
            }
            if rest.contains(other) {
                let i = choose|i: int| 0 <= i < rest.len() && rest[i] == other;
                assert(names[i] == other);
            }
            assert(names[names.len() - 1] == last);
        }
        if last != name {
            let left = without(rest, name);
            assert(without(names, name) == left.push(last));
            assert forall|other: Name| #[trigger]
                left.push(last).contains(other) <==> left.contains(other) || other == last by {
                if left.push(last).contains(other) {
                    let i = choose|i: int|
                        0 <= i < left.push(last).len() && left.push(last)[i] == other;
                    if i < left.len() {
                        assert(left[i] == other);
                    }
                }
                if left.contains(other) {
                    let i = choose|i: int| 0 <= i < left.len() && left[i] == other;
                    assert(left.push(last)[i] == other);
                }
                assert(left.push(last)[left.len() as int] == last);
            }
            if names.no_duplicates() {
                assert(!rest.contains(last));
                assert(!left.contains(last));
            }
        } else {
            assert(without(names, name) == without(rest, name));
        }
        assert forall|other: Name| #[trigger]
            without(names, name).contains(other) <==> names.contains(other) && other != name by {
            assert(without(rest, name).contains(other) <==> rest.contains(other) && other != name);
        }
    }
}

/// Every name of a ring without repetition picks for the one behind.
proof fn lemma_ring(map: Map<Name, Name>, order: Seq<Name>, count: nat)
    requires
        order.no_duplicates(),
        count <= order.len(),
    ensures
        forall|i: int|
            0 <= i < count ==> {
                &&& #[trigger] ring(map, order, count).contains_key(order[i])
                &&& ring(map, order, count)[order[i]] == next_in_ring(order, i)
            },
        forall|name: Name| #[trigger]
            ring(map, order, count).contains_key(name) ==> map.contains_key(name) || exists|i: int|
                0 <= i < count && #[trigger] order[i] == name,
    decreases count,
{
    if count > 0 {
        lemma_ring(map, order, (count - 1) as nat);
        assert forall|i: int| 0 <= i < count implies {
            &&& #[trigger] ring(map, order, count).contains_key(order[i])
            &&& ring(map, order, count)[order[i]] == next_in_ring(order, i)
        } by {
            if i < count - 1 {
                assert(ring(map, order, (count - 1) as nat).contains_key(order[i]));
                assert(order[i] != order[count - 1]);
            }
        }
        assert forall|name: Name| #[trigger]
            ring(map, order, count).contains_key(name) implies map.contains_key(name) || exists|
            i: int,
        |
            0 <= i < count && #[trigger] order[i] == name by {
            if name == order[count - 1] {
            } else {
                assert(ring(map, order, (count - 1) as nat).contains_key(name));
            }
        }
    }
}

/// The place behind a place in a ring.
proof fn lemma_next(len: int, i: int)
    requires
        0 <= i < len,
    ensures
        (i + 1) % len == if i + 1 == len {
            0
        } else {
            i + 1
        },
{
    if i + 1 == len {
        vstd::arithmetic::div_mod::lemma_mod_self_0(len);
    } else {
        vstd::arithmetic::div_mod::lemma_small_mod((i + 1) as nat, len as nat);
    }
}

proof fn lemma_ring_is_pairing(order: Seq<Name>)
    requires
        order.no_duplicates(),
        order.len() > 1,
    ensures
        is_pairing(ring(Map::empty(), order, order.len())),
        ring(Map::empty(), order, order.len()).dom() == order.to_set(),
{
    let pairs = ring(Map::empty(), order, order.len());
    lemma_ring(Map::empty(), order, order.len());
    assert forall|name: Name| #[trigger] pairs.contains_key(name) implies pairs.contains_key(
        pairs[name],
    ) && pairs[name] != name by {
        let i = choose|i: int| 0 <= i < order.len() && order[i] == name;
        lemma_next(order.len() as int, i);
        assert(pairs.contains_key(order[(i + 1) % (order.len() as int)]));
    }
    assert forall|one: Name, other: Name|
        #![trigger pairs[one], pairs[other]]
        pairs.contains_key(one) && pairs.contains_key(other) && pairs[one]
            == pairs[other] implies one == other by {
        let i = choose|i: int| 0 <= i < order.len() && order[i] == one;
        let j = choose|j: int| 0 <= j < order.len() && order[j] == other;
        lemma_next(order.len() as int, i);
        lemma_next(order.len() as int, j);
    }
    assert forall|name: Name| order.to_set().contains(name) implies pairs.contains_key(name) by {
        let i = choose|i: int| 0 <= i < order.len() && order[i] == name;
        assert(pairs.contains_key(order[i]));
    }
    assert(pairs.dom() =~= order.to_set());
}

proof fn lemma_removed(game: GameView, name: Name)
    requires
        game.valid(),
        game.clients.contains_key(name),
    ensures
        game.removed(name).valid(),
        game.removed(name).players() == game.players().remove(name),
{
    let removed = game.removed(name);
    lemma_without(game.order, name);
    lemma_without(game.ready, name);
    assert(removed.order.to_set() =~= removed.connections.dom()) by {
        assert forall|one: Name| removed.order.to_set().contains(one)
            == removed.connections.dom().contains(one) by {
            assert(removed.order.contains(one) <==> game.order.contains(one) && one != name);
            assert(game.order.to_set().contains(one) == game.connections.dom().contains(one));
        }
    }
    assert(removed.connections.dom() =~= removed.clients.dom());
    assert(removed.players() =~= game.players().remove(name));
    assert(removed.valid());
}

/// Leaving, if it can be done, keeps the game valid, takes exactly one client
/// out of it, and keeps every other session connected to its client.
pub proof fn law_leave_keeps_valid(game: GameView, session: SessionView, other: SessionView)
    requires
        game.valid(),
        game.knows(session),
        session.name is Some,
        game.can_leave(session.name->0),
    ensures
        game.leave(session.name->0).game.valid(),
        game.leave(session.name->0).game.clients.dom() == game.clients.dom().remove(
            session.name->0,
        ),
        game.leave(session.name->0).game.connections == game.connections.remove(session.name->0),
        game.knows(other) && other.id != session.id ==> game.leave(session.name->0).game.knows(
            other,
        ),
{
    let name = session.name->0;
    let removed = game.removed(name);
    lemma_removed(game, name);
    law_renewed(removed);
    assert((GameView { voting: None, ..removed }).players() =~= removed.players());
    let voted = removed.tally().game;
    assert(voted.valid());
    assert(voted.clients.dom() =~= game.clients.dom().remove(name));
    let after = game.after_leaving(name);
    assert(after.players() =~= voted.players());
    assert(after.valid());
    law_renewed(after);
}

/// When the timer runs out, everybody stays, and the game begins again.
pub proof fn law_time_out_keeps_valid(game: GameView, session: SessionView)
    requires
        game.valid(),
    ensures
        game.time_out().game.valid(),
        game.time_out().game.state == GameState::Joining,
        game.time_out().game.clients.dom() == game.clients.dom(),
        game.knows(session) ==> game.time_out().game.knows(session),
{
    law_renewed(game);
}

/// A name belongs to one session at a time: asking for one that is taken
/// changes nothing, and is answered with an excuse.
pub proof fn law_names_are_unique(game: GameView, session: SessionView, name: Name)
    requires
        game.valid(),
        game.clients.contains_key(name),
    ensures
        game.login(session, name).game == game,
        game.name_after_login(session, name) == session.name,
        game.login(session, name).effects.last() == (EffectView::Send {
            to: session.id,
            response: ResponseView::LoginResult { excuse: Some("该名称已占用"@) },
        }),
{
}

/// A name that is free is given, for a player while players gather, for a
/// spectator later on; nobody else is touched by it.
pub proof fn law_login(game: GameView, session: SessionView, name: Name)
    requires
        game.valid(),
        !game.clients.contains_key(name),
    ensures
        game.login(session, name).game.knows(
            SessionView { name: game.name_after_login(session, name), ..session },
        ),
        game.name_after_login(session, name) == Some(name),
        game.login(session, name).game.clients[name].is_player() == (game.state
            == GameState::Joining),
        game.login(session, name).game.clients.remove(name) == game.clients,
        game.login(session, name).game.ready == game.ready,
        game.login(session, name).game.voting == game.voting,
{
    assert(game.login(session, name).game.clients.remove(name) =~= game.clients);
}

/// What is said is kept: whoever logs in next reads every line so far, the
/// last one included, and behind it the notice if the sender gave the own word
/// away. Only when that ended the fight is there nothing to read, since the
/// game has started over.
pub proof fn law_newcomers_read_the_chat(
    game: GameView,
    sender: Name,
    message: Seq<char>,
    session: SessionView,
    name: Name,
)
    requires
        game.valid(),
        !game.clients.contains_key(name),
    ensures
        ({
            let after = game.send(sender, message).game;
            let said = game.history.push((sender, message));
            let history = if after.state != game.state {
                seq![]
            } else if game.gives_away(sender, message) {
                said.push((""@, spoken_text(sender, game.clients[sender].word()->0)))
            } else {
                said
            };
            after.login(session, name).effects.contains(
                EffectView::Send {
                    to: session.id,
                    response: ResponseView::MessageHistory { history },
                },
            )
        }),
{
    let after = game.send(sender, message).game;
    let effects = after.login(session, name).effects;
    let place: int = if session.name is Some { 2 } else { 1 };
    assert(effects[place] == (EffectView::Send {
        to: session.id,
        response: ResponseView::MessageHistory { history: after.history },
    }));
}

/// The chat only grows, until the game starts over and it is empty.
pub proof fn law_chat_grows(
    game: GameView,
    session: SessionView,
    action: ActionsView,
    order: Seq<Name>,
)
    ensures
        game.history.is_prefix_of(game.act(session, action, order).game.history) || {
            &&& game.act(session, action, order).game.state == GameState::Joining
            &&& game.act(session, action, order).game.history.len() == 0
        },
{
}

/// How the pairs lead from one name to the next.
pub open spec fn follow(pairs: Map<Name, Name>, name: Name, steps: nat) -> Name
    decreases steps,
{
    if steps == 0 {
        name
    } else {
        pairs[follow(pairs, name, (steps - 1) as nat)]
    }
}

/// When all are ready, words are picked in one ring of all clients: everybody
/// picks for exactly one other client, no two pick for the same one, and the
/// ring leads from anybody to anybody.
pub proof fn law_words_are_picked_in_a_ring(
    game: GameView,
    session: SessionView,
    name: Name,
    order: Seq<Name>,
    one: Name,
    other: Name,
)
    requires
        game.valid(),
        game.state == GameState::Joining,
        game.is_ring(order),
        game.set_ready(session, name, order).game.state == GameState::Assigning,
        game.clients.contains_key(one),
        game.clients.contains_key(other),
    ensures
        game.set_ready(session, name, order).game.assignment.dom() == game.clients.dom(),
        is_pairing(game.set_ready(session, name, order).game.assignment),
        exists|steps: nat| #[trigger]
            follow(game.set_ready(session, name, order).game.assignment, one, steps) == other,
{
    let start = game.set_ready(session, name, order).game;
    assert(start.assignment == ring(game.assignment, order, order.len()));
    order.unique_seq_to_set();
    lemma_ring_is_pairing(order);
    assert(order.to_set().contains(one) && order.to_set().contains(other));
    lemma_ring_leads_on(order, one, other);
}

proof fn lemma_ring_leads_on(order: Seq<Name>, one: Name, other: Name)
    requires
        order.no_duplicates(),
        order.contains(one),
        order.contains(other),
    ensures
        exists|steps: nat| #[trigger]
            follow(ring(Map::empty(), order, order.len()), one, steps) == other,
{
    let i = choose|i: int| 0 <= i < order.len() && order[i] == one;
    let j = choose|j: int| 0 <= j < order.len() && order[j] == other;
    let len = order.len() as int;
    let steps: nat = if j >= i {
        (j - i) as nat
    } else {
        (j - i + len) as nat
    };
    lemma_follow_ring(order, i, steps);
    assert((i + steps) % len == j) by {
        vstd::arithmetic::div_mod::lemma_small_mod(j as nat, len as nat);
        if j < i {
            vstd::arithmetic::div_mod::lemma_mod_add_multiples_vanish(j, len);
        }
    }
}

proof fn lemma_follow_ring(order: Seq<Name>, i: int, steps: nat)
    requires
        order.no_duplicates(),
        0 <= i < order.len(),
    ensures
        0 <= (i + steps) % (order.len() as int) < order.len(),
        follow(ring(Map::empty(), order, order.len()), order[i], steps) == order[(i + steps) % (
        order.len() as int)],
    decreases steps,
{
    let len = order.len() as int;
    vstd::arithmetic::div_mod::lemma_mod_bound(i + steps, len);
    if steps == 0 {
        vstd::arithmetic::div_mod::lemma_small_mod(i as nat, len as nat);
    } else {
        let before = (steps - 1) as nat;
        lemma_follow_ring(order, i, before);
        lemma_ring(Map::empty(), order, order.len());
        let place = (i + before) % len;
        assert(ring(Map::empty(), order, order.len()).contains_key(order[place]));
        vstd::arithmetic::div_mod::lemma_add_mod_noop(i + before, 1, len);
        vstd::arithmetic::div_mod::lemma_mod_twice(i + before, len);
        vstd::arithmetic::div_mod::lemma_add_mod_noop(place, 1, len);
        assert((place + 1) % len == (i + steps) % len);
    }
}

/// Whether a connection is that of a client.
pub open spec fn is_connected(connections: Map<Name, u64>, to: u64) -> bool {
    exists|name: Name| #[trigger] connections.contains_key(name) && connections[name] == to
}

/// What is sent to all goes to clients, and is what all are told.
proof fn lemma_broadcast(game: GameView, responses: Seq<ResponseView>)
    requires
        game.order.to_set() == game.connections.dom(),
    ensures
        forall|i: int|
            0 <= i < game.broadcast(responses).len() ==> {
                &&& #[trigger] game.broadcast(responses)[i] matches EffectView::Send { to, response }
                &&& is_connected(game.connections, to)
                &&& responses.contains(response)
            },
{
    let to_one = |name: Name| deliveries(game.connections[name], responses);
    assert forall|i: int| 0 <= i < game.broadcast(responses).len() implies {
        &&& #[trigger] game.broadcast(responses)[i] matches EffectView::Send { to, response }
        &&& is_connected(game.connections, to)
        &&& responses.contains(response)
    } by {
        lemma_flat_map(game.order, to_one, i);
        let j = choose|j: int|
            0 <= j < game.order.len() && #[trigger] to_one(game.order[j]).contains(
                game.order.flat_map(to_one)[i],
            );
        let name = game.order[j];
        assert(game.order.to_set().contains(name));
        assert(game.connections.contains_key(name));
        let sent = deliveries(game.connections[name], responses);
        let k = choose|k: int|
            0 <= k < sent.len() && #[trigger] sent[k] == game.order.flat_map(to_one)[i];
        assert(responses.contains(responses[k]));
    }
}

/// Every element of the joined lists comes out of one of them.
proof fn lemma_flat_map<A>(names: Seq<Name>, f: spec_fn(Name) -> Seq<A>, i: int)
    requires
        0 <= i < names.flat_map(f).len(),
    ensures
        exists|j: int|
            0 <= j < names.len() && #[trigger] f(names[j]).contains(names.flat_map(f)[i]),
    decreases names.len(),
{
    if names.len() == 0 {
        assert(names.map_values(f) =~= seq![]);
    } else {
        let rest = names.drop_last();
        let last = names.last();
        assert(names =~= rest.push(last));
        rest.lemma_flat_map_push(f, last);
        if i < rest.flat_map(f).len() {
            lemma_flat_map(rest, f, i);
            let j = choose|j: int|
                0 <= j < rest.len() && #[trigger] f(rest[j]).contains(rest.flat_map(f)[i]);
            assert(f(names[j]).contains(names.flat_map(f)[i]));
        } else {
            assert(names.flat_map(f)[i] == f(last)[i - rest.flat_map(f).len()]);
            assert(f(names[names.len() - 1]).contains(names.flat_map(f)[i]));
        }
    }
}

/// Everything a list puts in is in the joined lists.
proof fn lemma_flat_map_has<A>(names: Seq<Name>, f: spec_fn(Name) -> Seq<A>, j: int, item: A)
    requires
        0 <= j < names.len(),
        f(names[j]).contains(item),
    ensures
        names.flat_map(f).contains(item),
    decreases names.len(),
{
    let rest = names.drop_last();
    let last = names.last();
    assert(names =~= rest.push(last));
    rest.lemma_flat_map_push(f, last);
    if j < rest.len() {
        lemma_flat_map_has(rest, f, j, item);
        let k = choose|k: int| 0 <= k < rest.flat_map(f).len() && rest.flat_map(f)[k] == item;
        assert(names.flat_map(f)[k] == item);
    } else {
        let added = f(last);
        let k = choose|k: int| 0 <= k < added.len() && #[trigger] added[k] == item;
        assert(names.flat_map(f)[rest.flat_map(f).len() + k] == item);
    }
}

/// Everybody hears what is said to all: each of the responses goes over the
/// connection of each client.
pub proof fn law_everybody_hears(game: GameView, responses: Seq<ResponseView>, name: Name, i: int)
    requires
        game.valid(),
        game.clients.contains_key(name),
        0 <= i < responses.len(),
    ensures
        game.broadcast(responses).contains(
            EffectView::Send { to: game.connections[name], response: responses[i] },
        ),
{
    assert(game.connections.dom().contains(name));
    lemma_heard(game, responses, name, i);
}

proof fn lemma_heard(game: GameView, responses: Seq<ResponseView>, name: Name, i: int)
    requires
        game.order.to_set() == game.connections.dom(),
        game.connections.contains_key(name),
        0 <= i < responses.len(),
    ensures
        game.broadcast(responses).contains(
            EffectView::Send { to: game.connections[name], response: responses[i] },
        ),
{
    let to_one = |name: Name| deliveries(game.connections[name], responses);
    let item = EffectView::Send { to: game.connections[name], response: responses[i] };
    assert(game.order.to_set().contains(name));
    let j = choose|j: int| 0 <= j < game.order.len() && game.order[j] == name;
    assert(to_one(name)[i] == item);
    lemma_flat_map_has(game.order, to_one, j, item);
}

/// Whether an effect is sent to a client of the game or to the session that
/// asked, or is about the timer; and whether words of a new fight are sent to
/// a player that is ready, and are those of the others.
spec fn is_proper(
    effect: EffectView,
    game: GameView,
    session: SessionView,
    ready: GameView,
) -> bool {
    effect matches EffectView::Send { to, response } ==> {
        &&& to == session.id || is_connected(game.connections, to)
        &&& response matches ResponseView::GameStart { assigned } ==> exists|player: Name| #[trigger]
            ready.ready.contains(player) && ready.connections.contains_key(player)
                && ready.connections[player] == to && assigned == ready.words_for(player)
                && !assigned.contains_key(player)
    }
}

/// Whatever is sent because of a request goes over the connection of a client
/// or to the session that made the request.
pub proof fn law_responses_go_to_clients(
    game: GameView,
    session: SessionView,
    action: ActionsView,
    order: Seq<Name>,
    to: u64,
    response: ResponseView,
)
    requires
        game.valid(),
        game.is_ring(order),
        game.act(session, action, order).effects.contains(EffectView::Send { to, response }),
    ensures
        to == session.id || is_connected(game.act(session, action, order).game.connections, to),
{
    let effects = game.act(session, action, order).effects;
    let i = choose|i: int|
        0 <= i < effects.len() && effects[i] == (EffectView::Send { to, response });
    lemma_effects_are_proper(game, session, action, order, i);
}

/// Nobody is told its own forbidden word when a fight begins: the words are
/// sent to players that are ready, and to each of them the words of all other
/// players and not its own.
pub proof fn law_own_word_stays_secret(
    game: GameView,
    session: SessionView,
    action: ActionsView,
    order: Seq<Name>,
    to: u64,
    assigned: Map<Name, Seq<char>>,
)
    requires
        game.valid(),
        game.is_ring(order),
        game.act(session, action, order).effects.contains(
            EffectView::Send { to, response: ResponseView::GameStart { assigned } },
        ),
    ensures
        exists|player: Name|
            {
                &&& #[trigger] game.with_ready(session.name->0).ready.contains(player)
                &&& game.connections.contains_key(player)
                &&& game.connections[player] == to
                &&& assigned == game.words_for(player)
                &&& !assigned.contains_key(player)
            },
{
    let effects = game.act(session, action, order).effects;
    let response = ResponseView::GameStart { assigned };
    let i = choose|i: int|
        0 <= i < effects.len() && effects[i] == (EffectView::Send { to, response });
    lemma_effects_are_proper(game, session, action, order, i);
    let ready = game.with_ready(session.name->0);
    assert(ready.players() =~= game.players());
    let player = choose|player: Name| #[trigger]
        ready.ready.contains(player) && ready.connections.contains_key(player)
            && ready.connections[player] == to && assigned == ready.words_for(player)
            && !assigned.contains_key(player);
    assert(ready.words_for(player) =~= game.words_for(player));
}

/// When the fight begins, every player that is ready is sent the words of all
/// other players.
pub proof fn law_fighters_learn_the_words(
    game: GameView,
    session: SessionView,
    name: Name,
    order: Seq<Name>,
    player: Name,
)
    requires
        game.valid(),
        game.clients.contains_key(name),
        game.state == GameState::Assigning,
        game.set_ready(session, name, order).game.state == GameState::Fighting,
        game.set_ready(session, name, order).game.ready.contains(player),
    ensures
        game.set_ready(session, name, order).effects.contains(
            EffectView::Send {
                to: game.connections[player],
                response: ResponseView::GameStart { assigned: game.words_for(player) },
            },
        ),
{
    let ready = game.with_ready(name);
    let told = |player: Name| ready.game_start(player);
    let item = EffectView::Send {
        to: game.connections[player],
        response: ResponseView::GameStart { assigned: game.words_for(player) },
    };
    let j = choose|j: int| 0 <= j < ready.ready.len() && ready.ready[j] == player;
    if j < game.ready.len() {
        assert(game.ready[j] == player);
        assert(game.ready.contains(player));
    }
    assert(game.clients.contains_key(player));
    assert(ready.connections.dom().contains(player));
    assert(ready.players() =~= game.players());
    assert(ready.words_for(player) =~= game.words_for(player));
    assert(told(player)[0] == item);
    lemma_flat_map_has(ready.ready, told, j, item);
    let sent = ready.ready.flat_map(told);
    let k = choose|k: int| 0 <= k < sent.len() && sent[k] == item;
    let effects = game.set_ready(session, name, order).effects;
    let earlier = effects.len() - ready.start_fighting().effects.len();
    assert(ready.start_fighting().effects[k] == item);
    assert(effects[earlier + k] == item);
}

proof fn lemma_effects_are_proper(
    game: GameView,
    session: SessionView,
    action: ActionsView,
    order: Seq<Name>,
    i: int,
)
    requires
        game.valid(),
        game.is_ring(order),
        0 <= i < game.act(session, action, order).effects.len(),
    ensures
        is_proper(
            game.act(session, action, order).effects[i],
            game.act(session, action, order).game,
            session,
            game.with_ready(session.name->0),
        ),
{
    let after = game.act(session, action, order).game;
    match (action, session.name) {
        (ActionsView::Login { name }, _) => {
            if !game.connections.contains_key(name) {
                lemma_joined(game, session.id, name);
                lemma_broadcast(after, seq![ResponseView::PlayerJoin { name }]);
            }
        },
        (_, None) => {},
        (ActionsView::Send(message), Some(name)) => {
            lemma_told(game, ResponseView::MessageFrom { sender: name, content: message });
            if game.gives_away(name, message) {
                let out = game.after_giving_away(name, message);
                let word = game.clients[name].word()->0;
                lemma_broadcast(
                    out,
                    seq![
                        ResponseView::PlayerOut { quitter: name, word, suicide: false },
                        ResponseView::MessageFrom {
                            sender: ""@,
                            content: spoken_text(name, word),
                        },
                        ResponseView::TimerReset { timer: TIMEOUT_SECS },
                    ],
                );
                lemma_settle(out);
            }
        },
        (ActionsView::Suicide, Some(name)) => {
            if game.state == GameState::Fighting && game.clients[name].is_alive() {
                let out = game.after_suicide(name);
                lemma_broadcast(
                    out,
                    seq![
                        ResponseView::PlayerOut {
                            quitter: name,
                            word: game.clients[name].word()->0,
                            suicide: true,
                        },
                        ResponseView::MessageFrom {
                            sender: ""@,
                            content: suicide_text(name),
                        },
                        ResponseView::TimerReset { timer: TIMEOUT_SECS },
                    ],
                );
                lemma_settle(out);
            }
        },
        (ActionsView::RequestAbort, Some(name)) => {
            lemma_broadcast(
                game,
                seq![
                    ResponseView::StartVoteAbort,
                    ResponseView::VotedAbort { abort: true, voter: name },
                ],
            );
        },
        (ActionsView::VoteAbort { abort }, Some(name)) => {
            lemma_told(game, ResponseView::VotedAbort { abort, voter: name });
            lemma_told(game, ResponseView::VoteAbortResult { abort: true });
            lemma_told(game, ResponseView::VoteAbortResult { abort: false });
            let voted = GameView { voting: Some(game.voting->0.cast(name, abort)), ..game };
            lemma_told(voted, ResponseView::VoteAbortResult { abort: true });
            lemma_told(voted, ResponseView::VoteAbortResult { abort: false });
        },
        (ActionsView::AssignWord { word }, Some(name)) => {},
        (ActionsView::SetReady, Some(name)) => {
            let ready = game.with_ready(name);
            lemma_told(game, ResponseView::PlayerReady { name });
            lemma_start_assigning(ready, order);
            lemma_start_fighting(ready);
        },
        (ActionsView::CancelReady, Some(name)) => {
            lemma_told(game, ResponseView::PlayerNotReady { name });
        },
    }
}

proof fn lemma_told(game: GameView, response: ResponseView)
    requires
        game.order.to_set() == game.connections.dom(),
    ensures
        forall|i: int|
            0 <= i < game.tell_all(response).len() ==> {
                &&& #[trigger] game.tell_all(response)[i] matches EffectView::Send {
                    to,
                    response: told,
                }
                &&& is_connected(game.connections, to)
                &&& told == response
            },
{
    lemma_broadcast(game, seq![response]);
}

proof fn lemma_settle(game: GameView)
    requires
        game.order.to_set() == game.connections.dom(),
    ensures
        forall|i: int|
            0 <= i < game.settle().effects.len() ==> (#[trigger] game.settle().effects[i]
                matches EffectView::Send { to, response } ==> is_connected(game.connections, to)
                && !(response is GameStart)),
{
    lemma_told(
        game,
        ResponseView::GameWin {
            winner: game.ready[0],
            word: game.winner_word(game.ready[0])->0,
        },
    );
}

proof fn lemma_start_assigning(game: GameView, order: Seq<Name>)
    ensures
        forall|i: int|
            0 <= i < game.start_assigning(order).effects.len() ==> {
                &&& #[trigger] game.start_assigning(order).effects[i] matches EffectView::Send {
                    to,
                    response,
                }
                &&& is_connected(game.connections, to)
                &&& response is AssignStart
            },
{
    let told = |index: int| game.assign_start(order, index);
    lemma_assign_starts(game, order, order.len());
    assert(Seq::new(order.len(), |index: int| game.assign_start(order, index)) =~= Seq::new(
        order.len(),
        told,
    ));
}

proof fn lemma_assign_starts(game: GameView, order: Seq<Name>, count: nat)
    ensures
        ({
            let effects = Seq::new(count, |index: int| game.assign_start(order, index)).flatten();
            forall|i: int|
                0 <= i < effects.len() ==> {
                    &&& #[trigger] effects[i] matches EffectView::Send { to, response }
                    &&& is_connected(game.connections, to)
                    &&& response is AssignStart
                }
        }),
    decreases count,
{
    let told = |index: int| game.assign_start(order, index);
    if count > 0 {
        let fewer = Seq::new((count - 1) as nat, told);
        lemma_assign_starts(game, order, (count - 1) as nat);
        assert(Seq::new(count, told) =~= fewer.push(told(count - 1)));
        fewer.lemma_flatten_push(told(count - 1));
    }
}

proof fn lemma_start_fighting(game: GameView)
    ensures
        forall|i: int|
            0 <= i < game.start_fighting().effects.len() ==> (
            #[trigger] game.start_fighting().effects[i] matches EffectView::Send { to, response }
                ==> {
                &&& is_connected(game.connections, to)
                &&& response matches ResponseView::GameStart { assigned } ==> exists|player: Name|
                    #[trigger]
                    game.ready.contains(player) && game.connections.contains_key(player)
                        && game.connections[player] == to && assigned == game.words_for(player)
                        && !assigned.contains_key(player)
            }),
{
    let told = |player: Name| game.game_start(player);
    let effects = game.start_fighting().effects;
    assert forall|i: int| 0 <= i < effects.len() implies (#[trigger] effects[i]
        matches EffectView::Send { to, response } ==> {
        &&& is_connected(game.connections, to)
        &&& response matches ResponseView::GameStart { assigned } ==> exists|player: Name|
            #[trigger]
            game.ready.contains(player) && game.connections.contains_key(player)
                && game.connections[player] == to && assigned == game.words_for(player)
                && !assigned.contains_key(player)
    }) by {
        if i < game.ready.flat_map(told).len() {
            lemma_flat_map(game.ready, told, i);
            let j = choose|j: int|
                0 <= j < game.ready.len() && #[trigger] told(game.ready[j]).contains(
                    game.ready.flat_map(told)[i],
                );
            let player = game.ready[j];
            assert(game.ready.contains(player));
            let sent = game.game_start(player);
            let k = choose|k: int|
                0 <= k < sent.len() && #[trigger] sent[k] == game.ready.flat_map(told)[i];
            assert(game.connections.contains_key(player));
        }
    }
}

/// Only the first ballot of a player counts.
pub proof fn law_one_ballot_each(voting: VotingView, name: Name, first: bool, second: bool)
    ensures
        voting.cast(name, first).cast(name, second) == voting.cast(name, first),
        voting.cast(name, first).has_voted(name),
        voting.has_voted(name) ==> voting.cast(name, first) == voting,
        !voting.has_voted(name) ==> voting.cast(name, first).without_voter(name) == voting,
{
    if !voting.has_voted(name) {
        let after = voting.cast(name, first).without_voter(name);
        assert(after.agreed =~= voting.agreed);
        assert(after.objection =~= voting.objection);
    }
}

/// Whether every player has voted.
pub open spec fn all_have_voted(players: Set<Name>, voting: VotingView) -> bool {
    forall|name: Name| #[trigger] players.contains(name) ==> voting.has_voted(name)
}

proof fn lemma_all_have_voted(players: Set<Name>, voting: VotingView)
    requires
        players.finite(),
        voting.is_fair(players),
    ensures
        players.len() == voting.ballots() <==> all_have_voted(players, voting),
{
    let voters = voting.agreed.union(voting.objection);
    vstd::set_lib::lemma_set_subset_finite(players, voting.agreed);
    vstd::set_lib::lemma_set_subset_finite(players, voting.objection);
    vstd::set_lib::lemma_set_disjoint_lens(voting.agreed, voting.objection);
    assert(voters.len() == voting.ballots());
    assert(voters.subset_of(players));
    if players.len() == voting.ballots() {
        vstd::set_lib::lemma_subset_equality(voters, players);
        assert(voters == players);
    }
    if all_have_voted(players, voting) {
        assert(voters =~= players);
    }
}

/// A vote goes on until every player has voted. Then the game starts over if
/// more agree than object; otherwise the vote is over and the game goes on.
pub proof fn law_majority_decides(game: GameView, name: Name, abort: bool)
    requires
        game.valid(),
        game.players().contains(name),
        game.voting is Some,
    ensures
        ({
            let voting = game.voting->0.cast(name, abort);
            let after = game.vote_abort(name, abort).game;
            if !all_have_voted(game.players(), voting) {
                after == GameView { voting: Some(voting), ..game }
            } else if voting.agreed.len() > voting.objection.len() {
                after == game.renewed()
            } else {
                after == GameView { voting: None, ..game }
            }
        }),
{
    let voting = game.voting->0.cast(name, abort);
    let voted = GameView { voting: Some(voting), ..game };
    lemma_players_finite(game);
    assert(voted.players() =~= game.players());
    lemma_all_have_voted(game.players(), voting);
    assert(voted.renewed() =~= game.renewed());
}

/// Leaving takes the ballot along, and decides the vote when all players left
/// have voted: the game starts over if more agree than object, otherwise the
/// vote is over. A vote that is not decided goes on, unless the game starts
/// over for another reason.
pub proof fn law_leaving_may_decide_a_vote(game: GameView, name: Name)
    requires
        game.valid(),
        game.clients.contains_key(name),
        game.voting is Some,
    ensures
        ({
            let players = game.players().remove(name);
            let voting = game.voting->0.without_voter(name);
            let after = game.leave(name).game;
            if !all_have_voted(players, voting) {
                after.voting == Some(voting) || after.state == GameState::Joining
            } else if voting.agreed.len() > voting.objection.len() {
                after == game.removed(name).renewed()
            } else {
                after.voting is None
            }
        }),
{
    let removed = game.removed(name);
    lemma_removed(game, name);
    lemma_players_finite(removed);
    lemma_all_have_voted(removed.players(), removed.voting->0);
}

proof fn lemma_players_finite(game: GameView)
    requires
        game.valid(),
    ensures
        game.clients.dom().finite(),
        game.players().finite(),
{
    vstd::seq_lib::seq_to_set_is_finite(game.order);
    vstd::set_lib::lemma_set_subset_finite(game.clients.dom(), game.players());
}

/// The game goes from gathering to picking words to the fight, and from
/// anywhere back to gathering; picking begins when all clients, and at least
/// two, are ready, and the fight when as many are ready as there are players.
pub proof fn law_phases(
    game: GameView,
    session: SessionView,
    action: ActionsView,
    order: Seq<Name>,
)
    ensures
        ({
            let after = game.act(session, action, order).game;
            ||| after.state == game.state
            ||| after.state == GameState::Joining
            ||| {
                &&& game.state == GameState::Joining
                &&& after.state == GameState::Assigning
                &&& action is SetReady
                &&& game.ready.len() + 1 == game.clients.len()
                &&& game.clients.len() > 1
            }
            ||| {
                &&& game.state == GameState::Assigning
                &&& after.state == GameState::Fighting
                &&& action is SetReady
                &&& game.has_picked(session.name->0)
                &&& after.ready.len() == after.players().len()
            }
        }),
{
    if let Some(name) = session.name {
        assert(game.with_ready(name).players() =~= game.players());
        let after = game.act(session, action, order).game;
        if action is SetReady {
            assert(after.players() =~= game.players());
        }
    }
}

/// While a fight goes on, nobody's forbidden word changes, nobody who is out
/// comes back, and only the client that makes a request can go out by it.
pub proof fn law_fights_are_fair(
    game: GameView,
    session: SessionView,
    action: ActionsView,
    order: Seq<Name>,
    name: Name,
)
    requires
        game.valid(),
        game.knows(session),
        game.state == GameState::Fighting,
        game.act(session, action, order).game.state == GameState::Fighting,
        game.clients.contains_key(name),
    ensures
        ({
            let after = game.act(session, action, order).game;
            &&& after.clients.contains_key(name)
            &&& after.clients[name].word() == game.clients[name].word()
            &&& after.clients[name].is_alive() ==> game.clients[name].is_alive()
            &&& after.clients[name] != game.clients[name] ==> {
                &&& session.name == Some(name)
                &&& action is Send || action is Suicide
                &&& after.clients[name] == game.clients[name].out()
            }
        }),
{
}

/// Saying the own forbidden word in a fight puts a player out, unless it ends
/// the fight and with it everything; saying anything else, or saying anything
/// outside a fight, only adds to the chat.
pub proof fn law_saying_the_word(game: GameView, name: Name, message: Seq<char>)
    requires
        game.valid(),
        game.clients.contains_key(name),
    ensures
        !game.gives_away(name, message) ==> game.send(name, message).game == game.said(
            name,
            message,
        ),
        game.gives_away(name, message) ==> {
            let after = game.send(name, message).game;
            ||| after.state == GameState::Joining
            ||| !after.clients[name].is_alive() && !after.ready.contains(name)
        },
{
    lemma_without(game.ready, name);
}

/// A fight in which somebody has just gone out, or which somebody has just
/// left, goes on only with at least two in the running.
pub proof fn law_the_last_one_wins(game: GameView, name: Name, message: Seq<char>)
    requires
        game.valid(),
        game.state == GameState::Fighting,
        game.clients.contains_key(name),
    ensures
        game.clients[name].is_alive() ==> {
            let after = game.suicide(name).game;
            after.state == GameState::Fighting ==> after.ready.len() > 1
        },
        game.gives_away(name, message) ==> {
            let after = game.send(name, message).game;
            after.state == GameState::Fighting ==> after.ready.len() > 1
        },
        ({
            let after = game.leave(name).game;
            after.state == GameState::Fighting ==> after.ready.len() > 1
        }),
{
}

/// When somebody goes out of a fight or leaves it, and one other is left in the
/// running, everybody hears that this one has won, and the game starts over.
/// Only leaving may have no winner: when it makes a vote abort the fight.
pub proof fn law_the_winner_is_announced(
    game: GameView,
    name: Name,
    message: Seq<char>,
    winner: Name,
    hearer: Name,
)
    requires
        game.valid(),
        game.state == GameState::Fighting,
        game.clients.contains_key(name),
        without(game.ready, name) == seq![winner],
        game.clients.contains_key(hearer),
    ensures
        ({
            let news = EffectView::Send {
                to: game.connections[hearer],
                response: ResponseView::GameWin { winner, word: game.clients[winner].word()->0 },
            };
            &&& game.clients[name].is_alive() ==> {
                &&& game.suicide(name).effects.contains(news)
                &&& game.suicide(name).game.state == GameState::Joining
            }
            &&& game.gives_away(name, message) ==> {
                &&& game.send(name, message).effects.contains(news)
                &&& game.send(name, message).game.state == GameState::Joining
            }
            &&& hearer != name && game.removed(name).tally().game.state
                == GameState::Fighting ==> {
                &&& game.leave(name).effects.contains(news)
                &&& game.leave(name).game.state == GameState::Joining
            }
        }),
{
    lemma_without(game.ready, name);
    assert(seq![winner][0] == winner);
    assert(without(game.ready, name).contains(winner));
    if game.clients[name].is_alive() {
        lemma_with_out(game, name);
        let out = game.after_suicide(name);
        lemma_settled(out, winner, hearer);
        lemma_last_part(game.suicide(name).effects, out.settle().effects);
    }
    if game.gives_away(name, message) {
        lemma_with_out(game.said(name, message), name);
        let out = game.after_giving_away(name, message);
        lemma_settled(out, winner, hearer);
        lemma_last_part(game.send(name, message).effects, out.settle().effects);
    }
    if hearer != name && game.removed(name).tally().game.state == GameState::Fighting {
        lemma_removed(game, name);
        let out = game.after_leaving(name);
        lemma_settled(out, winner, hearer);
        lemma_last_part(game.leave(name).effects, out.settle().effects);
    }
}

/// The end of a fight is heard by everybody.
proof fn lemma_settled(game: GameView, winner: Name, hearer: Name)
    requires
        game.order.to_set() == game.connections.dom(),
        game.connections.contains_key(hearer),
        game.clients.contains_key(winner),
        game.ready == seq![winner],
    ensures
        game.settle().effects.contains(
            EffectView::Send {
                to: game.connections[hearer],
                response: ResponseView::GameWin { winner, word: game.clients[winner].word()->0 },
            },
        ),
        game.settle().game.state == GameState::Joining,
{
    let response = ResponseView::GameWin { winner, word: game.clients[winner].word()->0 };
    let item = EffectView::Send { to: game.connections[hearer], response };
    lemma_heard(game, seq![response], hearer, 0);
    let told = game.tell_all(response);
    let i = choose|i: int| 0 <= i < told.len() && told[i] == item;
    assert(game.settle().effects[i] == item);
}

/// What is in the last part of a list is in the list.
proof fn lemma_last_part<A>(items: Seq<A>, part: Seq<A>)
    requires
        part.len() <= items.len(),
        items.skip(items.len() - part.len()) =~= part,
    ensures
        forall|item: A| #[trigger] part.contains(item) ==> items.contains(item),
{
    assert forall|item: A| #[trigger] part.contains(item) implies items.contains(item) by {
        let i = choose|i: int| 0 <= i < part.len() && part[i] == item;
        assert(items[items.len() - part.len() + i] == item);
    }
}

/// Everybody else hears that a client has left, and nobody but them is told
/// anything by it. The game stays in its phase, and the chat only grows, or the
/// game starts over with an empty chat; the timer is stopped if and only if it
/// starts over.
pub proof fn law_leaving(game: GameView, name: Name, hearer: Name, effect: EffectView)
    requires
        game.valid(),
        game.clients.contains_key(name),
    ensures
        ({
            let step = game.leave(name);
            let ends = game.state != GameState::Joining && step.game.state == GameState::Joining;
            &&& game.clients.contains_key(hearer) && hearer != name ==> step.effects.contains(
                EffectView::Send {
                    to: game.connections[hearer],
                    response: ResponseView::PlayerQuit { name },
                },
            )
            &&& step.effects.contains(effect) ==> (effect matches EffectView::Send {
                to,
                response,
            } ==> is_connected(game.connections.remove(name), to))
            &&& step.game.state == game.state || step.game.state == GameState::Joining
            &&& if ends {
                step.game.history.len() == 0
            } else {
                game.history.is_prefix_of(step.game.history)
            }
            &&& ends <==> step.effects.contains(EffectView::CancelTimer)
            &&& !step.effects.contains(EffectView::RestartTimer)
        }),
{
    let client = game.clients[name];
    let removed = game.removed(name);
    let vote = removed.tally();
    let left = game.after_leaving(name);
    let quit = ResponseView::PlayerQuit { name };
    let news = if vote.game.deserts(client) {
        seq![
            ResponseView::PlayerOut { quitter: name, word: client.word()->0, suicide: false },
            ResponseView::MessageFrom { sender: ""@, content: quit_text(name) },
            quit,
        ]
    } else {
        seq![quit]
    };
    let end = left.proceed(name, client);
    let step = game.leave(name);
    let told = left.broadcast(news);
    assert(step.effects == vote.effects + told + end.effects);
    lemma_removed(game, name);
    lemma_told(removed, ResponseView::VoteAbortResult { abort: true });
    lemma_told(removed, ResponseView::VoteAbortResult { abort: false });
    lemma_broadcast(left, news);
    lemma_settle(left);
    lemma_only_sent(left);
    lemma_told(left, ResponseView::GameEndUnproceedable);
    if game.clients.contains_key(hearer) && hearer != name {
        let item = EffectView::Send { to: game.connections[hearer], response: quit };
        assert(game.connections.contains_key(hearer));
        assert(news[news.len() - 1] == quit);
        lemma_heard(left, news, hearer, news.len() - 1);
        let i = choose|i: int| 0 <= i < told.len() && told[i] == item;
        assert(step.effects[vote.effects.len() + i] == item);
    }
    assert(step.effects.contains(effect) ==> vote.effects.contains(effect) || told.contains(effect)
        || end.effects.contains(effect)) by {
        if step.effects.contains(effect) {
            lemma_one_of_three(vote.effects, told, end.effects, effect);
        }
    }
    if step.effects.contains(EffectView::RestartTimer) {
        lemma_one_of_three(vote.effects, told, end.effects, EffectView::RestartTimer);
    }
    if step.effects.contains(EffectView::CancelTimer) {
        lemma_one_of_three(vote.effects, told, end.effects, EffectView::CancelTimer);
    }
    if vote.effects.contains(EffectView::CancelTimer) {
        assert(step.effects[vote.effects.len() - 1] == EffectView::CancelTimer);
    }
    if game.state != GameState::Joining && step.game.state == GameState::Joining {
        if vote.game.state == GameState::Joining {
            assert(step.effects[vote.effects.len() - 1] == EffectView::CancelTimer);
        } else {
            assert(step.effects[step.effects.len() - 1] == EffectView::CancelTimer);
        }
    }
}

proof fn lemma_one_of_three<A>(one: Seq<A>, two: Seq<A>, three: Seq<A>, item: A)
    requires
        (one + two + three).contains(item),
    ensures
        one.contains(item) || two.contains(item) || three.contains(item),
{
    let all = one + two + three;
    let i = choose|i: int| 0 <= i < all.len() && all[i] == item;
    if i < one.len() {
        assert(one[i] == item);
    } else if i < one.len() + two.len() {
        assert(two[i - one.len()] == item);
    } else {
        assert(three[i - one.len() - two.len()] == item);
    }
}

/// Cancelling undoes readiness: a client that declares itself ready, without
/// the next phase beginning by it, and then cancels, leaves the game as it was.
pub proof fn law_cancelling_undoes_readiness(
    game: GameView,
    session: SessionView,
    name: Name,
    order: Seq<Name>,
)
    requires
        !game.ready.contains(name),
        game.set_ready(session, name, order).game.state == game.state,
    ensures
        game.set_ready(session, name, order).game.cancel_ready(session, name).game == game,
{
    let ready = game.ready.push(name);
    lemma_without_absent(game.ready, name);
    assert(ready.drop_last() =~= game.ready);
    reveal(Seq::filter);
    assert(without(ready, name) == without(game.ready, name));
    assert(game.set_ready(session, name, order).game.cancel_ready(session, name).game =~= game);
}

/// A word that is not blank becomes the forbidden word of the player it is
/// picked for, and of nobody else; nobody picks its own.
pub proof fn law_picking_a_word(
    game: GameView,
    session: SessionView,
    name: Name,
    word: Seq<char>,
    other: Name,
)
    requires
        game.valid(),
        game.state == GameState::Assigning,
        game.assignment.contains_key(name),
        game.players().contains(game.assignment[name]),
        !is_blank_text(word),
    ensures
        ({
            let after = game.assign_word(session, name, word).game;
            &&& after.clients[game.assignment[name]].word() == Some(word)
            &&& after.has_picked(name)
            &&& other != game.assignment[name] ==> after.clients[other] == game.clients[other]
            &&& game.assignment[name] != name
        }),
        game.assign_word(session, name, word).effects == session.reply(
            ResponseView::AssignResult { excuse: None },
        ),
{
}

/// A blank word is refused and changes nothing.
pub proof fn law_blank_words_are_refused(
    game: GameView,
    session: SessionView,
    name: Name,
    word: Seq<char>,
)
    requires
        game.state == GameState::Assigning,
        is_blank_text(word),
    ensures
        game.assign_word(session, name, word).game == game,
        game.assign_word(session, name, word).effects == session.reply(
            ResponseView::AssignResult { excuse: Some("该词被禁止"@) },
        ),
{
}

/// A session without a name can do nothing but log in.
pub proof fn law_login_comes_first(
    game: GameView,
    session: SessionView,
    action: ActionsView,
    order: Seq<Name>,
)
    requires
        session.name is None,
        !(action is Login),
    ensures
        game.act(session, action, order) == game.unchanged(),
        game.session_after(session, action) == session,
{
}

/// Before the fight every session can make every request and can end, but for
/// declaring itself ready while words are picked, and that as well once every
/// player has a word. In a fight, too, it can do everything but say something,
/// give up or leave, and these as well while at least two others are in the
/// running.
pub proof fn law_what_can_be_done(game: GameView, session: SessionView, action: ActionsView)
    requires
        game.valid(),
        game.knows(session),
    ensures
        game.state != GameState::Fighting && !(game.state == GameState::Assigning
            && action is SetReady) ==> game.can_act(session, action),
        game.state == GameState::Assigning && (forall|name: Name| #[trigger]
            game.clients.contains_key(name) && game.clients[name].is_player()
                ==> game.clients[name].word() is Some) ==> game.can_act(session, action),
        game.state == GameState::Fighting && !(action is Send) && !(action is Suicide)
            ==> game.can_act(session, action),
        session.name matches Some(name) ==> {
            &&& game.state != GameState::Fighting ==> game.can_leave(name)
            &&& without(game.ready, name).len() > 1 ==> {
                &&& game.can_leave(name)
                &&& action is Send ==> game.can_act(session, action)
                &&& game.clients[name].word() is Some && action is Suicide ==> game.can_act(
                    session,
                    action,
                )
            }
        },
{
}

/// A player has the word it was given last, in the running or out; going out
/// twice is going out once. A spectator neither gets a word nor goes out.
pub proof fn law_clients(client: ClientStateView, word: Seq<char>)
    ensures
        client.with_word(word).word() == if client.is_player() {
            Some(word)
        } else {
            None
        },
        client.with_word(word).is_alive() == client.is_alive(),
        client.with_word(word).is_player() == client.is_player(),
        client.out().word() == client.word(),
        client.out().is_player() == client.is_player(),
        !client.out().is_alive(),
        client.out().out() == client.out(),
        !client.is_player() ==> client.with_word(word) == client && client.out() == client,
{
}

/// A request that ends the game stops the timer in the end, and no other one
/// stops it; one that begins a fight starts it in the end; and one that puts
/// somebody out starts it afresh.
pub proof fn law_timer(
    game: GameView,
    session: SessionView,
    action: ActionsView,
    order: Seq<Name>,
)
    requires
        game.valid(),
        game.is_ring(order),
    ensures
        ({
            let step = game.act(session, action, order);
            let ends = game.state != GameState::Joining && step.game.state == GameState::Joining;
            let begins = game.state == GameState::Assigning && step.game.state
                == GameState::Fighting;
            let puts_out = game.state == GameState::Fighting && session.name is Some && (action
                is Suicide && game.clients[session.name->0].is_alive() || (action
                matches ActionsView::Send(message) && game.gives_away(session.name->0, message)));
            &&& ends ==> step.effects.last() == EffectView::CancelTimer
            &&& step.effects.contains(EffectView::CancelTimer) ==> ends
            &&& begins ==> step.effects.last() == EffectView::RestartTimer
            &&& puts_out ==> step.effects.contains(EffectView::RestartTimer)
            &&& step.effects.contains(EffectView::RestartTimer) ==> begins || puts_out
        }),
{
    let step = game.act(session, action, order);
    match (action, session.name) {
        (ActionsView::Login { name }, _) => {
            lemma_only_sent(game.joined(session.id, name));
        },
        (_, None) => {},
        (ActionsView::Send(message), Some(name)) => {
            let out = game.after_giving_away(name, message);
            let heard = game.tell_all(
                ResponseView::MessageFrom { sender: name, content: message },
            );
            lemma_only_sent(game);
            lemma_only_sent(out);
            if game.gives_away(name, message) {
                assert(step.effects[heard.len() as int] == EffectView::RestartTimer);
            }
        },
        (ActionsView::Suicide, Some(name)) => {
            let out = game.after_suicide(name);
            lemma_only_sent(out);
            if game.state == GameState::Fighting && game.clients[name].is_alive() {
                let place = step.effects.len() - out.settle().effects.len() - 1;
                assert(step.effects[place] == EffectView::RestartTimer);
            }
        },
        (ActionsView::RequestAbort, Some(name)) => {
            lemma_only_sent(game);
        },
        (ActionsView::VoteAbort { abort }, Some(name)) => {
            lemma_only_sent(game);
            lemma_only_sent(
                GameView { voting: Some(game.voting->0.cast(name, abort)), ..game },
            );
        },
        (ActionsView::AssignWord { word }, Some(name)) => {},
        (ActionsView::SetReady, Some(name)) => {
            let ready = game.with_ready(name);
            lemma_only_sent(game);
            lemma_start_assigning(ready, order);
            lemma_only_sent_to_fighters(ready);
        },
        (ActionsView::CancelReady, Some(name)) => {
            lemma_only_sent(game);
        },
    }
}

/// Telling everybody something is not about the timer.
proof fn lemma_only_sent(game: GameView)
    ensures
        forall|responses: Seq<ResponseView>, i: int|
            0 <= i < game.broadcast(responses).len() ==> #[trigger] game.broadcast(responses)[i]
                is Send,
{
    assert forall|responses: Seq<ResponseView>, i: int|
        0 <= i < game.broadcast(responses).len() implies #[trigger] game.broadcast(responses)[i]
        is Send by {
        let to_one = |name: Name| deliveries(game.connections[name], responses);
        lemma_flat_map(game.order, to_one, i);
        let j = choose|j: int|
            0 <= j < game.order.len() && #[trigger] to_one(game.order[j]).contains(
                game.order.flat_map(to_one)[i],
            );
    }
}

/// Telling the players that a fight begins is not about the timer.
proof fn lemma_only_sent_to_fighters(game: GameView)
    ensures
        forall|i: int|
            0 <= i < game.start_fighting().effects.len() - 1 ==> #[trigger] game.start_fighting().effects[i]
                is Send,
{
    let told = |player: Name| game.game_start(player);
    assert forall|i: int| 0 <= i < game.start_fighting().effects.len() - 1 implies
        #[trigger] game.start_fighting().effects[i] is Send by {
        lemma_flat_map(game.ready, told, i);
        let j = choose|j: int|
            0 <= j < game.ready.len() && #[trigger] told(game.ready[j]).contains(
                game.ready.flat_map(told)[i],
            );
    }
}

} // verus!
