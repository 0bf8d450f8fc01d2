//! What every request comes to, as its clients see it: what each connection
//! hears, what becomes of the timer, and what is left of the game.
//!
//! The laws here speak of the parts of a game and of what is sent, and of
//! nothing that `model` defines on the way from the one to the other.
use crate::game::{effects_view, responses_view, Effect, Game, Session};
use crate::laws::lemma_without;
use crate::model::{
    deliveries, next_in_ring, ring, EffectView, GameView, SessionView, VotingView,
};
use crate::names::{without, Name};
use crate::protocol::{
    lines_view, Actions, ActionsView, ClientState, ClientStateView, GameState, PlayerState,
    Response, ResponseView,
};
use crate::session::{can_close, can_process, IncomingView, TransportError};
use crate::text::{is_blank_text, is_space, occurs};
use vstd::prelude::*;

verus! {

/// What is sent over one connection, one after the other.
pub open spec fn heard(effects: Seq<EffectView>, to: u64) -> Seq<ResponseView>
    decreases effects.len(),
{
    if effects.len() == 0 {
        seq![]
    } else {
        let earlier = heard(effects.drop_last(), to);
        match effects.last() {
            EffectView::Send { to: id, response } => if id == to {
                earlier.push(response)
            } else {
                earlier
            },
            _ => earlier,
        }
    }
}

/// What is done about the timer, one after the other.
pub open spec fn timer_steps(effects: Seq<EffectView>) -> Seq<EffectView>
    decreases effects.len(),
{
    if effects.len() == 0 {
        seq![]
    } else {
        let earlier = timer_steps(effects.drop_last());
        if effects.last() is Send {
            earlier
        } else {
            earlier.push(effects.last())
        }
    }
}

/// A list, a number of times over.
pub open spec fn times(list: Seq<ResponseView>, count: nat) -> Seq<ResponseView>
    decreases count,
{
    if count == 0 {
        seq![]
    } else {
        times(list, (count - 1) as nat) + list
    }
}

/// The names that a connection goes by.
pub open spec fn names_of(connections: Map<Name, u64>, to: u64) -> Set<Name> {
    connections.dom().filter(|name: Name| connections[name] == to)
}

/// How many names a connection goes by.
pub open spec fn names_at(connections: Map<Name, u64>, to: u64) -> nat {
    names_of(connections, to).len()
}

/// What a session is answered: nobody else hears it.
pub open spec fn answer(session: SessionView, to: u64, responses: Seq<ResponseView>) -> Seq<
    ResponseView,
> {
    if session.id == to {
        responses
    } else {
        seq![]
    }
}

/// The clients that are players.
pub open spec fn participants(clients: Map<Name, ClientStateView>) -> Set<Name> {
    clients.dom().filter(|name: Name| clients[name] is Player)
}

/// The forbidden word of a client.
pub open spec fn word_of(client: ClientStateView) -> Option<Seq<char>> {
    match client {
        ClientStateView::Player(_, word) => word,
        ClientStateView::Spectator => None,
    }
}

/// Whether a message holds a word.
pub open spec fn is_part(word: Seq<char>, message: Seq<char>) -> bool {
    exists|before: Seq<char>, after: Seq<char>| message == #[trigger] (before + word + after)
}

/// The white space characters, one by one.
pub open spec fn is_white(c: char) -> bool {
    seq![
        0x9u32, 0xa, 0xb, 0xc, 0xd, 0x20, 0x85, 0xa0, 0x1680, 0x2000, 0x2001, 0x2002, 0x2003,
        0x2004, 0x2005, 0x2006, 0x2007, 0x2008, 0x2009, 0x200a, 0x2028, 0x2029, 0x202f, 0x205f,
        0x3000,
    ].contains(c as u32)
}

/// A game that begins anew with the given clients, whoever is connected.
pub open spec fn begun(
    connections: Map<Name, u64>,
    order: Seq<Name>,
    clients: Set<Name>,
) -> GameView {
    GameView {
        state: GameState::Joining,
        connections,
        order,
        clients: Map::new(
            |name: Name| clients.contains(name),
            |name: Name| ClientStateView::Player(PlayerState::Alive, None),
        ),
        ready: seq![],
        assignment: Map::empty(),
        history: seq![],
        voting: None,
    }
}

/// What is heard of the one who is left in the running.
pub open spec fn victory(winner: Name, clients: Map<Name, ClientStateView>) -> Seq<ResponseView> {
    seq![
        ResponseView::GameWin {
            winner,
            word: if clients.contains_key(winner) {
                word_of(clients[winner])->0
            } else {
                ""@
            },
        },
    ]
}

/// Whether a fight among `running` goes on, or has a winner with a word to
/// show.
pub open spec fn has_outcome(running: Set<Name>, clients: Map<Name, ClientStateView>) -> bool {
    ||| running.len() > 1
    ||| running.len() == 1 && (clients.contains_key(running.choose())
        ==> word_of(clients[running.choose()]) is Some)
}

/// What a connection hears when words are picked in the ring `order`: for each
/// of its names, who comes behind that name.
pub open spec fn picks_told(
    connections: Map<Name, u64>,
    order: Seq<Name>,
    count: nat,
    to: u64,
) -> Seq<ResponseView>
    decreases count,
{
    if count == 0 {
        seq![]
    } else {
        let earlier = picks_told(connections, order, (count - 1) as nat, to);
        let name = order[count - 1];
        let behind = if count == order.len() {
            order[0]
        } else {
            order[count as int]
        };
        if connections.contains_key(name) && connections[name] == to {
            earlier.push(ResponseView::AssignStart { assignee: behind })
        } else {
            earlier
        }
    }
}

/// The words of all players but one.
pub open spec fn words_of_others(clients: Map<Name, ClientStateView>, player: Name) -> Map<
    Name,
    Seq<char>,
> {
    Map::new(
        |name: Name| clients.contains_key(name) && clients[name] is Player && name != player,
        |name: Name| word_of(clients[name])->0,
    )
}

/// What a connection hears when the fight begins: for each of its names that
/// is in the running, the words of the others.
pub open spec fn words_told(
    connections: Map<Name, u64>,
    clients: Map<Name, ClientStateView>,
    running: Seq<Name>,
    to: u64,
) -> Seq<ResponseView>
    decreases running.len(),
{
    if running.len() == 0 {
        seq![]
    } else {
        let earlier = words_told(connections, clients, running.drop_last(), to);
        let player = running.last();
        if connections.contains_key(player) && connections[player] == to {
            earlier.push(
                ResponseView::GameStart { assigned: words_of_others(clients, player) },
            ).push(ResponseView::TimerReset { timer: 600 })
        } else {
            earlier
        }
    }
}

impl GameView {
    /// Whether every connected name has its turn once, and nobody is ready
    /// twice.
    pub open spec fn orderly(self) -> bool {
        &&& self.order.no_duplicates()
        &&& self.order.to_set() == self.connections.dom()
        &&& self.ready.no_duplicates()
    }
}

broadcast proof fn lemma_heard_add(one: Seq<EffectView>, other: Seq<EffectView>, to: u64)
    ensures
        #[trigger] heard(one + other, to) == heard(one, to) + heard(other, to),
    decreases other.len(),
{
    if other.len() == 0 {
        assert(one + other =~= one);
        assert(heard(one, to) + heard(other, to) =~= heard(one, to));
    } else {
        lemma_heard_add(one, other.drop_last(), to);
        assert((one + other).drop_last() =~= one + other.drop_last());
        assert(heard(one + other, to) =~= heard(one, to) + heard(other, to));
    }
}

broadcast proof fn lemma_timer_add(one: Seq<EffectView>, other: Seq<EffectView>)
    ensures
        #[trigger] timer_steps(one + other) == timer_steps(one) + timer_steps(other),
    decreases other.len(),
{
    if other.len() == 0 {
        assert(one + other =~= one);
        assert(timer_steps(one) + timer_steps(other) =~= timer_steps(one));
    } else {
        lemma_timer_add(one, other.drop_last());
        assert((one + other).drop_last() =~= one + other.drop_last());
        assert(timer_steps(one + other) =~= timer_steps(one) + timer_steps(other));
    }
}

broadcast proof fn lemma_heard_push(effects: Seq<EffectView>, effect: EffectView, to: u64)
    ensures
        #[trigger] heard(effects.push(effect), to) == match effect {
            EffectView::Send { to: id, response } => if id == to {
                heard(effects, to).push(response)
            } else {
                heard(effects, to)
            },
            _ => heard(effects, to),
        },
{
    assert(effects.push(effect).drop_last() =~= effects);
}

broadcast proof fn lemma_timer_push(effects: Seq<EffectView>, effect: EffectView)
    ensures
        #[trigger] timer_steps(effects.push(effect)) == if effect is Send {
            timer_steps(effects)
        } else {
            timer_steps(effects).push(effect)
        },
{
    assert(effects.push(effect).drop_last() =~= effects);
}

broadcast proof fn lemma_heard_reply(session: SessionView, response: ResponseView, to: u64)
    ensures
        #[trigger] heard(session.reply(response), to) == answer(session, to, seq![response]),
        timer_steps(session.reply(response)) == Seq::<EffectView>::empty(),
{
    let effect = EffectView::Send { to: session.id, response };
    assert(session.reply(response) =~= Seq::<EffectView>::empty().push(effect));
    lemma_heard_push(seq![], effect, to);
    lemma_timer_push(seq![], effect);
    assert(heard(session.reply(response), to) =~= answer(session, to, seq![response]));
}

proof fn lemma_heard_deliveries(id: u64, responses: Seq<ResponseView>, to: u64)
    ensures
        heard(deliveries(id, responses), to) == if id == to {
            responses
        } else {
            seq![]
        },
        timer_steps(deliveries(id, responses)) == Seq::<EffectView>::empty(),
    decreases responses.len(),
{
    if responses.len() > 0 {
        lemma_heard_deliveries(id, responses.drop_last(), to);
        let earlier = deliveries(id, responses.drop_last());
        let last = EffectView::Send { to: id, response: responses.last() };
        assert(deliveries(id, responses) =~= earlier.push(last));
        lemma_heard_push(earlier, last, to);
        lemma_timer_push(earlier, last);
    }
    assert(heard(deliveries(id, responses), to) =~= if id == to {
        responses
    } else {
        seq![]
    });
}

/// What is told to all is heard over each connection once for each name.
broadcast proof fn lemma_heard_broadcast(game: GameView, responses: Seq<ResponseView>, to: u64)
    requires
        game.order.no_duplicates(),
        game.order.to_set() == game.connections.dom(),
    ensures
        #[trigger] heard(game.broadcast(responses), to) == times(
            responses,
            names_at(game.connections, to),
        ),
        timer_steps(game.broadcast(responses)) == Seq::<EffectView>::empty(),
{
    let to_one = |name: Name| deliveries(game.connections[name], responses);
    let connections = game.connections;
    lemma_heard_names(connections, game.order, responses, to_one, to);
    assert(game.broadcast(responses) == game.order.flat_map(to_one));
    assert(names_of(connections, to) =~= game.order.to_set().filter(
        |name: Name| connections[name] == to,
    ));
}

broadcast proof fn lemma_timer_broadcast(game: GameView, responses: Seq<ResponseView>)
    requires
        game.order.no_duplicates(),
        game.order.to_set() == game.connections.dom(),
    ensures
        #[trigger] timer_steps(game.broadcast(responses)) == Seq::<EffectView>::empty(),
{
    lemma_heard_broadcast(game, responses, 0);
}

broadcast proof fn lemma_timer_reply(session: SessionView, response: ResponseView)
    ensures
        #[trigger] timer_steps(session.reply(response)) == Seq::<EffectView>::empty(),
{
    lemma_heard_reply(session, response, 0);
}

proof fn lemma_heard_names(
    connections: Map<Name, u64>,
    names: Seq<Name>,
    responses: Seq<ResponseView>,
    to_one: spec_fn(Name) -> Seq<EffectView>,
    to: u64,
)
    requires
        names.no_duplicates(),
        to_one == (|name: Name| deliveries(connections[name], responses)),
    ensures
        heard(names.flat_map(to_one), to) == times(
            responses,
            names.to_set().filter(|name: Name| connections[name] == to).len(),
        ),
        timer_steps(names.flat_map(to_one)) == Seq::<EffectView>::empty(),
        names.to_set().filter(|name: Name| connections[name] == to).finite(),
    decreases names.len(),
{
    let at = |name: Name| connections[name] == to;
    if names.len() == 0 {
        assert(names.map_values(to_one) =~= seq![]);
        assert(names.flat_map(to_one) =~= seq![]);
        assert(names.to_set().filter(at) =~= Set::empty());
    } else {
        let rest = names.drop_last();
        let last = names.last();
        lemma_heard_names(connections, rest, responses, to_one, to);
        assert(names =~= rest.push(last));
        rest.lemma_flat_map_push(to_one, last);
        rest.lemma_push_to_set_commute(last);
        lemma_heard_add(rest.flat_map(to_one), to_one(last), to);
        lemma_timer_add(rest.flat_map(to_one), to_one(last));
        lemma_heard_deliveries(connections[last], responses, to);
        assert(!rest.contains(last));
        assert(!rest.to_set().contains(last));
        if connections[last] == to {
            assert(names.to_set().filter(at) =~= rest.to_set().filter(at).insert(last));
        } else {
            assert(names.to_set().filter(at) =~= rest.to_set().filter(at));
        }
        assert(heard(names.flat_map(to_one), to) =~= times(
            responses,
            names.to_set().filter(at).len(),
        ));
        assert(timer_steps(names.flat_map(to_one)) =~= seq![]);
    }
}

broadcast proof fn lemma_nothing_more(list: Seq<ResponseView>)
    ensures
        #[trigger] (list + Seq::<ResponseView>::empty()) == list,
{
    assert(list + Seq::<ResponseView>::empty() =~= list);
}

broadcast proof fn lemma_nothing_before(list: Seq<ResponseView>)
    ensures
        #[trigger] (Seq::<ResponseView>::empty() + list) == list,
{
    assert(Seq::<ResponseView>::empty() + list =~= list);
}

broadcast group group_heard {
    lemma_nothing_more,
    lemma_nothing_before,
    lemma_heard_add,
    lemma_timer_add,
    lemma_heard_push,
    lemma_timer_push,
    lemma_heard_reply,
    lemma_timer_reply,
    lemma_heard_broadcast,
    lemma_timer_broadcast,
}

/// A session asks for a name. A taken one is refused, and nothing changes. A
/// free one is given: the session is sent the chat so far and the states of
/// all clients, those who were there before and its own, and everybody hears
/// of it. A session that had a name is told so first.
pub proof fn law_login_outcome(
    game: GameView,
    session: SessionView,
    name: Name,
    order: Seq<Name>,
    to: u64,
)
    requires
        game.orderly(),
    ensures
        ({
            let action = ActionsView::Login { name };
            let step = game.act(session, action, order);
            let reminder = if session.name is Some {
                seq![ResponseView::LoginResult { excuse: Some("您已经加入过了"@) }]
            } else {
                seq![]
            };
            let clients = game.clients.insert(
                name,
                if game.state == GameState::Joining {
                    ClientStateView::Player(PlayerState::Alive, None)
                } else {
                    ClientStateView::Spectator
                },
            );
            let connections = game.connections.insert(name, session.id);
            &&& timer_steps(step.effects) == Seq::<EffectView>::empty()
            &&& if game.connections.contains_key(name) {
                &&& step.game == game
                &&& game.session_after(session, action) == session
                &&& heard(step.effects, to) == answer(
                    session,
                    to,
                    reminder.push(
                        ResponseView::LoginResult { excuse: Some("该名称已占用"@) },
                    ),
                )
            } else {
                &&& step.game == GameView {
                    connections,
                    order: game.order.push(name),
                    clients,
                    ..game
                }
                &&& game.session_after(session, action) == SessionView {
                    id: session.id,
                    name: Some(name),
                }
                &&& heard(step.effects, to) == answer(
                    session,
                    to,
                    reminder + seq![
                        ResponseView::LoginResult { excuse: None },
                        ResponseView::MessageHistory { history: game.history },
                        ResponseView::Overview { clients, game_state: game.state },
                    ],
                ) + times(seq![ResponseView::PlayerJoin { name }], names_at(connections, to))
            }
        }),
{
    broadcast use group_heard;

    let action = ActionsView::Login { name };
    let step = game.act(session, action, order);
    if !game.connections.contains_key(name) {
        let after = game.joined(session.id, name);
        game.order.lemma_push_to_set_commute(name);
        assert(!game.order.to_set().contains(name));
        assert(after.order.to_set() =~= after.connections.dom());
        assert(after.order.no_duplicates());
    }
    let reminder = if session.name is Some {
        seq![ResponseView::LoginResult { excuse: Some("您已经加入过了"@) }]
    } else {
        seq![]
    };
    assert(answer(session, to, reminder) + answer(
        session,
        to,
        seq![ResponseView::LoginResult { excuse: Some("该名称已占用"@) }],
    ) =~= answer(
        session,
        to,
        reminder.push(ResponseView::LoginResult { excuse: Some("该名称已占用"@) }),
    ));
    assert(timer_steps(step.effects) =~= seq![]);
}


/// Whether the text occurs is whether it is a part.
proof fn lemma_is_part(word: Seq<char>, message: Seq<char>)
    ensures
        occurs(word, message) <==> is_part(word, message),
{
    if occurs(word, message) {
        let start = choose|start: int|
            0 <= start <= message.len() - word.len() && #[trigger] message.subrange(
                start,
                start + word.len(),
            ) == word;
        let before = message.take(start);
        let after = message.skip(start + word.len());
        assert(message =~= before + word + after) by {
            assert(message.subrange(start, start + word.len()) == word);
        }
    }
    if is_part(word, message) {
        let (before, after) = choose|before: Seq<char>, after: Seq<char>|
            message == #[trigger] (before + word + after);
        let start = before.len() as int;
        assert(message.subrange(start, start + word.len()) =~= word);
    }
}

/// Who is left in the running, as a list and as a set.
proof fn lemma_left(ready: Seq<Name>, name: Name)
    requires
        ready.no_duplicates(),
    ensures
        without(ready, name).no_duplicates(),
        without(ready, name).to_set() == ready.to_set().remove(name),
        without(ready, name).len() == ready.to_set().remove(name).len(),
        without(ready, name).len() == 1 ==> without(ready, name)[0]
            == ready.to_set().remove(name).choose(),
{
    lemma_without(ready, name);
    let left = without(ready, name);
    assert forall|other: Name| left.to_set().contains(other) == ready.to_set().remove(
        name,
    ).contains(other) by {
        assert(left.contains(other) <==> ready.contains(other) && other != name);
    }
    assert(left.to_set() =~= ready.to_set().remove(name));
    left.unique_seq_to_set();
    if left.len() == 1 {
        let running = left.to_set();
        assert(running.len() == 1);
        assert(running.contains(running.choose()));
        assert(left.contains(running.choose()));
    }
}

/// A client says something: everybody hears it, and it is kept. If the sender
/// is a player in the running of a fight and the message holds its forbidden
/// word, everybody hears that it is out, with the word; it is no longer in the
/// running, and the timer starts afresh. If one is left in the running by that,
/// everybody hears who has won, and with which word; the game begins anew, and
/// the timer is stopped.
pub proof fn law_send_outcome(
    game: GameView,
    session: SessionView,
    message: Seq<char>,
    order: Seq<Name>,
    to: u64,
)
    requires
        game.orderly(),
        session.name is Some,
    ensures
        ({
            let name = session.name->0;
            let action = ActionsView::Send(message);
            let step = game.act(session, action, order);
            let count = names_at(game.connections, to);
            let client = game.clients[name];
            let word = word_of(client)->0;
            let said = game.history.push((name, message));
            let notice = "玩家 "@ + name + " 因说出NG词 "@ + word + " 而出局！"@;
            let running = game.ready.to_set().remove(name);
            let told = times(
                seq![ResponseView::MessageFrom { sender: name, content: message }],
                count,
            );
            let news = times(
                seq![
                    ResponseView::PlayerOut { quitter: name, word, suicide: false },
                    ResponseView::MessageFrom { sender: ""@, content: notice },
                    ResponseView::TimerReset { timer: 600 },
                ],
                count,
            );
            &&& game.session_after(session, action) == session
            &&& if !(game.state == GameState::Fighting && client == ClientStateView::Player(
                PlayerState::Alive,
                Some(word),
            ) && is_part(word, message)) {
                &&& step.game == GameView { history: said, ..game }
                &&& heard(step.effects, to) == told
                &&& timer_steps(step.effects) == Seq::<EffectView>::empty()
            } else if running.len() > 1 {
                &&& step.game == GameView {
                    clients: game.clients.insert(
                        name,
                        ClientStateView::Player(PlayerState::Out, Some(word)),
                    ),
                    ready: step.game.ready,
                    history: said.push((""@, notice)),
                    ..game
                }
                &&& step.game.ready.to_set() == running
                &&& step.game.ready.no_duplicates()
                &&& heard(step.effects, to) == told + news
                &&& timer_steps(step.effects) == seq![EffectView::RestartTimer]
            } else {
                running.len() == 1 && game.clients.contains_key(name) ==> {
                    &&& step.game == begun(game.connections, game.order, game.clients.dom())
                    &&& heard(step.effects, to) == told + news + times(
                        victory(running.choose(), game.clients),
                        count,
                    )
                    &&& timer_steps(step.effects) == seq![
                        EffectView::RestartTimer,
                        EffectView::CancelTimer,
                    ]
                }
            }
        }),
{
    broadcast use group_heard;

    let name = session.name->0;
    let step = game.act(session, ActionsView::Send(message), order);
    let client = game.clients[name];
    let word = word_of(client)->0;
    lemma_is_part(word, message);
    lemma_left(game.ready, name);
    if game.gives_away(name, message) {
        let out = game.after_giving_away(name, message);
        assert(out.ready == without(game.ready, name));
        assert(client == ClientStateView::Player(PlayerState::Alive, Some(word)));
        let running = game.ready.to_set().remove(name);
        if running.len() > 1 {
            assert(timer_steps(step.effects) =~= seq![EffectView::RestartTimer]);
        } else if running.len() == 1 && game.clients.contains_key(name) {
            assert(out.clients.dom() =~= game.clients.dom());
            assert(step.game.clients =~= begun(
                game.connections,
                game.order,
                game.clients.dom(),
            ).clients);
            assert(running.contains(running.choose()));
            assert(timer_steps(step.effects) =~= seq![
                EffectView::RestartTimer,
                EffectView::CancelTimer,
            ]);
        }
    } else {
        assert(timer_steps(step.effects) =~= seq![]);
    }
}

/// A client gives up: outside a fight, and for anybody but a player in the
/// running, nothing comes of it. Otherwise everybody hears that the player is
/// out by its own hand, with its word; the timer starts afresh, and the fight
/// ends, as it does when somebody says the forbidden word, with one in the
/// running.
pub proof fn law_suicide_outcome(
    game: GameView,
    session: SessionView,
    order: Seq<Name>,
    to: u64,
)
    requires
        game.orderly(),
        session.name is Some,
    ensures
        ({
            let name = session.name->0;
            let step = game.act(session, ActionsView::Suicide, order);
            let count = names_at(game.connections, to);
            let client = game.clients[name];
            let notice = "玩家 "@ + name + " 自爆出局！"@;
            let running = game.ready.to_set().remove(name);
            let news = times(
                seq![
                    ResponseView::PlayerOut {
                        quitter: name,
                        word: word_of(client)->0,
                        suicide: true,
                    },
                    ResponseView::MessageFrom { sender: ""@, content: notice },
                    ResponseView::TimerReset { timer: 600 },
                ],
                count,
            );
            &&& game.session_after(session, ActionsView::Suicide) == session
            &&& if !(game.state == GameState::Fighting && client == ClientStateView::Player(
                PlayerState::Alive,
                word_of(client),
            )) {
                &&& step.game == game
                &&& step.effects == Seq::<EffectView>::empty()
            } else if running.len() > 1 {
                &&& step.game == GameView {
                    clients: game.clients.insert(
                        name,
                        ClientStateView::Player(PlayerState::Out, word_of(client)),
                    ),
                    ready: step.game.ready,
                    history: game.history.push((""@, notice)),
                    ..game
                }
                &&& step.game.ready.to_set() == running
                &&& step.game.ready.no_duplicates()
                &&& heard(step.effects, to) == news
                &&& timer_steps(step.effects) == seq![EffectView::RestartTimer]
            } else {
                running.len() == 1 && game.clients.contains_key(name) ==> {
                    &&& step.game == begun(game.connections, game.order, game.clients.dom())
                    &&& heard(step.effects, to) == news + times(
                        victory(running.choose(), game.clients),
                        count,
                    )
                    &&& timer_steps(step.effects) == seq![
                        EffectView::RestartTimer,
                        EffectView::CancelTimer,
                    ]
                }
            }
        }),
{
    broadcast use group_heard;

    let name = session.name->0;
    let step = game.act(session, ActionsView::Suicide, order);
    let client = game.clients[name];
    lemma_left(game.ready, name);
    if game.state == GameState::Fighting && client.is_alive() {
        let out = game.after_suicide(name);
        let running = game.ready.to_set().remove(name);
        assert(out.ready == without(game.ready, name));
        if running.len() > 1 {
            assert(timer_steps(step.effects) =~= seq![EffectView::RestartTimer]);
        } else if running.len() == 1 && game.clients.contains_key(name) {
            assert(out.clients.dom() =~= game.clients.dom());
            assert(step.game.clients =~= begun(
                game.connections,
                game.order,
                game.clients.dom(),
            ).clients);
            assert(running.contains(running.choose()));
            assert(timer_steps(step.effects) =~= seq![
                EffectView::RestartTimer,
                EffectView::CancelTimer,
            ]);
        }
    }
}

/// A player who asks for it while words are picked or in a fight, with no vote
/// on, begins a vote and agrees: everybody hears of both, and nothing else of
/// the game changes. Otherwise nothing comes of it.
pub proof fn law_request_abort_outcome(
    game: GameView,
    session: SessionView,
    order: Seq<Name>,
    to: u64,
)
    requires
        game.orderly(),
        session.name is Some,
    ensures
        ({
            let name = session.name->0;
            let step = game.act(session, ActionsView::RequestAbort, order);
            &&& game.session_after(session, ActionsView::RequestAbort) == session
            &&& if (game.state == GameState::Assigning || game.state == GameState::Fighting)
                && game.clients[name] is Player && game.voting is None {
                &&& step.game == GameView {
                    voting: Some(
                        VotingView {
                            agreed: Set::empty().insert(name),
                            objection: Set::empty(),
                        },
                    ),
                    ..game
                }
                &&& heard(step.effects, to) == times(
                    seq![
                        ResponseView::StartVoteAbort,
                        ResponseView::VotedAbort { abort: true, voter: name },
                    ],
                    names_at(game.connections, to),
                )
                &&& timer_steps(step.effects) == Seq::<EffectView>::empty()
            } else {
                &&& step.game == game
                &&& step.effects == Seq::<EffectView>::empty()
            }
        }),
{
    broadcast use group_heard;

}

/// A player votes while a vote is on: everybody hears of it. It counts unless
/// the player has voted before. Once there are as many ballots as players, the
/// vote is over, and everybody hears how: if more agree than object, the game
/// begins anew and the timer is stopped.
pub proof fn law_vote_abort_outcome(
    game: GameView,
    session: SessionView,
    abort: bool,
    order: Seq<Name>,
    to: u64,
)
    requires
        game.orderly(),
        session.name is Some,
    ensures
        ({
            let name = session.name->0;
            let action = ActionsView::VoteAbort { abort };
            let step = game.act(session, action, order);
            let count = names_at(game.connections, to);
            let before = game.voting->0;
            let counts = !before.agreed.contains(name) && !before.objection.contains(name);
            let agreed = if counts && abort {
                before.agreed.insert(name)
            } else {
                before.agreed
            };
            let objection = if counts && !abort {
                before.objection.insert(name)
            } else {
                before.objection
            };
            let told = times(seq![ResponseView::VotedAbort { abort, voter: name }], count);
            &&& game.session_after(session, action) == session
            &&& if game.voting is None || !(game.clients[name] is Player) {
                &&& step.game == game
                &&& step.effects == Seq::<EffectView>::empty()
            } else if participants(game.clients).len() != agreed.len() + objection.len() {
                &&& step.game == GameView {
                    voting: Some(VotingView { agreed, objection }),
                    ..game
                }
                &&& heard(step.effects, to) == told
                &&& timer_steps(step.effects) == Seq::<EffectView>::empty()
            } else if agreed.len() > objection.len() {
                &&& step.game == begun(game.connections, game.order, game.clients.dom())
                &&& heard(step.effects, to) == told + times(
                    seq![ResponseView::VoteAbortResult { abort: true }],
                    count,
                )
                &&& timer_steps(step.effects) == seq![EffectView::CancelTimer]
            } else {
                &&& step.game == GameView { voting: None, ..game }
                &&& heard(step.effects, to) == told + times(
                    seq![ResponseView::VoteAbortResult { abort: false }],
                    count,
                )
                &&& timer_steps(step.effects) == Seq::<EffectView>::empty()
            }
        }),
{
    broadcast use group_heard;

    let name = session.name->0;
    let step = game.act(session, ActionsView::VoteAbort { abort }, order);
    if game.voting is Some && game.clients[name] is Player {
        let voted = GameView { voting: Some(game.voting->0.cast(name, abort)), ..game };
        assert(voted.players() =~= participants(game.clients));
        assert(voted.renewed().clients =~= begun(
            game.connections,
            game.order,
            game.clients.dom(),
        ).clients);
        assert(timer_steps(step.effects) =~= timer_steps(voted.tally().effects));
        assert(timer_steps(voted.tally().effects) =~= if voted.tally().effects.len() > 0
            && voted.tally().effects.last() == EffectView::CancelTimer {
            seq![EffectView::CancelTimer]
        } else {
            seq![]
        });
    }
}

/// Which characters are white space, and which texts are blank.
pub proof fn law_white_space(text: Seq<char>, c: char)
    ensures
        is_space(c) <==> is_white(c),
        is_blank_text(text) <==> forall|i: int| 0 <= i < text.len() ==> is_white(#[trigger] text[i]),
{
    lemma_white(c);
    assert forall|i: int| 0 <= i < text.len() implies is_space(#[trigger] text[i]) == is_white(
        text[i],
    ) by {
        lemma_white(text[i]);
    }
}

proof fn lemma_white(c: char)
    ensures
        is_space(c) <==> is_white(c),
{
    let list = seq![
        0x9u32, 0xa, 0xb, 0xc, 0xd, 0x20, 0x85, 0xa0, 0x1680, 0x2000, 0x2001, 0x2002, 0x2003,
        0x2004, 0x2005, 0x2006, 0x2007, 0x2008, 0x2009, 0x200a, 0x2028, 0x2029, 0x202f, 0x205f,
        0x3000,
    ];
    let code = c as u32;
    if is_space(c) {
        let place: int = if code <= 0xd {
            code - 0x9
        } else if code == 0x20 {
            5
        } else if code == 0x85 {
            6
        } else if code == 0xa0 {
            7
        } else if code == 0x1680 {
            8
        } else if code <= 0x200a {
            9 + (code - 0x2000)
        } else if code == 0x2028 {
            20
        } else if code == 0x2029 {
            21
        } else if code == 0x202f {
            22
        } else if code == 0x205f {
            23
        } else {
            24
        };
        assert(list[place] == code);
    }
}

/// While words are picked, a blank word is refused. Any other becomes the
/// forbidden word of the one its sender is to pick for, if that is a player
/// still there; the sender is told, and so it is if that client is gone.
/// Nobody else hears of it, nothing else changes, and nothing at all comes of
/// it in another phase or from somebody who has nobody to pick for.
pub proof fn law_assign_word_outcome(
    game: GameView,
    session: SessionView,
    word: Seq<char>,
    order: Seq<Name>,
    to: u64,
)
    requires
        session.name is Some,
    ensures
        ({
            let name = session.name->0;
            let action = ActionsView::AssignWord { word };
            let step = game.act(session, action, order);
            let assignee = game.assignment[name];
            &&& game.session_after(session, action) == session
            &&& timer_steps(step.effects) == Seq::<EffectView>::empty()
            &&& if game.state != GameState::Assigning {
                &&& step.game == game
                &&& step.effects == Seq::<EffectView>::empty()
            } else if forall|i: int| 0 <= i < word.len() ==> is_white(#[trigger] word[i]) {
                &&& step.game == game
                &&& heard(step.effects, to) == answer(
                    session,
                    to,
                    seq![ResponseView::AssignResult { excuse: Some("该词被禁止"@) }],
                )
            } else if !game.assignment.contains_key(name) {
                &&& step.game == game
                &&& step.effects == Seq::<EffectView>::empty()
            } else if !game.clients.contains_key(assignee) {
                &&& step.game == game
                &&& heard(step.effects, to) == answer(
                    session,
                    to,
                    seq![ResponseView::AssignResult { excuse: Some("指定对象已经无效"@) }],
                )
            } else {
                &&& step.game == GameView {
                    clients: game.clients.insert(
                        assignee,
                        match game.clients[assignee] {
                            ClientStateView::Player(state, _) => ClientStateView::Player(
                                state,
                                Some(word),
                            ),
                            ClientStateView::Spectator => ClientStateView::Spectator,
                        },
                    ),
                    ..game
                }
                &&& heard(step.effects, to) == answer(
                    session,
                    to,
                    seq![ResponseView::AssignResult { excuse: None }],
                )
            }
        }),
{
    broadcast use group_heard;

    law_white_space(word, ' ');
}

/// A client is no longer ready, and is told so; everybody hears of it if it
/// was ready.
pub proof fn law_cancel_ready_outcome(
    game: GameView,
    session: SessionView,
    order: Seq<Name>,
    to: u64,
)
    requires
        game.orderly(),
        session.name is Some,
    ensures
        ({
            let name = session.name->0;
            let step = game.act(session, ActionsView::CancelReady, order);
            &&& game.session_after(session, ActionsView::CancelReady) == session
            &&& step.game == GameView { ready: step.game.ready, ..game }
            &&& step.game.ready.to_set() == game.ready.to_set().remove(name)
            &&& step.game.ready.no_duplicates()
            &&& heard(step.effects, to) == answer(
                session,
                to,
                seq![ResponseView::ReadyResult { excuse: None }],
            ) + if game.ready.contains(name) {
                times(
                    seq![ResponseView::PlayerNotReady { name }],
                    names_at(game.connections, to),
                )
            } else {
                seq![]
            }
            &&& timer_steps(step.effects) == Seq::<EffectView>::empty()
        }),
{
    broadcast use group_heard;

    let name = session.name->0;
    let step = game.act(session, ActionsView::CancelReady, order);
    lemma_left(game.ready, name);
    assert(timer_steps(step.effects) =~= seq![]);
}

/// Whoever the places of `order` hold pick for the one behind, the last one
/// for the first; where a name stands twice, its last place counts. Nobody
/// else's pick changes.
proof fn lemma_ring_places(map: Map<Name, Name>, order: Seq<Name>, count: nat)
    requires
        count <= order.len(),
    ensures
        forall|i: int|
            0 <= i < count && (forall|j: int| i < j < count ==> order[j] != order[i]) ==> {
                &&& #[trigger] ring(map, order, count).contains_key(order[i])
                &&& ring(map, order, count)[order[i]] == next_in_ring(order, i)
            },
        forall|name: Name| #[trigger]
            ring(map, order, count).contains_key(name) <==> map.contains_key(name) || order.take(
                count as int,
            ).contains(name),
        forall|name: Name|
            map.contains_key(name) && !order.take(count as int).contains(name)
                ==> #[trigger] ring(map, order, count)[name] == map[name],
    decreases count,
{
    if count > 0 {
        let fewer = (count - 1) as nat;
        let last = order[count - 1];
        lemma_ring_places(map, order, fewer);
        assert(order.take(count as int) =~= order.take(fewer as int).push(last));
        assert forall|name: Name| #[trigger]
            order.take(count as int).contains(name) <==> order.take(fewer as int).contains(name)
                || name == last by {
            if order.take(fewer as int).contains(name) {
                let i = choose|i: int|
                    0 <= i < fewer && #[trigger] order.take(fewer as int)[i] == name;
                assert(order.take(count as int)[i] == name);
            }
            assert(order.take(count as int)[count - 1] == last);
        }
        assert forall|name: Name| #[trigger]
            ring(map, order, count).contains_key(name) <==> map.contains_key(name) || order.take(
                count as int,
            ).contains(name) by {
            assert(ring(map, order, fewer).contains_key(name) <==> map.contains_key(name)
                || order.take(fewer as int).contains(name));
            assert(order.take(count as int).contains(name) <==> order.take(fewer as int).contains(
                name,
            ) || name == last);
        }
        assert forall|i: int|
            0 <= i < count && (forall|j: int| i < j < count ==> order[j] != order[i]) implies {
            &&& #[trigger] ring(map, order, count).contains_key(order[i])
            &&& ring(map, order, count)[order[i]] == next_in_ring(order, i)
        } by {
            if i < count - 1 {
                assert(order[count - 1] != order[i]);
                assert(ring(map, order, fewer).contains_key(order[i]));
            }
        }
        assert forall|name: Name|
            map.contains_key(name) && !order.take(count as int).contains(
                name,
            ) implies #[trigger] ring(map, order, count)[name] == map[name] by {
            assert(order.take(count as int).contains(last));
            assert(ring(map, order, fewer)[name] == map[name]);
        }
    }
}

/// The place behind the last one is the first.
proof fn lemma_behind(order: Seq<Name>, index: int)
    requires
        0 <= index < order.len(),
    ensures
        next_in_ring(order, index) == if index + 1 == order.len() {
            order[0]
        } else {
            order[index + 1]
        },
{
    let len = order.len() as int;
    if index + 1 == len {
        vstd::arithmetic::div_mod::lemma_mod_self_0(len);
    } else {
        vstd::arithmetic::div_mod::lemma_small_mod((index + 1) as nat, len as nat);
    }
}

proof fn lemma_picks_told(game: GameView, order: Seq<Name>, count: nat, to: u64)
    requires
        count <= order.len(),
    ensures
        ({
            let effects = Seq::new(count, |index: int| game.assign_start(order, index)).flatten();
            &&& heard(effects, to) == picks_told(game.connections, order, count, to)
            &&& timer_steps(effects) == Seq::<EffectView>::empty()
        }),
    decreases count,
{
    broadcast use group_heard;

    let told = |index: int| game.assign_start(order, index);
    if count > 0 {
        let fewer = Seq::new((count - 1) as nat, told);
        let last = told(count - 1);
        lemma_picks_told(game, order, (count - 1) as nat, to);
        lemma_behind(order, count - 1);
        assert(Seq::new(count, told) =~= fewer.push(last));
        fewer.lemma_flatten_push(last);
        if game.connections.contains_key(order[count - 1]) {
            assert(fewer.flatten() + last =~= fewer.flatten().push(last[0]));
        } else {
            assert(fewer.flatten() + last =~= fewer.flatten());
        }
    } else {
        assert(Seq::new(0, told).flatten() =~= seq![]);
    }
}

/// Words begin to be picked in the ring `order`: each of its clients picks for
/// the one behind, the last for the first, and hears just that over its own
/// connection; where a name stands twice, its last place counts. Nobody is
/// ready, and nothing else of the game changes.
pub proof fn law_start_assigning_outcome(game: GameView, order: Seq<Name>, to: u64)
    ensures
        ({
            let step = game.start_assigning(order);
            let after = step.game.assignment;
            &&& step.game == GameView {
                state: GameState::Assigning,
                ready: seq![],
                assignment: after,
                ..game
            }
            &&& forall|name: Name| #[trigger]
                after.contains_key(name) <==> game.assignment.contains_key(name)
                    || order.contains(name)
            &&& forall|name: Name|
                game.assignment.contains_key(name) && !order.contains(name)
                    ==> #[trigger] after[name] == game.assignment[name]
            &&& forall|i: int|
                0 <= i < order.len() && (forall|j: int|
                    i < j < order.len() ==> order[j] != order[i]) ==> #[trigger] after[order[i]]
                    == if i + 1 == order.len() {
                    order[0]
                } else {
                    order[i + 1]
                }
            &&& heard(step.effects, to) == picks_told(game.connections, order, order.len(), to)
            &&& timer_steps(step.effects) == Seq::<EffectView>::empty()
        }),
{
    let step = game.start_assigning(order);
    let after = step.game.assignment;
    lemma_ring_places(game.assignment, order, order.len());
    lemma_picks_told(game, order, order.len(), to);
    assert(order.take(order.len() as int) =~= order);
    assert forall|i: int|
        0 <= i < order.len() && (forall|j: int|
            i < j < order.len() ==> order[j] != order[i]) implies #[trigger] after[order[i]]
        == if i + 1 == order.len() {
        order[0]
    } else {
        order[i + 1]
    } by {
        assert(after.contains_key(order[i]));
        lemma_behind(order, i);
    }
}

/// A client declares itself ready while players gather. The second time it is
/// told so. Otherwise it is told that it is ready, and everybody hears of it.
/// Once all clients are ready, and at least two, words are picked: in a ring
/// of all clients everybody picks for the one behind, and hears so.
pub proof fn law_ready_to_pick_outcome(
    game: GameView,
    session: SessionView,
    order: Seq<Name>,
    to: u64,
)
    requires
        game.orderly(),
        session.name is Some,
        game.state == GameState::Joining,
        order.no_duplicates(),
        order.to_set() == game.clients.dom(),
    ensures
        ({
            let name = session.name->0;
            let step = game.act(session, ActionsView::SetReady, order);
            let told = answer(session, to, seq![ResponseView::ReadyResult { excuse: None }])
                + times(seq![ResponseView::PlayerReady { name }], names_at(game.connections, to));
            let count = game.ready.len() + 1;
            &&& game.session_after(session, ActionsView::SetReady) == session
            &&& timer_steps(step.effects) == Seq::<EffectView>::empty()
            &&& if game.ready.contains(name) {
                &&& step.game == game
                &&& heard(step.effects, to) == answer(
                    session,
                    to,
                    seq![ResponseView::ReadyResult { excuse: Some("您已经准备过了"@) }],
                )
            } else if count != game.clients.dom().len() || count < 2 {
                &&& step.game == GameView { ready: game.ready.push(name), ..game }
                &&& heard(step.effects, to) == told
            } else {
                &&& step.game == GameView {
                    state: GameState::Assigning,
                    ready: seq![],
                    assignment: step.game.assignment,
                    ..game
                }
                &&& forall|i: int|
                    0 <= i < order.len() ==> #[trigger] step.game.assignment[order[i]] == if i + 1
                        == order.len() {
                        order[0]
                    } else {
                        order[i + 1]
                    }
                &&& forall|one: Name| #[trigger]
                    step.game.assignment.contains_key(one) <==> game.assignment.contains_key(one)
                        || game.clients.contains_key(one)
                &&& heard(step.effects, to) == told + picks_told(
                    game.connections,
                    order,
                    order.len(),
                    to,
                )
            }
        }),
{
    broadcast use group_heard;

    let name = session.name->0;
    let step = game.act(session, ActionsView::SetReady, order);
    let ready = game.with_ready(name);
    law_start_assigning_outcome(ready, order, to);
    assert(timer_steps(step.effects) =~= seq![]);
    if step.game.state == GameState::Assigning {
        assert forall|i: int| 0 <= i < order.len() implies #[trigger] step.game.assignment[order[i]]
            == if i + 1 == order.len() {
            order[0]
        } else {
            order[i + 1]
        } by {
            assert(forall|j: int| i < j < order.len() ==> order[j] != order[i]);
        }
        assert forall|one: Name| #[trigger]
            step.game.assignment.contains_key(one) <==> game.assignment.contains_key(one)
                || game.clients.contains_key(one) by {
            assert(order.to_set().contains(one) <==> game.clients.dom().contains(one));
        }
    }
}

proof fn lemma_words_told(game: GameView, running: Seq<Name>, to: u64)
    ensures
        ({
            let effects = running.flat_map(|player: Name| game.game_start(player));
            &&& heard(effects, to) == words_told(game.connections, game.clients, running, to)
            &&& timer_steps(effects) == Seq::<EffectView>::empty()
        }),
    decreases running.len(),
{
    broadcast use group_heard;

    let told = |player: Name| game.game_start(player);
    if running.len() == 0 {
        assert(running.map_values(told) =~= seq![]);
        assert(running.flat_map(told) =~= seq![]);
    } else {
        let rest = running.drop_last();
        let player = running.last();
        lemma_words_told(game, rest, to);
        assert(running =~= rest.push(player));
        rest.lemma_flat_map_push(told, player);
        assert(game.words_for(player) =~= words_of_others(game.clients, player));
        if game.connections.contains_key(player) {
            lemma_heard_deliveries(
                game.connections[player],
                seq![
                    ResponseView::GameStart { assigned: game.words_for(player) },
                    ResponseView::TimerReset { timer: 600 },
                ],
                to,
            );
            assert(heard(running.flat_map(told), to) =~= words_told(
                game.connections,
                game.clients,
                running,
                to,
            ));
            assert(timer_steps(running.flat_map(told)) =~= seq![]);
        } else {
            assert(rest.flat_map(told) + told(player) =~= rest.flat_map(told));
        }
    }
}

/// A client declares itself ready while words are picked. Nothing comes of it
/// for somebody who has nobody to pick for. It is refused while the one picked
/// for has no word or is gone, and told so if it is ready already. Otherwise
/// it is told that it is ready, and everybody hears of it. Once as many are
/// ready as there are players, the fight begins: everybody who is ready hears
/// the words of all other players, and the timer starts.
pub proof fn law_ready_to_fight_outcome(
    game: GameView,
    session: SessionView,
    order: Seq<Name>,
    to: u64,
)
    requires
        game.orderly(),
        session.name is Some,
        game.state == GameState::Assigning,
    ensures
        ({
            let name = session.name->0;
            let step = game.act(session, ActionsView::SetReady, order);
            let assignee = game.assignment[name];
            let ready = game.ready.push(name);
            let told = answer(session, to, seq![ResponseView::ReadyResult { excuse: None }])
                + times(seq![ResponseView::PlayerReady { name }], names_at(game.connections, to));
            &&& game.session_after(session, ActionsView::SetReady) == session
            &&& if !game.assignment.contains_key(name) {
                &&& step.game == game
                &&& step.effects == Seq::<EffectView>::empty()
            } else if !game.clients.contains_key(assignee) || word_of(game.clients[assignee])
                is None {
                &&& step.game == game
                &&& heard(step.effects, to) == answer(
                    session,
                    to,
                    seq![ResponseView::ReadyResult { excuse: Some("您还未指定词语"@) }],
                )
                &&& timer_steps(step.effects) == Seq::<EffectView>::empty()
            } else if game.ready.contains(name) {
                &&& step.game == game
                &&& heard(step.effects, to) == answer(
                    session,
                    to,
                    seq![ResponseView::ReadyResult { excuse: Some("您已经准备过了"@) }],
                )
                &&& timer_steps(step.effects) == Seq::<EffectView>::empty()
            } else if ready.len() != participants(game.clients).len() {
                &&& step.game == GameView { ready, ..game }
                &&& heard(step.effects, to) == told
                &&& timer_steps(step.effects) == Seq::<EffectView>::empty()
            } else {
                &&& step.game == GameView { state: GameState::Fighting, ready, ..game }
                &&& heard(step.effects, to) == told + words_told(
                    game.connections,
                    game.clients,
                    ready,
                    to,
                )
                &&& timer_steps(step.effects) == seq![EffectView::RestartTimer]
            }
        }),
{
    broadcast use group_heard;

    let name = session.name->0;
    let step = game.act(session, ActionsView::SetReady, order);
    let ready = game.with_ready(name);
    assert(ready.players() =~= participants(game.clients));
    lemma_words_told(ready, ready.ready, to);
    if step.game.state == GameState::Fighting {
        assert(timer_steps(step.effects) =~= seq![EffectView::RestartTimer]);
    } else {
        assert(timer_steps(step.effects) =~= seq![]);
    }
}

/// In a fight nothing comes of declaring oneself ready; and without a name
/// nothing comes of anything but a login.
pub proof fn law_no_outcome(
    game: GameView,
    session: SessionView,
    action: ActionsView,
    order: Seq<Name>,
)
    requires
        (session.name is None && !(action is Login)) || (action is SetReady && game.state
            == GameState::Fighting),
    ensures
        game.act(session, action, order).game == game,
        game.act(session, action, order).effects == Seq::<EffectView>::empty(),
        game.session_after(session, action) == session,
{
}

/// When the timer has run out, everybody hears so, and the game begins anew
/// with the same clients.
pub proof fn law_time_out_outcome(game: GameView, to: u64)
    requires
        game.orderly(),
    ensures
        ({
            let step = game.time_out();
            &&& step.game == begun(game.connections, game.order, game.clients.dom())
            &&& heard(step.effects, to) == times(
                seq![ResponseView::GameEndTimeout],
                names_at(game.connections, to),
            )
            &&& timer_steps(step.effects) == Seq::<EffectView>::empty()
        }),
{
    broadcast use group_heard;

    law_renewed_outcome(game);
}

/// Starting over leaves who is connected and who is a client, and nothing
/// else: all clients are players in the running without a word.
pub proof fn law_renewed_outcome(game: GameView)
    ensures
        game.renewed() == begun(game.connections, game.order, game.clients.dom()),
        GameView::initial() == begun(Map::empty(), seq![], Set::empty()),
{
    assert(game.renewed().clients =~= begun(
        game.connections,
        game.order,
        game.clients.dom(),
    ).clients);
    assert(GameView::initial().clients =~= begun(Map::empty(), seq![], Set::empty()).clients);
}

/// A client leaves, and takes its readiness and its ballot along. Whoever is
/// left hears that it has left.
///
/// - If that leaves as many ballots as players, the vote is over, and everybody
///   hears how before that. If more agree than object, the game begins anew
///   without the leaver, and the timer is stopped; otherwise it goes on.
/// - In a fight, everybody hears that a player in the running is out by
///   leaving, with its word; and if one is left in the running, who has won, in
///   which case the game begins anew and the timer is stopped.
/// - While words are picked, if it was a player and the one it was to pick for
///   is there without a word, everybody hears that the game cannot go on; it
///   begins anew, and the timer is stopped.
pub proof fn law_leave_outcome(game: GameView, name: Name, to: u64)
    requires
        game.orderly(),
        game.clients.contains_key(name),
    ensures
        ({
            let step = game.leave(name);
            let client = game.clients[name];
            let word = word_of(client)->0;
            let connections = game.connections.remove(name);
            let clients = game.clients.remove(name);
            let running = game.ready.to_set().remove(name);
            let count = names_at(connections, to);
            let agreed = game.voting->0.agreed.remove(name);
            let objection = game.voting->0.objection.remove(name);
            let decided = game.voting is Some && participants(clients).len() == agreed.len()
                + objection.len();
            let aborts = decided && agreed.len() > objection.len();
            let voting = if game.voting is None || decided {
                None
            } else {
                Some(VotingView { agreed, objection })
            };
            let decision = if decided {
                times(seq![ResponseView::VoteAbortResult { abort: aborts }], count)
            } else {
                seq![]
            };
            let quit = ResponseView::PlayerQuit { name };
            let deserts = game.state == GameState::Fighting && client == ClientStateView::Player(
                PlayerState::Alive,
                Some(word),
            );
            let notice = "玩家 "@ + name + " 因为退出游戏而出局！"@;
            let news = if deserts {
                times(
                    seq![
                        ResponseView::PlayerOut { quitter: name, word, suicide: false },
                        ResponseView::MessageFrom { sender: ""@, content: notice },
                        quit,
                    ],
                    count,
                )
            } else {
                times(seq![quit], count)
            };
            let stuck = game.state == GameState::Assigning && client is Player
                && game.assignment.contains_key(name) && clients.contains_key(game.assignment[name])
                && word_of(clients[game.assignment[name]]) is None;
            &&& step.game.order.no_duplicates()
            &&& step.game.order.to_set() == connections.dom()
            &&& if aborts {
                &&& step.game == begun(connections, step.game.order, clients.dom())
                &&& heard(step.effects, to) == decision + times(seq![quit], count)
                &&& timer_steps(step.effects) == seq![EffectView::CancelTimer]
            } else if game.state == GameState::Fighting && running.len() <= 1 {
                running.len() == 1 ==> {
                    &&& step.game == begun(connections, step.game.order, clients.dom())
                    &&& heard(step.effects, to) == decision + news + times(
                        victory(running.choose(), clients),
                        count,
                    )
                    &&& timer_steps(step.effects) == seq![EffectView::CancelTimer]
                }
            } else if stuck {
                &&& step.game == begun(connections, step.game.order, clients.dom())
                &&& heard(step.effects, to) == decision + news + times(
                    seq![ResponseView::GameEndUnproceedable],
                    count,
                )
                &&& timer_steps(step.effects) == seq![EffectView::CancelTimer]
            } else {
                &&& step.game == GameView {
                    connections,
                    order: step.game.order,
                    clients,
                    ready: step.game.ready,
                    voting,
                    history: if deserts {
                        game.history.push((""@, notice))
                    } else {
                        game.history
                    },
                    ..game
                }
                &&& step.game.ready.to_set() == running
                &&& step.game.ready.no_duplicates()
                &&& heard(step.effects, to) == decision + news
                &&& timer_steps(step.effects) == Seq::<EffectView>::empty()
            }
        }),
{
    broadcast use group_heard;

    let step = game.leave(name);
    let client = game.clients[name];
    let removed = game.removed(name);
    let clients = game.clients.remove(name);
    let running = game.ready.to_set().remove(name);
    lemma_left(game.ready, name);
    lemma_left(game.order, name);
    assert(removed.order.to_set() =~= removed.connections.dom());
    assert(removed.players() =~= participants(clients));
    law_renewed_outcome(removed);
    let vote = removed.tally();
    let left = game.after_leaving(name);
    law_renewed_outcome(left);
    assert(left.connections == removed.connections && left.order == removed.order);
    let end = left.proceed(name, client);
    assert(begun(left.connections, left.order, left.clients.dom()) == begun(
        removed.connections,
        removed.order,
        clients.dom(),
    )) by {
        assert(left.clients.dom() =~= clients.dom());
    }
    let decided = game.voting is Some && removed.players().len() == removed.voting->0.ballots();
    let aborts = decided && removed.voting->0.agreed.len() > removed.voting->0.objection.len();
    assert(timer_steps(vote.effects) =~= if aborts {
        seq![EffectView::CancelTimer]
    } else {
        seq![]
    });
    let ends = !aborts && step.game.state == GameState::Joining && game.state
        != GameState::Joining;
    assert(timer_steps(end.effects) =~= if ends {
        seq![EffectView::CancelTimer]
    } else {
        seq![]
    });
    if running.len() == 1 {
        assert(running.contains(running.choose()));
    }
}

/// When a client can say something: outside a fight always; in a fight it must
/// be there, and if it goes out by that, the fight must have an outcome.
pub proof fn law_can_send_exactly(game: GameView, session: SessionView, message: Seq<char>)
    requires
        game.orderly(),
        session.name is Some,
    ensures
        ({
            let name = session.name->0;
            let client = game.clients[name];
            let goes_out = client == ClientStateView::Player(PlayerState::Alive, word_of(client))
                && word_of(client) is Some && is_part(word_of(client)->0, message);
            game.can_act(session, ActionsView::Send(message)) <==> {
                ||| game.state != GameState::Fighting
                ||| game.clients.contains_key(name) && (!goes_out || has_outcome(
                    game.ready.to_set().remove(name),
                    game.clients,
                ))
            }
        }),
{
    let name = session.name->0;
    let client = game.clients[name];
    lemma_is_part(word_of(client)->0, message);
    if game.state == GameState::Fighting && game.clients.contains_key(name) && game.gives_away(
        name,
        message,
    ) {
        lemma_can_settle(game, game.after_giving_away(name, message), name);
    }
}

/// When a client can give up: outside a fight always; in a fight it must be
/// there, and if it goes out by that, there must be a word to show, if anybody
/// is there to see it, and the fight must have an outcome.
pub proof fn law_can_suicide_exactly(game: GameView, session: SessionView)
    requires
        game.orderly(),
        session.name is Some,
    ensures
        ({
            let name = session.name->0;
            let client = game.clients[name];
            let goes_out = client == ClientStateView::Player(PlayerState::Alive, word_of(client));
            game.can_act(session, ActionsView::Suicide) <==> {
                ||| game.state != GameState::Fighting
                ||| game.clients.contains_key(name) && (!goes_out || {
                    &&& word_of(client) is Some || game.order.len() == 0
                    &&& has_outcome(game.ready.to_set().remove(name), game.clients)
                })
            }
        }),
{
    let name = session.name->0;
    if game.state == GameState::Fighting && game.clients.contains_key(name)
        && game.clients[name].is_alive() {
        lemma_can_settle(game, game.after_suicide(name), name);
    }
}

/// A fight without a player has an outcome if it can be settled.
proof fn lemma_can_settle(game: GameView, out: GameView, name: Name)
    requires
        game.ready.no_duplicates(),
        out.ready == without(game.ready, name),
        forall|other: Name|
            other != name ==> (#[trigger] out.clients.contains_key(other)
                <==> game.clients.contains_key(other)),
        forall|other: Name| other != name ==> #[trigger] out.clients[other] == game.clients[other],
    ensures
        out.can_settle() <==> has_outcome(game.ready.to_set().remove(name), game.clients),
{
    let running = game.ready.to_set().remove(name);
    lemma_left(game.ready, name);
    if running.len() == 1 {
        let winner = running.choose();
        assert(running.contains(winner));
        assert(out.ready[0] == winner && winner != name);
        assert(out.clients.contains_key(winner) <==> game.clients.contains_key(winner));
        assert(out.clients[winner] == game.clients[winner]);
    }
}

/// When a client can declare itself ready: always, unless the fight begins by
/// it and somebody connected would be shown a word that is missing.
pub proof fn law_can_set_ready_exactly(game: GameView, session: SessionView)
    requires
        session.name is Some,
    ensures
        ({
            let name = session.name->0;
            let ready = game.ready.push(name);
            let assignee = game.assignment[name];
            let begins = game.state == GameState::Assigning && game.assignment.contains_key(name)
                && game.clients.contains_key(assignee) && word_of(game.clients[assignee]) is Some
                && !game.ready.contains(name) && ready.len() == participants(game.clients).len();
            game.can_act(session, ActionsView::SetReady) <==> !begins || words_shown(
                game.connections,
                game.clients,
                ready,
            )
        }),
{
    let name = session.name->0;
    let after = game.with_ready(name);
    assert(after.players() =~= participants(game.clients));
    if words_shown(game.connections, game.clients, after.ready) {
        assert forall|player: Name, other: Name|
            #![trigger after.ready.contains(player), after.clients.contains_key(other)]
            after.ready.contains(player) && after.connections.contains_key(player)
                && after.clients.contains_key(other) && after.clients[other].is_player() && other
                != player implies after.clients[other].word() is Some by {}
    }
    if after.words_known() {
        assert forall|player: Name, other: Name|
            #![trigger after.ready.contains(player), game.clients.contains_key(other)]
            after.ready.contains(player) && game.connections.contains_key(player)
                && game.clients.contains_key(other) && game.clients[other] is Player && other
                != player implies word_of(game.clients[other]) is Some by {
            assert(after.clients.contains_key(other));
        }
    }
}

/// Whether there is a word to show of every player to everybody else who is
/// ready and connected.
pub open spec fn words_shown(
    connections: Map<Name, u64>,
    clients: Map<Name, ClientStateView>,
    ready: Seq<Name>,
) -> bool {
    forall|player: Name, other: Name|
        #![trigger ready.contains(player), clients.contains_key(other)]
        ready.contains(player) && connections.contains_key(player) && clients.contains_key(other)
            && clients[other] is Player && other != player ==> word_of(clients[other]) is Some
}

/// When all the rest can be done: a vote needs a client, and so does asking for
/// one once the game is on. Everything else can always be done, and without a
/// name so can everything.
pub proof fn law_can_act_exactly(game: GameView, session: SessionView, action: ActionsView)
    requires
        session.name is None || !(action is Send || action is Suicide || action is SetReady),
    ensures
        game.can_act(session, action) <==> {
            ||| session.name is None
            ||| game.clients.contains_key(session.name->0)
            ||| action is RequestAbort && game.state == GameState::Joining
            ||| !(action is RequestAbort || action is VoteAbort)
        },
{
}

/// When a session can end: only a client can leave, and unless its leaving
/// makes a vote abort the game, it must leave a fight an outcome.
pub proof fn law_can_leave_exactly(game: GameView, name: Name)
    requires
        game.orderly(),
    ensures
        game.can_leave(name) <==> {
            let clients = game.clients.remove(name);
            let agreed = game.voting->0.agreed.remove(name);
            let objection = game.voting->0.objection.remove(name);
            let aborts = game.voting is Some && participants(clients).len() == agreed.len()
                + objection.len() && agreed.len() > objection.len();
            &&& game.clients.contains_key(name)
            &&& game.state == GameState::Fighting && !aborts ==> has_outcome(
                game.ready.to_set().remove(name),
                clients,
            )
        },
{
    let running = game.ready.to_set().remove(name);
    lemma_left(game.ready, name);
    assert(game.removed(name).players() =~= participants(game.clients.remove(name)));
    if running.len() == 1 {
        assert(running.contains(running.choose()));
    }
}

/// The rings of a game are the lists that hold each of its clients once, and
/// nobody else.
pub proof fn law_rings_list_everybody(game: GameView, order: Seq<Name>)
    ensures
        game.is_ring(order) <==> {
            &&& forall|i: int, j: int|
                0 <= i < order.len() && 0 <= j < order.len() && i != j ==> order[i] != order[j]
            &&& forall|name: Name| #[trigger]
                order.contains(name) <==> game.clients.contains_key(name)
        },
{
    if game.is_ring(order) {
        assert forall|name: Name| #[trigger] order.contains(name) <==> game.clients.contains_key(
            name,
        ) by {
            assert(order.to_set().contains(name) <==> game.clients.dom().contains(name));
        }
    }
    if forall|name: Name| #[trigger] order.contains(name) <==> game.clients.contains_key(name) {
        assert forall|name: Name| order.to_set().contains(name) == game.clients.dom().contains(
            name,
        ) by {
            assert(order.contains(name) <==> game.clients.contains_key(name));
        }
        assert(order.to_set() =~= game.clients.dom());
    }
}

/// What is heard has been sent.
proof fn lemma_heard_is_sent(effects: Seq<EffectView>, to: u64, response: ResponseView)
    ensures
        heard(effects, to).contains(response) <==> effects.contains(
            EffectView::Send { to, response },
        ),
    decreases effects.len(),
{
    let item = EffectView::Send { to, response };
    if effects.len() > 0 {
        let rest = effects.drop_last();
        let last = effects.last();
        lemma_heard_is_sent(rest, to, response);
        assert(effects =~= rest.push(last));
        if rest.contains(item) {
            let i = choose|i: int| 0 <= i < rest.len() && rest[i] == item;
            assert(effects[i] == item);
        }
        if effects.contains(item) {
            let i = choose|i: int| 0 <= i < effects.len() && effects[i] == item;
            if i < rest.len() {
                assert(rest[i] == item);
            }
        }
        let earlier = heard(rest, to);
        let now = heard(effects, to);
        if earlier.contains(response) {
            let i = choose|i: int| 0 <= i < earlier.len() && earlier[i] == response;
            assert(now[i] == response);
        }
        if last == item {
            assert(now[earlier.len() as int] == response);
            assert(effects[effects.len() - 1] == item);
        }
        if now.contains(response) {
            let i = choose|i: int| 0 <= i < now.len() && now[i] == response;
            if i < earlier.len() {
                assert(earlier[i] == response);
            }
        }
    }
}

/// What is heard a number of times over.
proof fn lemma_times(list: Seq<ResponseView>, count: nat, response: ResponseView)
    ensures
        times(list, count).contains(response) <==> count > 0 && list.contains(response),
    decreases count,
{
    if count > 0 {
        let earlier = times(list, (count - 1) as nat);
        lemma_times(list, (count - 1) as nat, response);
        lemma_in_either(earlier, list, response);
    }
}

proof fn lemma_in_either(one: Seq<ResponseView>, other: Seq<ResponseView>, response: ResponseView)
    ensures
        (one + other).contains(response) <==> one.contains(response) || other.contains(response),
{
    let both = one + other;
    if one.contains(response) {
        let i = choose|i: int| 0 <= i < one.len() && one[i] == response;
        assert(both[i] == response);
    }
    if other.contains(response) {
        let i = choose|i: int| 0 <= i < other.len() && other[i] == response;
        assert(both[one.len() + i] == response);
    }
    if both.contains(response) {
        let i = choose|i: int| 0 <= i < both.len() && both[i] == response;
        if i < one.len() {
            assert(one[i] == response);
        } else {
            assert(other[i - one.len()] == response);
        }
    }
}

/// The connection of a name goes by at least that name.
proof fn lemma_goes_by(game: GameView, name: Name)
    requires
        game.orderly(),
        game.connections.contains_key(name),
    ensures
        names_at(game.connections, game.connections[name]) > 0,
{
    let names = names_of(game.connections, game.connections[name]);
    vstd::seq_lib::seq_to_set_is_finite(game.order);
    assert(names.contains(name));
    assert(names.subset_of(game.order.to_set()));
    vstd::set_lib::lemma_set_subset_finite(game.order.to_set(), names);
    vstd::set_lib::lemma_set_empty_equivalency_len(names);
}

/// When a fight begins, everybody who is ready is sent words over its own
/// connection: of every other player, of nobody else, and for each the word it
/// has. No other words are sent to anybody.
pub proof fn law_words_of_all_the_others(
    game: GameView,
    session: SessionView,
    order: Seq<Name>,
    to: u64,
    assigned: Map<Name, Seq<char>>,
    player: Name,
)
    requires
        game.orderly(),
        session.name is Some,
        game.state == GameState::Assigning,
        game.act(session, ActionsView::SetReady, order).game.state == GameState::Fighting,
    ensures
        ({
            let effects = game.act(session, ActionsView::SetReady, order).effects;
            let item = EffectView::Send { to, response: ResponseView::GameStart { assigned } };
            let ready = game.ready.push(session.name->0);
            &&& effects.contains(item) <==> exists|receiver: Name|
                {
                    &&& #[trigger] ready.contains(receiver)
                    &&& game.connections.contains_key(receiver)
                    &&& game.connections[receiver] == to
                    &&& are_words_for(assigned, game.clients, receiver)
                }
        }),
{
    let effects = game.act(session, ActionsView::SetReady, order).effects;
    let name = session.name->0;
    let ready = game.ready.push(name);
    let response = ResponseView::GameStart { assigned };
    let count = names_at(game.connections, to);
    law_ready_to_fight_outcome(game, session, order, to);
    lemma_heard_is_sent(effects, to, response);
    let reply = answer(session, to, seq![ResponseView::ReadyResult { excuse: None }]);
    let told = times(seq![ResponseView::PlayerReady { name }], count);
    lemma_in_either(
        reply + told,
        words_told(game.connections, game.clients, ready, to),
        response,
    );
    lemma_in_either(reply, told, response);
    lemma_times(seq![ResponseView::PlayerReady { name }], count, response);
    lemma_told_words(game.connections, game.clients, ready, to, assigned);
}

/// Whether the words are those of all players but one: of every other player,
/// of nobody else, and for each the word it has.
pub open spec fn are_words_for(
    assigned: Map<Name, Seq<char>>,
    clients: Map<Name, ClientStateView>,
    receiver: Name,
) -> bool {
    &&& forall|name: Name| #[trigger]
        assigned.contains_key(name) <==> clients.contains_key(name) && clients[name] is Player
            && name != receiver
    &&& forall|name: Name| #[trigger]
        assigned.contains_key(name) ==> assigned[name] == word_of(clients[name])->0
}

proof fn lemma_told_words(
    connections: Map<Name, u64>,
    clients: Map<Name, ClientStateView>,
    running: Seq<Name>,
    to: u64,
    assigned: Map<Name, Seq<char>>,
)
    ensures
        words_told(connections, clients, running, to).contains(
            ResponseView::GameStart { assigned },
        ) <==> exists|receiver: Name|
            {
                &&& #[trigger] running.contains(receiver)
                &&& connections.contains_key(receiver)
                &&& connections[receiver] == to
                &&& are_words_for(assigned, clients, receiver)
            },
    decreases running.len(),
{
    let response = ResponseView::GameStart { assigned };
    if running.len() > 0 {
        let rest = running.drop_last();
        let last = running.last();
        lemma_told_words(connections, clients, rest, to, assigned);
        assert forall|one: Name| #[trigger]
            running.contains(one) <==> rest.contains(one) || one == last by {
            if rest.contains(one) {
                let i = choose|i: int| 0 <= i < rest.len() && rest[i] == one;
                assert(running[i] == one);
            }
            if running.contains(one) {
                let i = choose|i: int| 0 <= i < running.len() && running[i] == one;
                if i < rest.len() {
                    assert(rest[i] == one);
                }
            }
            assert(running[running.len() - 1] == last);
        }
        assert(running.contains(last));
        let words = words_of_others(clients, last);
        assert(are_words_for(assigned, clients, last) <==> assigned == words) by {
            if are_words_for(assigned, clients, last) {
                assert(assigned =~= words);
            }
        }
        let earlier = words_told(connections, clients, rest, to);
        let now = words_told(connections, clients, running, to);
        if connections.contains_key(last) && connections[last] == to {
            let added = seq![
                ResponseView::GameStart { assigned: words },
                ResponseView::TimerReset { timer: 600 },
            ];
            assert(now =~= earlier + added);
            lemma_in_either(earlier, added, response);
            assert(added.contains(response) <==> assigned == words) by {
                assert(added[0] == (ResponseView::GameStart { assigned: words }));
                if added.contains(response) {
                    let i = choose|i: int| 0 <= i < added.len() && added[i] == response;
                    assert(i == 0);
                }
            }
        }
        if exists|receiver: Name|
            {
                &&& #[trigger] rest.contains(receiver)
                &&& connections.contains_key(receiver)
                &&& connections[receiver] == to
                &&& are_words_for(assigned, clients, receiver)
            } {
            let receiver = choose|receiver: Name|
                {
                    &&& #[trigger] rest.contains(receiver)
                    &&& connections.contains_key(receiver)
                    &&& connections[receiver] == to
                    &&& are_words_for(assigned, clients, receiver)
                };
            assert(running.contains(receiver));
        }
        if exists|receiver: Name|
            {
                &&& #[trigger] running.contains(receiver)
                &&& connections.contains_key(receiver)
                &&& connections[receiver] == to
                &&& are_words_for(assigned, clients, receiver)
            } {
            let receiver = choose|receiver: Name|
                {
                    &&& #[trigger] running.contains(receiver)
                    &&& connections.contains_key(receiver)
                    &&& connections[receiver] == to
                    &&& are_words_for(assigned, clients, receiver)
                };
            assert(rest.contains(receiver) || receiver == last);
        }
    }
}

/// When words begin to be picked, every client is told over its own connection
/// whom it picks for, which is the one that the game has it pick for; and
/// nobody is told anything else about picking.
pub proof fn law_picks_are_told_as_they_are(
    game: GameView,
    session: SessionView,
    order: Seq<Name>,
    to: u64,
    assignee: Name,
)
    requires
        game.orderly(),
        session.name is Some,
        game.state == GameState::Joining,
        order.no_duplicates(),
        order.to_set() == game.clients.dom(),
        game.act(session, ActionsView::SetReady, order).game.state == GameState::Assigning,
    ensures
        ({
            let step = game.act(session, ActionsView::SetReady, order);
            let item = EffectView::Send { to, response: ResponseView::AssignStart { assignee } };
            &&& step.effects.contains(item) <==> exists|name: Name|
                {
                    &&& #[trigger] game.clients.contains_key(name)
                    &&& game.connections.contains_key(name)
                    &&& game.connections[name] == to
                    &&& step.game.assignment[name] == assignee
                }
        }),
{
    let step = game.act(session, ActionsView::SetReady, order);
    let name = session.name->0;
    let response = ResponseView::AssignStart { assignee };
    let count = names_at(game.connections, to);
    law_ready_to_pick_outcome(game, session, order, to);
    lemma_heard_is_sent(step.effects, to, response);
    let reply = answer(session, to, seq![ResponseView::ReadyResult { excuse: None }]);
    let told = times(seq![ResponseView::PlayerReady { name }], count);
    let picks = picks_told(game.connections, order, order.len(), to);
    lemma_in_either(reply + told, picks, response);
    lemma_in_either(reply, told, response);
    lemma_times(seq![ResponseView::PlayerReady { name }], count, response);
    lemma_told_picks(game.connections, order, order.len(), to, assignee);
    if picks.contains(response) {
        let i = choose|i: int|
            0 <= i < order.len() && game.connections.contains_key(#[trigger] order[i])
                && game.connections[order[i]] == to && is_behind(order, i, assignee);
        assert(order.to_set().contains(order[i]));
        assert(game.clients.contains_key(order[i]));
        assert(step.game.assignment[order[i]] == assignee);
    }
    if exists|one: Name|
        {
            &&& #[trigger] game.clients.contains_key(one)
            &&& game.connections.contains_key(one)
            &&& game.connections[one] == to
            &&& step.game.assignment[one] == assignee
        } {
        let one = choose|one: Name|
            {
                &&& #[trigger] game.clients.contains_key(one)
                &&& game.connections.contains_key(one)
                &&& game.connections[one] == to
                &&& step.game.assignment[one] == assignee
            };
        assert(order.to_set().contains(one));
        let i = choose|i: int| 0 <= i < order.len() && order[i] == one;
        assert(step.game.assignment[order[i]] == assignee);
        assert(is_behind(order, i, assignee));
    }
}

spec fn is_behind(order: Seq<Name>, i: int, name: Name) -> bool {
    name == if i + 1 == order.len() {
        order[0]
    } else {
        order[i + 1]
    }
}

proof fn lemma_told_picks(
    connections: Map<Name, u64>,
    order: Seq<Name>,
    count: nat,
    to: u64,
    assignee: Name,
)
    requires
        count <= order.len(),
    ensures
        picks_told(connections, order, count, to).contains(
            ResponseView::AssignStart { assignee },
        ) <==> exists|i: int|
            0 <= i < count && connections.contains_key(#[trigger] order[i])
                && connections[order[i]] == to && is_behind(order, i, assignee),
    decreases count,
{
    let response = ResponseView::AssignStart { assignee };
    if count > 0 {
        let fewer = (count - 1) as nat;
        lemma_told_picks(connections, order, fewer, to, assignee);
        let earlier = picks_told(connections, order, fewer, to);
        let name = order[count - 1];
        if connections.contains_key(name) && connections[name] == to {
            let behind = if count == order.len() {
                order[0]
            } else {
                order[count as int]
            };
            let added = seq![ResponseView::AssignStart { assignee: behind }];
            assert(picks_told(connections, order, count, to) =~= earlier + added);
            lemma_in_either(earlier, added, response);
            assert(added[0] == (ResponseView::AssignStart { assignee: behind }));
            assert(added.contains(response) <==> is_behind(order, count - 1, assignee));
        }
        if exists|i: int|
            0 <= i < count && connections.contains_key(#[trigger] order[i])
                && connections[order[i]] == to && is_behind(order, i, assignee) {
            let i = choose|i: int|
                0 <= i < count && connections.contains_key(#[trigger] order[i])
                    && connections[order[i]] == to && is_behind(order, i, assignee);
            assert(i < fewer || i == count - 1);
        }
    }
}

/// While words are picked and no vote is on, a player who leaves somebody
/// behind without a word, to be picked by nobody else, ends the game: it begins
/// anew without the leaver, and everybody left hears that it cannot go on. Any
/// other client leaves the game where it is, and nobody hears such a thing.
pub proof fn law_nobody_is_left_without_a_word(game: GameView, name: Name, hearer: Name)
    requires
        game.orderly(),
        game.state == GameState::Assigning,
        game.voting is None,
        game.clients.contains_key(name),
        game.connections.contains_key(hearer),
        hearer != name,
    ensures
        ({
            let step = game.leave(name);
            let news = EffectView::Send {
                to: game.connections[hearer],
                response: ResponseView::GameEndUnproceedable,
            };
            let assignee = game.assignment[name];
            if game.clients[name] is Player && game.assignment.contains_key(name)
                && game.clients.contains_key(assignee) && assignee != name && (
            game.clients[assignee] is Spectator || game.clients[assignee] matches ClientStateView::Player(
                _,
                None,
            )) {
                &&& step.effects.contains(news)
                &&& step.game == begun(
                    game.connections.remove(name),
                    step.game.order,
                    game.clients.dom().remove(name),
                )
            } else {
                &&& !step.effects.contains(news)
                &&& step.game.state == GameState::Assigning
                &&& step.game.clients == game.clients.remove(name)
                &&& step.game.assignment == game.assignment
            }
        }),
{
    let step = game.leave(name);
    let to = game.connections[hearer];
    let response = ResponseView::GameEndUnproceedable;
    let connections = game.connections.remove(name);
    let count = names_at(connections, to);
    law_leave_outcome(game, name, to);
    lemma_heard_is_sent(step.effects, to, response);
    let quit = seq![ResponseView::PlayerQuit { name }];
    lemma_times(quit, count, response);
    lemma_times(seq![response], count, response);
    lemma_in_either(Seq::empty() + times(quit, count), times(seq![response], count), response);
    assert(Seq::empty() + times(quit, count) =~= times(quit, count));
    assert(seq![response][0] == response);
    assert(count > 0) by {
        let names = names_of(connections, to);
        vstd::seq_lib::seq_to_set_is_finite(game.order);
        assert(names.contains(hearer));
        assert(names.subset_of(game.order.to_set()));
        vstd::set_lib::lemma_set_subset_finite(game.order.to_set(), names);
        vstd::set_lib::lemma_set_empty_equivalency_len(names);
    }
    assert(game.clients.remove(name).dom() =~= game.clients.dom().remove(name));
}

/// Whoever asks for a vote that can begin is heard by everybody.
pub proof fn law_a_vote_is_heard_of(
    game: GameView,
    session: SessionView,
    order: Seq<Name>,
    hearer: Name,
)
    requires
        game.orderly(),
        session.name is Some,
        game.state != GameState::Joining,
        game.clients[session.name->0] is Player,
        game.voting is None,
        game.connections.contains_key(hearer),
    ensures
        ({
            let name = session.name->0;
            let step = game.act(session, ActionsView::RequestAbort, order);
            let to = game.connections[hearer];
            &&& step.effects.contains(
                EffectView::Send { to, response: ResponseView::StartVoteAbort },
            )
            &&& step.effects.contains(
                EffectView::Send {
                    to,
                    response: ResponseView::VotedAbort { abort: true, voter: name },
                },
            )
            &&& step.game.voting matches Some(voting)
            &&& forall|one: Name| #[trigger] voting.agreed.contains(one) <==> one == name
            &&& forall|one: Name| !#[trigger] voting.objection.contains(one)
        }),
{
    let name = session.name->0;
    let step = game.act(session, ActionsView::RequestAbort, order);
    let to = game.connections[hearer];
    let count = names_at(game.connections, to);
    let news = seq![
        ResponseView::StartVoteAbort,
        ResponseView::VotedAbort { abort: true, voter: name },
    ];
    law_request_abort_outcome(game, session, order, to);
    lemma_goes_by(game, hearer);
    assert(news[0] == ResponseView::StartVoteAbort);
    assert(news[1] == (ResponseView::VotedAbort { abort: true, voter: name }));
    lemma_times(news, count, news[0]);
    lemma_times(news, count, news[1]);
    lemma_heard_is_sent(step.effects, to, news[0]);
    lemma_heard_is_sent(step.effects, to, news[1]);
}

/// Whoever logs in under a free name is shown every client, the ones that were
/// there before as they were, and itself; and no other picture.
pub proof fn law_newcomers_see_everybody(
    game: GameView,
    session: SessionView,
    name: Name,
    order: Seq<Name>,
    clients: Map<Name, ClientStateView>,
    game_state: GameState,
)
    requires
        game.orderly(),
        !game.connections.contains_key(name),
    ensures
        ({
            let step = game.act(session, ActionsView::Login { name }, order);
            let item = EffectView::Send {
                to: session.id,
                response: ResponseView::Overview { clients, game_state },
            };
            &&& step.effects.contains(item) <==> clients == step.game.clients && game_state
                == game.state
            &&& step.game.clients.contains_key(name)
            &&& forall|one: Name|
                one != name ==> (#[trigger] step.game.clients.contains_key(one)
                    <==> game.clients.contains_key(one))
            &&& forall|one: Name|
                one != name ==> #[trigger] step.game.clients[one] == game.clients[one]
        }),
{
    let step = game.act(session, ActionsView::Login { name }, order);
    let to = session.id;
    let response = ResponseView::Overview { clients, game_state };
    let count = names_at(step.game.connections, to);
    law_login_outcome(game, session, name, order, to);
    lemma_heard_is_sent(step.effects, to, response);
    let reminder = if session.name is Some {
        seq![ResponseView::LoginResult { excuse: Some("您已经加入过了"@) }]
    } else {
        seq![]
    };
    let picture = seq![
        ResponseView::LoginResult { excuse: None },
        ResponseView::MessageHistory { history: game.history },
        ResponseView::Overview { clients: step.game.clients, game_state: game.state },
    ];
    let joins = seq![ResponseView::PlayerJoin { name }];
    lemma_in_either(reminder + picture, times(joins, count), response);
    lemma_in_either(reminder, picture, response);
    lemma_times(joins, count, response);
    assert(picture[2] == (ResponseView::Overview {
        clients: step.game.clients,
        game_state: game.state,
    }));
    if picture.contains(response) {
        let i = choose|i: int| 0 <= i < picture.len() && picture[i] == response;
        assert(i == 2);
    }
}

/// A lost connection ends a session; no other error does, and no message,
/// whatever it is. Everything but a request can always be dealt with, and so
/// can the end of a session without a name.
pub proof fn law_sessions(
    game: GameView,
    session: SessionView,
    message: IncomingView,
    action: ActionsView,
)
    ensures
        message.is_fatal() <==> {
            ||| message == IncomingView::Failed(TransportError::ConnectionClosed)
            ||| message == IncomingView::Failed(TransportError::AlreadyClosed)
            ||| message == IncomingView::Failed(TransportError::Io)
            ||| message == IncomingView::Failed(TransportError::AttackAttempt)
        },
        !(message is Action) ==> can_process(game, session, message),
        can_process(game, session, IncomingView::Action(action)) == game.can_act(session, action),
        can_close(game, session) == (session.name is None || game.can_leave(session.name->0)),
{
}

/// What there is to a client: a player has a state and perhaps a word, which it
/// keeps when it goes out; a spectator has neither.
pub proof fn law_parts_of_clients(state: PlayerState, held: Option<Seq<char>>, word: Seq<char>)
    ensures
        ({
            let player = ClientStateView::Player(state, held);
            let spectator = ClientStateView::Spectator;
            &&& player.is_player()
            &&& player.word() == held
            &&& player.is_alive() == (state == PlayerState::Alive)
            &&& player.with_word(word) == ClientStateView::Player(state, Some(word))
            &&& player.out() == ClientStateView::Player(PlayerState::Out, held)
            &&& !spectator.is_player()
            &&& spectator.word() is None
            &&& !spectator.is_alive()
            &&& spectator.with_word(word) == spectator
            &&& spectator.out() == spectator
        }),
{
}

/// Contracts speak of whole lists, item by item.
pub proof fn law_lists_are_whole(
    effects: Seq<Effect>,
    responses: Seq<Response>,
    lines: Seq<(String, String)>,
    i: int,
)
    ensures
        effects_view(effects).len() == effects.len(),
        0 <= i < effects.len() ==> effects_view(effects)[i] == effects[i]@,
        responses_view(responses).len() == responses.len(),
        0 <= i < responses.len() ==> responses_view(responses)[i] == responses[i]@,
        lines_view(lines).len() == lines.len(),
        0 <= i < lines.len() ==> lines_view(lines)[i] == (lines[i].0@, lines[i].1@),
{
}

/// Contracts speak of all there is to a game and to a session.
pub proof fn law_games_are_whole(game: Game, session: Session)
    ensures
        game@.state == game.state,
        game@.connections == game.connections@,
        game@.order == game.connections.keys(),
        game@.clients == game.client_states@,
        game@.ready == game.ready_players@,
        game@.assignment == game.assignment_map@,
        game@.history == lines_view(game.message_history@),
        game.voting_session is None <==> game@.voting is None,
        game.voting_session matches Some(voting) ==> game@.voting->0.agreed
            == voting.agreed@.to_set() && game@.voting->0.objection == voting.objection@.to_set(),
        session@.id == session.id,
        session.name is None <==> session@.name is None,
        session.name matches Some(name) ==> session@.name == Some(name@),
{
}

/// Contracts speak of all there is to a request and to a client.
pub proof fn law_requests_are_whole(action: Actions, client: ClientState)
    ensures
        match action {
            Actions::Login { name } => action@ == (ActionsView::Login { name: name@ }),
            Actions::Send(message) => action@ == ActionsView::Send(message@),
            Actions::Suicide => action@ == ActionsView::Suicide,
            Actions::RequestAbort => action@ == ActionsView::RequestAbort,
            Actions::VoteAbort { abort } => action@ == (ActionsView::VoteAbort { abort }),
            Actions::AssignWord { word } => action@ == (ActionsView::AssignWord { word: word@ }),
            Actions::SetReady => action@ == ActionsView::SetReady,
            Actions::CancelReady => action@ == ActionsView::CancelReady,
        },
        match client {
            ClientState::Player(state, Some(word)) => client@ == ClientStateView::Player(
                state,
                Some(word@),
            ),
            ClientState::Player(state, None) => client@ == ClientStateView::Player(state, None),
            ClientState::Spectator => client@ == ClientStateView::Spectator,
        },
{
}

/// Contracts speak of all that a response says.
pub proof fn law_responses_are_whole(effect: Effect, response: Response)
    ensures
        match effect {
            Effect::Send { to, response } => effect@ == (EffectView::Send {
                to,
                response: response@,
            }),
            Effect::RestartTimer => effect@ == EffectView::RestartTimer,
            Effect::CancelTimer => effect@ == EffectView::CancelTimer,
        },
        match response {
            Response::LoginResult { excuse: None } => response@ == (ResponseView::LoginResult {
                excuse: None,
            }),
            Response::LoginResult { excuse: Some(text) } => response@
                == (ResponseView::LoginResult { excuse: Some(text@) }),
            Response::MessageFrom { sender, content } => response@ == (ResponseView::MessageFrom {
                sender: sender@,
                content: content@,
            }),
            Response::AssignResult { excuse: None } => response@ == (ResponseView::AssignResult {
                excuse: None,
            }),
            Response::AssignResult { excuse: Some(text) } => response@
                == (ResponseView::AssignResult { excuse: Some(text@) }),
            Response::PlayerOut { quitter, word, suicide } => response@
                == (ResponseView::PlayerOut { quitter: quitter@, word: word@, suicide }),
            Response::PlayerReady { name } => response@ == (ResponseView::PlayerReady {
                name: name@,
            }),
            Response::ReadyResult { excuse: None } => response@ == (ResponseView::ReadyResult {
                excuse: None,
            }),
            Response::ReadyResult { excuse: Some(text) } => response@
                == (ResponseView::ReadyResult { excuse: Some(text@) }),
            Response::PlayerNotReady { name } => response@ == (ResponseView::PlayerNotReady {
                name: name@,
            }),
            Response::TimerReset { timer } => response@ == (ResponseView::TimerReset { timer }),
            Response::GameWin { winner, word } => response@ == (ResponseView::GameWin {
                winner: winner@,
                word: word@,
            }),
            Response::GameEndTimeout => response@ == ResponseView::GameEndTimeout,
            Response::GameEndUnproceedable => response@ == ResponseView::GameEndUnproceedable,
            Response::StartVoteAbort => response@ == ResponseView::StartVoteAbort,
            Response::VotedAbort { abort, voter } => response@ == (ResponseView::VotedAbort {
                abort,
                voter: voter@,
            }),
            Response::VoteAbortResult { abort } => response@ == (ResponseView::VoteAbortResult {
                abort,
            }),
            Response::AssignStart { assignee } => response@ == (ResponseView::AssignStart {
                assignee: assignee@,
            }),
            Response::GameStart { assigned } => response@ == (ResponseView::GameStart {
                assigned: assigned@,
            }),
            Response::Overview { clients, game_state } => response@ == (ResponseView::Overview {
                clients: clients@,
                game_state,
            }),
            Response::MessageHistory { history } => response@ == (ResponseView::MessageHistory {
                history: lines_view(history@),
            }),
            Response::PlayerJoin { name } => response@ == (ResponseView::PlayerJoin {
                name: name@,
            }),
            Response::PlayerQuit { name } => response@ == (ResponseView::PlayerQuit {
                name: name@,
            }),
        },
{
}

} // verus!
