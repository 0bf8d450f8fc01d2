# ng_server

A server for the NG word game. Players gather; everybody picks a forbidden word
for the next one in a ring; then all of them talk, and whoever says the own
forbidden word is out. The last one in the running wins.

- `src/` holds the rules of the game, verified with Verus.
  - `protocol`: requests, responses and the states they speak of.
  - `names`: a set and a map of client names, in the order of their arrival.
  - `model`: the rules as mathematics. Each request leads from a game to the next
    game and to a list of effects: responses to send, a timer to start or stop.
  - `game`: the game itself; every operation does what `model` says.
  - `guard`: tells beforehand whether a request can be carried out.
  - `session`: what is done with what comes in over a connection.
  - `text`, `chance`: texts and random order, the only places that lean on code
    that is not verified here.
  - `laws`: what holds of every game, whatever is asked of it in which order.
- `tests/` plays games on concrete values.
- `app/` is the server: websockets, JSON, timers and logging around the library.
  It performs the effects that the library asks for. It listens on port 1453.
