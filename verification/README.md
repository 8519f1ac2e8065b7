# p2p_rtc

Peer-to-peer data channels between browsers, negotiated through a relay
server socket. The protocol logic is verified with Verus in `src/`:

- `text`: whitespace trimming, first-word splitting, decimal parsing and
  formatting of ids, with the UTF-8 reasoning that ties byte positions to
  characters.
- `utils`: `munch_u64`, single-owner cells, and `WaitTimer`, the clock of a
  polling wait.
- `websocket`: the message gatherer, listener dispatch, the id handshake of a
  fresh socket and the retry policy.
- `p2p_connection`: connection errors and timeouts, the receive queue of a
  data channel, the listening peer's whitelist, the channel-open check, and
  (in `inner`) message formats and the readers of the server's and peers'
  replies, with the round-trip laws between them.

`app/` holds the browser side: timers, the WebSocket, the WebRTC objects and
the async loops. They hand the protocol decisions to the library; what the
caller decides (its callbacks and listeners) and the order of the browser
calls stay there.
