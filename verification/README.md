# lightning_tracker

A WebSocket client for the live lightning feed of blitzortung.org, verified with Verus.

`src/` is the verified library. The client's connection life cycle is a typestate
(`Uninitialised`, `Disconnected`, `Detected`, `Connected`); each transition takes the outcome of
the network step before it and is specified over the client's URL, handshake headers and stream.
The library builds the probe and upgrade requests, reads cookies out of the probe's answer,
classifies the handshake answer, builds masked frames, reads frame headers, decodes UTF-8
payloads and LZW-compressed messages. Proof functions state the laws: a built frame reads back to
its payload, encoded text decodes back to its characters, LZW decoding inverts the standard LZW
compressor, and literal LZW codes decode to themselves.

`app/` holds the parts that Verus does not see: sockets and TLS, the reading thread, and the JSON
records with floating-point fields.
