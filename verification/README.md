# vivoh-quic-dash

Delivers a DASH presentation over QUIC with WebTransport. A publisher reads the files that
an encoder writes, or a pipe, and sends each segment as one media packet to a server. The
server keeps the last packets and passes every packet on to the players.

The library holds the rules of both programs and no input or output. It is written in
Verus: each function states its result, and the proof functions named `law_...` state what
holds across functions.

- `src/` is the library: packets and their wire form, manifests and their timings, the
  names of segments, addresses, the readers, the client, the channels and the server.
- `tests/` are its tests.
- `app/` holds the programs: sockets, files, timers, arguments and the XML of manifests.

```
vqd server --cert cert.pem --key key.pem
vqd publisher --input /path/to/dash --server https://your.vqd-server.com
```

Media packets are sent as a header of sixteen bytes (id, timestamp, duration) and five
fields, each after its length in eight bytes: the manifest, the two initialization segments
(audio, video) and the two segments (audio, video). All numbers are big-endian.
