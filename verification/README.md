# magpie-bt

The core of a BitTorrent engine, with its behaviour stated in contracts and
proved by Verus.

- `src/` is the library. It holds no sockets, files, clocks or tasks: events
  come in as plain values, and what is to be done comes out as plain values.
  - `bencode` — a strict decoder and a canonical encoder.
  - `picker` — which piece to fetch next.
  - `session` — one torrent: parameters, messages, the session's rules
    (`model`, `torrent`), peer connections (`peer`), uploads (`peer_upload`),
    choking (`choker`), bandwidth (`shaper`), metadata and peer exchange, the
    read cache, disk work, resume state and counters, and the UDP demultiplexer.
  - `storage` — the storage trait, storage in memory, the layout of a torrent
    over several files, and the steps that set it up on disk.
  - `engine` — the registry of torrents and peers, and `announce` the announces
    to trackers and the DHT.
  - `lsd`, `metrics_exporter`, `alerts`, `peer_filter`, `peer_id` — discovery on
    the local network, exported counters, alerts, and identities.
- `tests/` runs the library.
- `app/` is the engine on tokio: it carries out what the library decides.

Times are nanoseconds on one monotonic clock. Laws that hold across functions
are proof functions whose names start with `law_`.
