# retinue

Verified protocol logic for Reticulum peers and packet radio: identities, announces, links,
resources, a reliable byte stream, transport-node routing, and the radio layer beneath them
(framing, airtime accounting, LoRa timing, mesh text packets, the direct-PHY USB protocol).

`src/` is the library. It does no I/O: every function takes plain values and gives plain values
back, and states in `requires` / `ensures` what it does. Verus proves it. Properties that span
functions stand beside them as `law_` proof functions; those of whole runs (`delivery`,
`lossless`, `honesty`, `bytestream`, `completion`, `progress`) have modules of their own.
Cryptography, compression, and randomness come from outside crates; the contracts that are
believed of them stand on the wrappers in `crypto.rs`, `resource.rs`, `entropy.rs`, `text.rs`, and
`lora.rs`.

`tests/` runs the library with the real crates linked. `app/` is ordinary Rust around the
library: the tokio endpoint that carries out routing decisions over sockets, and the device loop
of the direct-PHY radio. `app/board.rs` is the bring-up of one board for that loop; it needs the
board's own crates and is not part of the host build.

| Area | Modules |
| --- | --- |
| Wire vocabulary | `hash`, `packet`, `rns_identity`, `destination`, `announce`, `path`, `token` |
| Links | `link` |
| Resources | `msgpack`, `advertisement`, `leniency`, `resource`, `resource_transfer`, `completion`, `progress` |
| Reliable streaming | `channel`, `buffer`, `delivery`, `lossless`, `honesty`, `reliable`, `bytestream`, `driver` |
| Routing | `address_book`, `router`, `table` |
| Framing | `stuffing`, `kiss`, `hdlc`, `stream` |
| Radio | `airtime`, `lora`, `modem`, `phy` |
| Meshes | `identity`, `advert`, `transport`, `application`, `node` |
