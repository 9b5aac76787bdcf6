# KokonaChat

A peer-to-peer chat without servers: UDP over IPv6 or IPv4, end-to-end
encryption, and addresses that are learned from friends. The library is written
in Verus; what it does is stated in contracts and proved.

- An identity is an Ed25519 key pair whose public key is the user ID. Messages
  are sealed with X25519, HKDF-SHA256 and AES-256-GCM, and every packet is
  signed.
- A message that is not acknowledged is sent again up to three times, two
  seconds apart, and then kept until the friend shows itself.
- A lost address is asked for once, of common friends only. Nobody passes a
  question on.

## Layout

| Path | What it holds |
|---|---|
| `src/crypto` | Keys, user IDs, the cipher, and the calls into the cryptographic crates |
| `src/proto` | The plaintexts inside packets |
| `src/net` | Packets, addresses, retransmission, attachments, address lookup and the node itself; the laws about them |
| `src/store` | The friend list and the lines of the message file |
| `src/tui`, `src/gui`, `src/headless.rs` | The state behind the interfaces |
| `src/backup.rs`, `src/deeplink`, `src/ipc.rs`, `src/account.rs`, `src/config.rs` | Backups, links, requests between processes, accounts, settings |
| `src/table.rs`, `src/text.rs`, `src/bytes.rs`, `src/scan.rs`, `src/util.rs` | Tools |
| `tests` | Tests of the library |
| `app` | The program: command line, files, sockets, screens |

## How it fits together

The node (`net::node::Network`) does no I/O. It is handed datagrams, commands
and the time, and returns the datagrams to send and the events to show. The
contract of each step relates the whole world before it (node, friend list,
outputs) to the world after it. `app` owns the socket, the clock and the files.

The laws are public proof functions whose names begin with `law_`: that a
message which reaches a friend is shown once and acknowledged, that an attachment
is put together again from its chunks in any order, that failed messages go out
when an address is learned, that addresses are told among common friends only,
that links, packets and backups read back as what was written.

Functions marked `#[verifier::external_body]` call other crates or the system;
their contracts are believed, and the comment above each says what is claimed.
