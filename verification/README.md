# BigPaw

A messenger for the local network without a server. Nodes find each other over
mDNS and small UDP announcements, talk over mutually authenticated TLS, and speak
IPMSG with those who use it.

- `src/` is the library: rules, formats and state machines, with contracts that
  Verus checks. It opens no socket and no file.
- `app/` is a node without a window around it: sockets, threads, files and the
  database. It takes commands as lines of JSON and prints answers and events.
- `tests/` runs the library on given values.

| module | what it holds |
| --- | --- |
| `hub` | a running node: roster, settings, records, routes |
| `roster`, `groups` | who is there; groups and their versions |
| `discovery` | announcements and mDNS records |
| `transport` | frames, files, and what each connection is for |
| `ipmsg` | IPMSG packets, discovery, file and directory transfer |
| `net_ifaces`, `net_scope`, `reach` | interfaces, subnets, allowed networks, and who is told of the node |
| `storage` | messages, transfers, known peers, kept groups |
| `identity`, `digest` | certificates and fingerprints |
| `settings`, `notify`, `shell` | what the user sets, sees and asks for |
| `text`, `split`, `numeral`, `utf8`, `json`, `seqs`, `order`, `table`, `addr`, `moment` | what the others are built on |

What is taken from other crates stands behind functions marked
`#[verifier::external_body]`; the comment above each says what is believed of it.
