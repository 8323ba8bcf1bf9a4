# UnityLAN

A WireGuard mesh whose members are whoever holds a role in a community. A coordinator says who is a
member and signs it; the engine on each device checks the signatures, keeps the tunnel, the
firewall, the names and the certificate up to date, and answers its owner on a control socket.

`src/` is the library, written in Verus: everything that is decided or computed, with contracts over
mathematical models and their proofs. It opens no socket and reads no clock of its own beside
`clock`: what happens is handed to it, and it says what is to be done.

| modules | what they are about |
| --- | --- |
| `text`, `order`, `assoc`, `net`, `url`, `clock`, `wire` | text, sorting, maps, addresses, URLs, time, DNS messages |
| `mesh`, `coord`, `keys`, `membership` | peers, the coordinator's answers, pinned anchors, who is a member |
| `daemon`, `lifecycle`, `tunnel`, `peering`, `netcfg` | the engine's loop, its peers, and the owner's decisions |
| `beacon`, `ice`, `upnp`, `ping`, `p2p`, `mesh_services` | ways to a peer, and what peers tell one another |
| `fw`, `dns`, `zone`, `cert`, `proxy` | the firewall, names, challenges, certificates, web services |
| `control`, `ctl`, `command`, `oauth`, `config` | the control socket, the command line, the login, the settings |
| `versions`, `release`, `api` | change counters, which release is newer, and the types that requests are made of |

A proof function whose name begins with `law_` states what holds across functions.

`app/` is the program around the library: the command line, sockets, files, and the host's own tools.
It is ordinary Rust. Signatures and key arithmetic are left to a helper program, `unitylan-helper`.

`tests/` runs the library on concrete values.
