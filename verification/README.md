# mimir_call_mediator

A group audio call mediator for the Mimir messenger, on the Yggdrasil network.
It forwards the encrypted packets of each participant of a call to every other
participant (selective forwarding), and never looks into them.

- `src/` is the library: the wire format, sessions and participants, the control
  commands, the way of a datagram, and the identity key. It is written in Verus.
  Every function states what it does, and the proofs hold for all inputs. They
  rest on ten small wrappers around std and the crates `hex`, `rand` and
  `ed25519-dalek`, whose contracts are not proved; each says so above it.
  `src/consistency.rs` and `src/laws.rs` state what holds of the whole.
- `app/` is the program around it: arguments, the key file, the network node and
  the tasks that read and write.
- `tests/` runs the library on given values.

The library does no input or output. A control stream hands it events (opened, a
frame, ended), the media port hands it datagrams, and it hands back the messages
and the datagrams that are to be sent.

## Running

The mediator needs at least one peer to reach the network:

```
mimir-call-mediator --peer tls://example.peer.host:12345
```

`--peer` (`-p`) can be repeated; `--help` (`-h`) prints the usage. The identity
key is kept in `call_mediator.key`, as 32 bytes or as 64 hexadecimal digits, and
is made on the first run.
