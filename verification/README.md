# hemlock

The control-plane logic of a switch operating system, with its behaviour stated
as contracts and proved by Verus.

- `src/` is the library. It holds the protocol engines (spanning tree, link
  aggregation, LLDP, multicast snooping, DHCP snooping and relay, 802.1X, sFlow,
  the SNMP subagent), the routing table's way into the hardware, the readers of
  routing-daemon and NTP output, and the board side: platform manifests, their
  lint, i2c bring-up and the quirk hooks.
- Engines are plain state machines. A method takes the event and the time, and
  returns what to send or to program; nothing in `src/` waits, reads or writes.
- `app/` is the daemon around the library: sockets, files, processes, timers and
  the request interface.
- `tests/` runs the library on concrete inputs.

Public proof functions named `lemma_…` state what holds across calls: that an
encoder's frames parse back, that a difference of two tables turns one into the
other, that a blocked port never forwards, and the like.

What is taken on trust is small and marked `external_body` or
`assume_specification`: text quoting and lossy decoding of std, JSON parsing by
`serde_json`, and calendar arithmetic by `chrono`.
