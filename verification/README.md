# actor_apps

Example programs for the `mm1` actor runtime, with their decision logic
verified in Verus.

- `src/` — the verified library:
  - `command`, `echo_protocol`, `ring`, `relay`, `latency`: the echo ring
    (console commands, the ring of relay nodes, a node's relaying role, the
    latency report of the `test` command);
  - `chat_protocol`, `room`, `connection`: the group chat (the room's members
    and history, what a connection does after a read);
  - `bounce`: the two-node game of catch;
  - `hierarchy`: the actor-hierarchy example's stray-message address.
- `app/` — the programs themselves: the runtime, the console, TCP, timers.
- `tests/` — tests of the library on concrete values.
