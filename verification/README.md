# paxos

A replica of a multi-paxos group, verified with Verus.

A node is a function from its state and a command to its next state and the actions that it asks
of the transport: to move a key to a round, to move it one step on, or to send a command to a
peer. `src/model.rs` states these functions; `src/node.rs` and `src/inbox.rs` carry them out and
are proved to do exactly that.

| Where | What |
| --- | --- |
| `ballot`, `round`, `commands`, `value` | ballots, keys and rounds, the commands and the values they carry |
| `acceptor`, `window`, `proposer`, `config`, `comm` | the parts of a node |
| `model` | the reactions of a node as functions on its state |
| `node`, `inbox`, `readiness`, `replica` | the node itself, and when it can react |
| `liveness` | leadership election by timeout |
| `growth`, `quorum`, `events`, `stamps`, `proposals` | what holds across reactions |
| `agreement`, `group` | agreement on a slot, and in a group of nodes |
| `app/` | a node over a set transport |

A node reacts to a command only where it is ready for it: what it sends goes to peers, and slot
and ballot numbers do not run out. `Node::is_ready_for` tells.
