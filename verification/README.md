# arora_behavior

Verified behavior orchestration for Arora devices, and the pure-logic half of
the ROS 2 bridge, written in Verus.

`src/` holds the library; every function in it carries a contract that Verus
proves:

- `value`, `status`, `nodes`: the value plane and the run-status vocabulary
  (`Success`/`Failure`/`Running` and their enumeration form), and the
  tree nodes that call well-known module functions.
- `tree`: behavior trees — authored trees lowered into an arena (each
  constant in a cell of its own, one shared cell per variable), a function
  index naming the module that provides each callable function, and a tick
  whose status, cell writes, `seq_star` cursors and the calls it hands the
  bridge (module, function, arguments, in order) are exactly those that
  `tick_spec` gives for the answers the leaf calls returned. Any host
  `CallBridge` works: the tree reaches it through a `LoggedBridge`, which
  records each call and the answer the host gave.
- `graph`: the shared behavior graph and the `GraphDiff` edit, with the
  laws that loading a graph onto an empty one reproduces it and that every
  edit keeps it well formed.
- `keys`, `profile`, `config`, `msg_types`, `cdr`: the ROS 2 naming
  conventions, exposure profiles (globs, include rewrites, coverage), the
  bridge configuration and its routing decisions, the `std_msgs` vocabulary,
  and CDR framing with round-trip laws.
- `outbound`: the latest-value-per-key seam between the device step and the
  publisher (later writes win; draining empties it).
- `goals`: the action goal book — acceptance, the status-key lifecycle,
  the ROS cancel policy, priority arbitration and the bounded result cache.
- `bridge`, `type_hash`: bridge errors, device metadata, the offline
  bridge, and the type-hash failure.
- `subscriber`: the decisions of a key subscription's receive loop — what a
  delivered message publishes, when it is dropped, the doubling retry wait
  and when the stream gives up.

`tests/` exercises the library from outside; `app/` is the unverified edge
(the clock, the lock around the outbound seam, the tick-until-done loop and
the subscription receive loop).
