# bandix-connection

Connection statistics of a router, read from the conntrack tables of its kernel:
the flows with both of their directions, and counts of connections by state, over all
and for each device of the local network.

- `src/` is the library, verified with Verus.
  - `text`, `number`, `address`: cutting text, and reading numbers and IP addresses.
  - `network`, `devices`: subnets and prefixes, and which device owns an address.
  - `conntrack`: how the command is run and what its output gives.
  - `entry`, `flows`, `stats`: the entries of a dump, its flows and its counts.
  - `monitor`: what the monitor does on each event.
  - `laws`: what holds of all of it together.
- `app/` runs the command, reads the system's tables and the clock, and drives the
  monitor.
- `tests/` runs the library on examples.
