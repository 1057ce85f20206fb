# async_dispatcher

Systems declare the resources they read and write; a dispatcher grants that
access so that no resource is written by one holder while another holds it.

- `src/async_dispatcher/` — resource ids, requirement lists and their
  composition for tuples, the lock table (`resource_locks`) with its laws, the
  dispatcher and its builder, and the glue to the `minimum` world. That
  granted requests never conflict is proved of the lock table; the
  dispatcher keeps the table behind a lock, so its own contracts state only
  what holds whatever other holders have.
- `src/minimum.rs` — a world holding one value per type, the `Read`/`Write`
  requirement markers and the borrows they fetch.
- `app/` — the futures that wait for access, the game loop, the `shred`
  integration and the example program.
