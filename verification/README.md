# antidistractor

A distraction blocker for Linux and macOS: it blocks websites (a TLS
ClientHello classifier on Linux, the hosts file on macOS), stops blocked
applications from running (exec permission events on Linux, process polling
on macOS), freezes and thaws processes, enforces a night-time screen lock, and
takes commands over a Unix control socket.

The decisions are a library verified with Verus; the program around it does
the system work.

- `src/` — the verified library.
  - `sni.rs`: reading the server name of an outbound ClientHello and the
    classifier's verdict against the blocklist (exact names and `.suffix`
    keys, TCP to port 443 only). This is a verified model of the kernel
    classifier: the program the daemon loads is a separately built kernel
    object (read from `ANTIDISTRACTOR_BPF_OBJECT` or
    `/usr/local/lib/antidistractor/antidistractor-ebpf`), and the verified
    properties hold for it only as far as it implements this model. The keys
    it looks up are the library's `domain_key`s.
  - `pf_blocker.rs`: the marked block of entries in the hosts file, and the
    laws that rewriting keeps every other line and replaces the old block.
  - `app_blocker.rs`, `app_watcher.rs`: which executables and processes are
    blocked; the event records and responses of the exec blocker.
  - `process_utils.rs`, `process_freezer.rs`: process listings, the process
    tree in children-first order, and the frozen-process table.
  - `control.rs`: the control commands, the backend operations each one makes
    and what it does to the state, and the responses.
  - `screen_lock.rs`, `ui.rs`, `daemon.rs`, `notifications.rs`: the lock
    daemon's decisions, the terminal interface's state machine, start-up
    choices and notification texts.
  - `strset.rs`, `text.rs`, `numeric.rs`: sorted string sets, text splitting
    and number parsing with their specifications.
- `app/` — the program: sockets, files, the kernel interfaces, the terminal.
- `tests/` — tests of the library.
