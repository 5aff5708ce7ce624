# meshping

A cross-platform network diagnostic toolkit: ping, port scan, host
discovery, traceroute and DNS lookup.

- `src/` is the library, verified with Verus: reading the output of the
  system `ping` and `traceroute` commands, reply-time statistics (held in
  microseconds), port range lists and well-known services, scan results,
  the hosts of a CIDR block, DNS lookup results, and the text of IPv4 and
  IPv6 addresses. Each public function states its result exactly over
  specification functions; the `law_*` proof functions state properties
  that hold across calls.
- `app/` is the command-line program around it: argument parsing (clap),
  running `ping`/`traceroute`, TCP connections and DNS queries (tokio,
  hickory-resolver), and printing tables or JSON.
- `tests/` runs the library on concrete inputs.
