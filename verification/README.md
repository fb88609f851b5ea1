# tailnat

TailNAT forwards public TCP/UDP ports of a Linux gateway to services on
Tailscale peers. It owns three iptables chains (`TAILNAT_PRE`,
`TAILNAT_POST`, `TAILNAT_FWD`) and is driven through a small HTTP API that
only tailnet peers on an allow list may use.

- `src/` is the library, verified with Verus: the configuration and its
  rules, the plan of iptables commands that an update runs (with the guard
  that keeps a half-done update closed), the reading of `iptables-save`
  output and of the Tailscale CLI's JSON, and the API's decisions.
- `app/` is the program around it: command line, HTTP server (axum),
  running `iptables` and `tailscale`, saving the configuration.
- `tests/` runs the library on concrete inputs.
