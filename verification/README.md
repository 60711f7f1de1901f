# masqr

The core of a MASQUE tunnel for Windows. It registers a device, opens a CONNECT-IP tunnel over
HTTP/3 or HTTP/2, carries packets between a Wintun adapter and the tunnel, answers the machine's DNS
by a policy, and routes into the tunnel what that policy's answers name.

## Layout

- `src/` is the library, written in Verus: everything the core decides, parses, frames and reports.
  Each function carries a contract that Verus proves, and each module's laws stand beside what they
  are about as public proof functions named `law_*`.
- `tests/` runs the library on concrete values.
- `app/` is the program around it: the command line, sockets, QUIC and HTTP/2 connections, files, the
  registry, the adapter and the named pipe. It hands the library plain values and does what the
  library answers.

## Modules

| module | what it holds |
| --- | --- |
| `transport` | varints, capsules, QPACK, HTTP/3 frames, the ClientHello strategies, which carrier to ride, and opening a tunnel over either |
| `queue` | the queue in front of the tunnel: flow queueing, CoDel, acknowledgement thinning |
| `dns` | messages, the policy, leases, who asked, the upstreams, and the resolver over them |
| `engine` | when to open, carry, wait, step down and hand over |
| `state`, `tun` | what is routed into the adapter, and which interface leads around it |
| `control`, `names`, `link`, `log` | what the core is told and tells, the name policy, and interface changes |
| `warp` | the device: its keys, its registration and its replacement |
| `diagnose`, `probe`, `report`, `up`, `options` | the commands, and what they print |

## What is believed without proof

Calls into other crates stand behind small wrappers and declarations whose contracts are not proved;
each says in its comment which function it is about and what is claimed of it. `buffer` holds those
for byte buffers; the others stand in the module that makes the call.

Times are milliseconds where nothing else is said; the queue and the parking of HTTP/3 count
nanoseconds.
