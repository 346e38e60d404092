# bgpsim

A verified core of a BGP and OSPF control-plane simulator. The library is written in Verus: each
public function carries a contract, and the proofs are checked by the verifier.

## Layout

- `src/config.rs` — network-wide configurations: expressions, keys, modifiers and patches. A
  configuration is modelled as a map from keys to expressions. The difference of two
  configurations, applied to the first, gives the second (`law_diff_applies`), and a modifier
  followed by its reverse changes nothing (`law_reverse_undoes`).
- `src/forwarding_state.rs` — the next hops of every router for every prefix; forwarding paths,
  loops and black holes (`get_route`), the routers reachable along the paths, predecessors,
  terminals and the difference of two states.
- `src/external_router.rs` — routers of other ASes that advertise routes; every change can be
  undone step by step.
- `src/event.rs`, `src/bgp.rs` — BGP messages, events and a first-in first-out event queue.
- `src/route_map.rs` — route-map items and their builder.
- `src/export/` — configuration text for Cisco IOS (route-map items, interfaces, OSPF, BGP, the
  loopbacks that carry advertised prefixes, and the complete configuration of internal and
  external routers in `cisco_config.rs`), for ExaBGP (sessions, and the Python script that
  replays the history of routes), and the assignment of networks to prefixes.
- `src/topology_zoo.rs` — topologies of the Internet Topology Zoo.
- `src/components.rs`, `src/draw.rs` — colors and CSS classes of buttons and drawn elements.
- `src/formatter.rs` — text for values that name routers by id.
- `src/text.rs`, `src/assoc.rs`, `src/types.rs` — decimal and IPv4 text, association lists,
  identifiers and errors.
- `app/` — a small command-line program and the floating-point drawing transformations.
- `tests/` — tests of the library.
