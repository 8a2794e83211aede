# Rotonda

The routing logic of a BGP engine, as a verified library: a routing information
base with its queries, the reading of BMP streams, and the re-streaming of the
base to BMP consumers.

- `src/net.rs`, `src/ingress.rs`, `src/wire.rs`, `src/text.rs`: addresses,
  prefixes, sources, octets and text.
- `src/payload.rs`: routes, their path attributes, and the updates that carry
  them.
- `src/mem_stats.rs`: numbers for the memory report.
- `src/units/bmp_tcp_in/`: framing of BMP streams.
- `src/units/bmp_tcp_out/`: BMP messages, their packing, the initial table dump,
  and what a consumer is sent after it.
- `src/units/rib_unit/`: the prefix store, the tables on top of it, searches and
  their answers.
- `app/`: sockets, tasks, HTTP and JSON around the library.

The contracts state what the functions return and change; the public proof
functions state what holds across them, such as that a walk over the table sends
every live route exactly once to a consumer that refuses no message. What is
taken on trust of outside crates is marked `external_body` or
`assume_specification`, each with a comment that names the outside function.
