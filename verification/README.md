# rucompart

Process compartments: a tarpc service runs in a forked child, in a
standalone process, or on another host, and its caller talks to it over a
socket.

- `src/` is the verified library: socket addresses and the addresses a
  channel offers (`address`), channels and the steps of connecting and
  accepting (`chan`), how a compartment is reached and the name of its
  address variable (`compartment`), the demo service's greeting (`service`),
  and character helpers (`text`).
- `app/` performs the I/O around those decisions with tokio, tarpc, libc and
  netdev: the `Compartment` trait, its macros, the channel transports and the
  demos.
- `tests/` runs the library on concrete values.
