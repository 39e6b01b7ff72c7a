# tiny_rust

A family of tiny Unix tools and servers (greeters, `yes`, `cat`, `wc`, Base64, Base32,
SHA-256, FNV-1a, a random-number generator, an XOR packer, a bump allocator, an X11
client, proxies and a load balancer, an SMTP server, HTTP key-value, object and block-chain
stores, a small SQL database, three message brokers, a BPE tokenizer and two text
generators), written so that the logic of every tool is verified with Verus.

- `src/` is the verified library: parsers, encoders, protocol state machines, stores and
  their HTTP front ends, each function with a contract over a mathematical model, and the
  laws that tie the functions together (round trips, what a read gives back after a write,
  fairness of the load balancer, the broker's partition sharing, and so on).
- `tests/` runs the library on concrete values.
- `app/` is the command `tiny <tool> [args...]`: sockets, files, signals, processes and the
  floating-point models, calling into the library for every decision.
