# protohackers

Three small TCP services with a verified core:

- `echo_server`: sends back every read, closes on an empty read.
- `means_to_an_end_server`: decodes 9-byte messages (a type character and two
  big-endian two's-complement `i32` fields), stores each client's prices and
  answers mean queries.
- `prime_time_server`: frames a byte stream into newline-terminated JSON
  requests, answers `isPrime` requests, and buffers newline-terminated
  responses.

`src/` holds the library, verified with Verus: the decisions the services
take on received bytes, with contracts and the laws of the framing, the
replies, the decoding, the price queries and the primality test. `app/` holds
the sockets, threads, reads and writes, the JSON (de)serialisation with
serde, and the conversion of JSON floats (the library holds no floating
point). `tests/` runs the library
on concrete inputs.
