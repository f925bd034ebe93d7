# fraud_api

The request handling of a fraud-scoring HTTP service, written in Verus.

- `src/` is the verified library: locating JSON values by key, reading
  integers, booleans, strings, timestamps and the extent of decimal numbers,
  extracting a scoring request's facts, scanning the risk table, and splitting
  a connection's buffer into HTTP requests.
- `app/` is the service around it: configuration files, sockets and epoll,
  the floating-point feature vector and the nearest-neighbour engine.
- `tests/` exercises the library on concrete inputs.
