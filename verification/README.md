# pingora-enclavia

An attested network tunnel to a remote Nitro enclave, built on Pingora. The proxy reads the
enclave's id off the leftmost label of the `Host` header, looks up the enclave's target, dials
it through a tunnel that verifies the enclave's measurements, and forwards the request.

## Layout

- `src/` is the library, verified with Verus. It does no I/O.
  - `registry`: the targets of a watched directory, one `<uuid>.json` per enclave
  - `proxy`: what becomes of a request, what its response carries, how it is logged
  - `tunnel`, `config`, `measurement`, `identity`: dialling, configuration, PCRs, enclave ids
  - `test_responder`, with `noise`, `message`, `framing` and `http_echo`: the other end of a
    tunnel, which echoes stream bytes or answers HTTP requests
  - `http_fields`, `text`: HTTP header fields and character-level helpers
- `app/` is the program around it: command line, sockets, the file-system watch, Pingora. Started
  under the name `noise-echo`, it is the other end of a tunnel.
- `tests/` runs the library, with the real Noise, CBOR, UUID and header crates.

## Laws

Public proof functions named `law_...` state what holds across functions, among them:

- in echo mode, everything sent on the open stream comes back, chunk by chunk and in order; in
  HTTP mode every complete request is answered, in order
- an answer is one self-delimiting HTTP response
- attestation documents are bound to the handshake of their connection
- how bytes are cut into chunks of a stream, or into socket messages, does not matter
- every file of a listing that can be loaded is served after a scan; once `<uuid>.json` is gone,
  nothing is known of that enclave, and what came from any other file goes with that file; a
  malformed file is reported to the enclave it is named after
- notices of the watch are followed in order, with failures between them
- a host that starts with an enclave's id leads to that enclave's target, or to a refusal that
  names its kind
- the measurements in the response headers decode to those of the target, and an upstream cannot
  forge them
- each request gets a key of its own, which keeps it from sharing a connection

## Refusals

| status | `X-Enclavia-Tunnel-Error` | when |
|---|---|---|
| 404 | `config_not_found` | the host names no enclave, or one without a target |
| 502 | `bad_config` | the enclave's target file is malformed |
| 502 | `tunnel_dial` | the enclave could not be reached |
