# xmmrpc

Userspace RPC control for the Intel XMM7360 LTE modem (Fibocom L850-GL),
driven through the WWAN control port of the in-tree `iosm` kernel driver.

The protocol logic is a library verified with Verus:

- `src/codec.rs`, `src/codec/`: the firmware's ASN.1-like payload codec.
  `encode.rs` holds the format language of `pack` and the fields it writes,
  `decode.rs` the fields a payload holds and the `Reader` that reads them,
  `laws.rs` what decoding gives back of an encoding.
- `src/requests.rs`: request bodies and the decoders of their replies.
- `src/transport.rs`: request headers, frame lengths and the classification
  of incoming messages.
- `src/modem.rs`: the decisions of the bring-up sequence (readiness probe,
  FCC unlock, mode set, attach status and its retry, address selection and
  polling, data-channel setup).
- `src/transport.rs` also keeps the attach permission that indications
  announce, and says which incoming message answers a request.
- `src/config.rs`: how command-line values, the configuration file and the
  defaults combine, and which configuration files are searched in what order.
- `src/text.rs`: the decimal and hexadecimal text in error messages and
  in how decoded values are shown.
- `src/digest.rs`: SHA-256, computed by the `sha2` crate.

`app/` is the program around it: argument parsing, reading the configuration
file, the character device, `poll(2)`, clocks and sleeps, netlink and the
resolver file. Its loops send the requests, read the replies and the time,
and hand them to the library's decision functions, which say what comes
next.

Exit codes: `0` success, `1` hard failure, `2` no connectivity (the network
refused the attach or never assigned an address).
