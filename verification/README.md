# vibes

The logic of the Vibes services, verified with Verus.

- `src/wire.rs`: the protobuf wire format (varints, field keys,
  length-delimited values) as specifications, and the calls into `prost`
  that encode and decode fields.
- `src/message.rs`: the echo `Message` (`uid` = 1, `data` = 2,
  `data_length` = 3), its encoder and decoder, and the proof that decoding an
  encoding gives the message back.
- `src/echo_server.rs`: the echo service, which checks the declared ASCII
  payload of a request and answers with `Server reply: ` followed by it.
- `src/rest_api.rs`: the mock bearer token of the REST API and the check that
  the protected routes make.
- `src/codegen.rs`: the text rules of the protobuf code generation: module
  names, service files, type declarations, and the `pub use super::` import
  that replaces duplicated message types.
- `app/`: the gRPC server and client (tonic), the REST server (poem), and the
  file-system side of the code generation.
- `tests/`: tests of the library on concrete values.
