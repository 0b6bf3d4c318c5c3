//! Verified core of the Vibes services: the protobuf wire codec of the echo
//! `Message`, the echo server's payload handling, and the REST API's
//! bearer-token rules.

pub mod codegen;
pub mod echo_server;
pub mod message;
pub mod rest_api;
pub mod wire;
