//! Messages that the client exchanges with the service.
pub mod cmsg_client_persona;
