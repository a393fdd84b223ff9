//! The logic of an attested proxy in front of Nitro enclaves.
//!
//! The proxy hands each request to the enclave that its host names, through a tunnel that
//! verifies the enclave's measurements. This library decides: which target an enclave has
//! ([`registry`]), what becomes of a request and what its response carries ([`proxy`]), how an
//! enclave is dialled ([`tunnel`]). [`test_responder`] is the other end of a tunnel, for trials:
//! it speaks Noise, CBOR and the stream envelope, and echoes.
//!
//! Nothing here does I/O. Every function is verified against its contract; what it takes from
//! other crates stands behind small functions whose comments say what is relied on.

pub mod config;
pub mod framing;
pub mod http_echo;
pub mod http_fields;
pub mod identity;
pub mod measurement;
pub mod message;
pub mod noise;
pub mod proxy;
pub mod registry;
pub mod test_responder;
pub mod text;
pub mod tunnel;
