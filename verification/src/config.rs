//! Static configuration of a single upstream enclave.

use crate::measurement::{decode_hex, hex_decoded, pcrs_decoded, HexError, Pcrs};
use vstd::prelude::*;
use vstd::utf8::encode_utf8;

verus! {

/// The configuration as its file spells it.
#[derive(Debug)]
pub struct Config {
    pub listen: String,
    pub upstream_url: String,
    pub pcr0: String,
    pub pcr1: String,
    pub pcr2: String,
    pub debug_mode: bool,
    pub enclave_host: Option<String>,
}

impl Clone for Config {
    fn clone(&self) -> (r: Config)
        ensures
            r.listen@ == self.listen@,
            r.upstream_url@ == self.upstream_url@,
            r.pcr0@ == self.pcr0@,
            r.pcr1@ == self.pcr1@,
            r.pcr2@ == self.pcr2@,
            r.debug_mode == self.debug_mode,
            r.enclave_host is Some <==> self.enclave_host is Some,
            r.enclave_host is Some ==> r.enclave_host->0@ == self.enclave_host->0@,
    {
        Config {
            listen: self.listen.clone(),
            upstream_url: self.upstream_url.clone(),
            pcr0: self.pcr0.clone(),
            pcr1: self.pcr1.clone(),
            pcr2: self.pcr2.clone(),
            debug_mode: self.debug_mode,
            enclave_host: match &self.enclave_host {
                Some(host) => Some(host.clone()),
                None => None,
            },
        }
    }
}

impl Config {
    /// The configured measurements; the first one that is not hexadecimal decides the error.
    pub fn pcrs(&self) -> (r: Result<Pcrs, HexError>)
        ensures
            match pcrs_decoded(self.pcr0@, self.pcr1@, self.pcr2@) {
                Ok(pcrs) => r is Ok && r->Ok_0@ == pcrs,
                Err(e) => r is Err && r->Err_0 == e,
            },
            r matches Ok(pcrs) ==> {
                &&& hex_decoded(encode_utf8(self.pcr0@)) == Ok::<Seq<u8>, HexError>(pcrs.pcr0@)
                &&& hex_decoded(encode_utf8(self.pcr1@)) == Ok::<Seq<u8>, HexError>(pcrs.pcr1@)
                &&& hex_decoded(encode_utf8(self.pcr2@)) == Ok::<Seq<u8>, HexError>(pcrs.pcr2@)
            },
            r matches Err(e) ==> {
                let a = hex_decoded(encode_utf8(self.pcr0@));
                let b = hex_decoded(encode_utf8(self.pcr1@));
                let c = hex_decoded(encode_utf8(self.pcr2@));
                ||| a == Err::<Seq<u8>, HexError>(e)
                ||| a is Ok && b == Err::<Seq<u8>, HexError>(e)
                ||| a is Ok && b is Ok && c == Err::<Seq<u8>, HexError>(e)
            },
    {
        let pcr0 = match decode_hex(self.pcr0.as_str()) {
            Ok(bytes) => bytes,
            Err(e) => {
                return Err(e);
            },
        };
        let pcr1 = match decode_hex(self.pcr1.as_str()) {
            Ok(bytes) => bytes,
            Err(e) => {
                return Err(e);
            },
        };
        let pcr2 = match decode_hex(self.pcr2.as_str()) {
            Ok(bytes) => bytes,
            Err(e) => {
                return Err(e);
            },
        };
        Ok(Pcrs { pcr0, pcr1, pcr2 })
    }
}

} // verus!
