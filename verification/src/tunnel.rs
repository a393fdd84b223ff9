//! What it takes to dial an enclave, and how a failed dial is reported.

use crate::measurement::{Pcrs, PcrsView};
use crate::registry::{ProxyTarget, ProxyTargetView};
use vstd::prelude::*;
use vstd::string::*;

verus! {

/// What the connector needs to dial a single enclave: the WSS URL, the measurements to pin
/// against, and the debug-mode toggle.
#[derive(Debug)]
pub struct TunnelConfig {
    pub url: String,
    pub pcrs: Pcrs,
    pub debug_mode: bool,
}

/// A dial configuration with its text and bytes as sequences.
#[verifier::ext_equal]
pub struct TunnelConfigView {
    pub url: Seq<char>,
    pub pcrs: PcrsView,
    pub debug_mode: bool,
}

impl View for TunnelConfig {
    type V = TunnelConfigView;

    open spec fn view(&self) -> TunnelConfigView {
        TunnelConfigView { url: self.url@, pcrs: self.pcrs@, debug_mode: self.debug_mode }
    }
}

impl Clone for TunnelConfig {
    fn clone(&self) -> (r: TunnelConfig)
        ensures
            r@ == self@,
            r.url@ == self.url@,
            r.pcrs.pcr0@ == self.pcrs.pcr0@,
            r.pcrs.pcr1@ == self.pcrs.pcr1@,
            r.pcrs.pcr2@ == self.pcrs.pcr2@,
            r.debug_mode == self.debug_mode,
    {
        TunnelConfig {
            url: self.url.clone(),
            pcrs: self.pcrs.clone(),
            debug_mode: self.debug_mode,
        }
    }
}

/// The dial configuration of a target: its endpoint, its measurements and its mode.
pub open spec fn tunnel_to(target: ProxyTargetView) -> TunnelConfigView {
    TunnelConfigView {
        url: target.endpoint,
        pcrs: target.pcrs,
        debug_mode: target.debug_mode,
    }
}

impl TunnelConfig {
    /// The dial configuration of a target.
    pub fn for_target(target: &ProxyTarget) -> (r: TunnelConfig)
        ensures
            r@ == tunnel_to(target@),
            r.url@ == target.endpoint@,
            r.pcrs.pcr0@ == target.pcrs.pcr0@,
            r.pcrs.pcr1@ == target.pcrs.pcr1@,
            r.pcrs.pcr2@ == target.pcrs.pcr2@,
            r.debug_mode == target.debug_mode,
    {
        TunnelConfig {
            url: target.endpoint.clone(),
            pcrs: target.pcrs.clone(),
            debug_mode: target.debug_mode,
        }
    }
}

/// Why a tunnel could not be opened.
#[derive(Debug)]
pub enum TunnelError {
    /// The SDK failed, with this text.
    Sdk(String),
}

impl TunnelError {
    /// The text of the error.
    pub open spec fn text(&self) -> Seq<char> {
        match *self {
            TunnelError::Sdk(text) => "enclavia sdk: "@ + text@,
        }
    }

    /// The text of the error.
    pub fn message(&self) -> (r: String)
        ensures
            r@ == self.text(),
            *self matches TunnelError::Sdk(text) ==> r@ == "enclavia sdk: "@ + text@,
    {
        match self {
            TunnelError::Sdk(text) => {
                let mut r = String::new();
                r.append("enclavia sdk: ");
                r.append(text.as_str());
                assert(r@ =~= self.text());
                r
            },
        }
    }
}

/// Why a dial failed.
#[derive(Debug)]
pub enum DialError {
    /// The tunnel was not up in time.
    TimedOut,
    /// The tunnel could not be opened.
    Tunnel(TunnelError),
}

/// How the proxy classifies a failed dial.
#[derive(Clone, Copy, Debug, PartialEq, Eq, Structural)]
pub enum DialErrorKind {
    ConnectTimedout,
    ConnectError,
}

impl DialError {
    /// How the proxy classifies the failure: a timeout apart from everything else.
    pub fn kind(&self) -> (r: DialErrorKind)
        ensures
            r == match *self {
                DialError::TimedOut => DialErrorKind::ConnectTimedout,
                DialError::Tunnel(_) => DialErrorKind::ConnectError,
            },
    {
        match self {
            DialError::TimedOut => DialErrorKind::ConnectTimedout,
            DialError::Tunnel(_) => DialErrorKind::ConnectError,
        }
    }

    /// What was being done when it failed.
    pub fn context(&self) -> (r: &'static str)
        ensures
            r@ == match *self {
                DialError::TimedOut => "attested tunnel handshake timed out"@,
                DialError::Tunnel(_) => "attested tunnel handshake"@,
            },
    {
        match self {
            DialError::TimedOut => "attested tunnel handshake timed out",
            DialError::Tunnel(_) => "attested tunnel handshake",
        }
    }
}

/// An enclave is dialled at its target's endpoint, held to its target's measurements, each under
/// its own name, and in its target's mode.
pub proof fn law_dial_pins_target(target: ProxyTargetView)
    ensures
        tunnel_to(target).url == target.endpoint,
        tunnel_to(target).pcrs.pcr0 == target.pcrs.pcr0,
        tunnel_to(target).pcrs.pcr1 == target.pcrs.pcr1,
        tunnel_to(target).pcrs.pcr2 == target.pcrs.pcr2,
        tunnel_to(target).debug_mode == target.debug_mode,
{
}

/// Targets that differ in anything but their id are dialled differently.
pub proof fn law_dials_tell_targets_apart(one: ProxyTargetView, two: ProxyTargetView)
    requires
        tunnel_to(one) == tunnel_to(two),
        one.enclave_id == two.enclave_id,
    ensures
        one == two,
{
    assert(one.pcrs =~= two.pcrs);
}

/// The view of a dial configuration holds its fields, each under its own name.
pub proof fn law_dial_view_keeps_fields(config: TunnelConfig)
    ensures
        config@.url == config.url@,
        config@.pcrs.pcr0 == config.pcrs.pcr0@,
        config@.pcrs.pcr1 == config.pcrs.pcr1@,
        config@.pcrs.pcr2 == config.pcrs.pcr2@,
        config@.debug_mode == config.debug_mode,
{
}

} // verus!
