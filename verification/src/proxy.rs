//! What the proxy decides about a request: where it goes, or how it is refused; what its
//! response carries; how it is logged.

use crate::http_fields::{
    build_response, count_fields, field_of, is_field_value, is_plain_name, is_visible, method_of,
    path_of, request_field, request_method, request_path, response_field_count, response_fields,
    response_status, set_field, visible_text, FIELD_LIMIT,
};
use crate::identity::{
    id_of, id_text, law_id_text_round_trip, lemma_id_text_is_label, nibble, EnclaveId,
};
use crate::measurement::{encode_hex, hex_decoded, hex_text, law_hex_round_trip, HexError};
use crate::registry::{
    enclave_id_from_host, law_host_names_its_enclave, law_leftmost_label_decides,
    law_lookup_gives_back_the_file, leftmost_label, looked_up, reloaded, ProxyTarget,
    ProxyTargetRaw, ProxyTargetView, Registry, RegistryError, RegistryErrorView, RegistryView,
};
use crate::text::{decimal, decimal_text, digit_char, lowered, same_text};
use crate::tunnel::{tunnel_to, TunnelConfig};
use pingora_http::{RequestHeader, ResponseHeader};
use vstd::prelude::*;
use vstd::string::*;
use vstd::utf8::*;

verus! {

/// The kinds of failure that the `X-Enclavia-Tunnel-Error` field tells apart.
#[derive(Clone, Copy, Debug, PartialEq, Eq, Structural)]
pub enum FailureKind {
    ConfigNotFound,
    BadConfig,
    TunnelDial,
}

impl FailureKind {
    /// The name of the kind.
    pub open spec fn label(self) -> Seq<char> {
        match self {
            FailureKind::ConfigNotFound => "config_not_found"@,
            FailureKind::BadConfig => "bad_config"@,
            FailureKind::TunnelDial => "tunnel_dial"@,
        }
    }

    /// The name of the kind.
    pub fn as_str(&self) -> (r: &'static str)
        ensures
            r@ == self.label(),
            *self == FailureKind::ConfigNotFound ==> r@ == "config_not_found"@,
            *self == FailureKind::BadConfig ==> r@ == "bad_config"@,
            *self == FailureKind::TunnelDial ==> r@ == "tunnel_dial"@,
    {
        match self {
            FailureKind::ConfigNotFound => "config_not_found",
            FailureKind::BadConfig => "bad_config",
            FailureKind::TunnelDial => "tunnel_dial",
        }
    }
}

/// How a request is refused.
#[derive(Debug)]
pub struct ErrorPage {
    pub status: u16,
    pub kind: FailureKind,
    pub message: String,
}

/// A refusal with its text as a sequence.
#[verifier::ext_equal]
pub struct ErrorPageView {
    pub status: u16,
    pub kind: FailureKind,
    pub message: Seq<char>,
}

impl View for ErrorPage {
    type V = ErrorPageView;

    open spec fn view(&self) -> ErrorPageView {
        ErrorPageView { status: self.status, kind: self.kind, message: self.message@ }
    }
}

/// A response header and its body.
pub struct ErrorResponse {
    pub header: ResponseHeader,
    pub body: Vec<u8>,
}

/// The body of a refusal: its kind and its message on one line.
pub open spec fn error_body(page: ErrorPageView) -> Seq<u8> {
    encode_utf8(page.kind.label() + ": "@ + page.message + "\n"@)
}

/// The fields of a refusal.
pub open spec fn error_fields(page: ErrorPageView) -> Map<Seq<char>, Seq<Seq<u8>>> {
    Map::empty().insert(
        lowered("X-Enclavia-Tunnel-Error"@),
        seq![encode_utf8(page.kind.label())],
    ).insert(
        lowered("Content-Type"@),
        seq![encode_utf8("text/plain; charset=utf-8"@)],
    ).insert(
        lowered("Content-Length"@),
        seq![encode_utf8(decimal_text(error_body(page).len()))],
    )
}

proof fn lemma_ascii_value(text: Seq<char>)
    requires
        forall|i: int| 0 <= i < text.len() ==> ' ' <= #[trigger] text[i] <= '~',
    ensures
        is_field_value(encode_utf8(text)),
        encode_utf8(text).len() == text.len(),
{
    assert(is_ascii_chars(text));
    is_ascii_chars_encode_utf8(text);
    assert forall|i: int| 0 <= i < encode_utf8(text).len() implies (#[trigger] encode_utf8(text)[i]
        >= 32 && encode_utf8(text)[i] != 127) by {
        assert(' ' <= text[i] <= '~');
        assert(encode_utf8(text)[i] == text[i] as u8);
    }
}

proof fn lemma_decimal_is_ascii(n: nat)
    ensures
        forall|i: int|
            0 <= i < decimal_text(n).len() ==> ' ' <= #[trigger] decimal_text(n)[i] <= '~',
    decreases n,
{
    if n >= 10 {
        let front = decimal_text(n / 10);
        lemma_decimal_is_ascii(n / 10);
        assert forall|i: int| 0 <= i < decimal_text(n).len() implies ' ' <= #[trigger] decimal_text(
            n,
        )[i] <= '~' by {
            if i < front.len() {
                assert(decimal_text(n)[i] == front[i]);
            } else {
                assert(decimal_text(n)[i] == digit_char(n % 10));
            }
        }
    }
}

proof fn lemma_error_names()
    ensures
        is_plain_name("X-Enclavia-Tunnel-Error"@),
        is_plain_name("Content-Type"@),
        is_plain_name("Content-Length"@),
{
    reveal_strlit("X-Enclavia-Tunnel-Error");
    reveal_strlit("Content-Type");
    reveal_strlit("Content-Length");
}

/// Renders a refusal: its status, its kind in the `X-Enclavia-Tunnel-Error` field, and kind and
/// message as a line of plain text. Gives nothing for a status that is no status code.
pub fn respond_with_error(page: &ErrorPage) -> (r: Option<ErrorResponse>)
    ensures
        r is Some <==> 100 <= page.status <= 999,
        r is Some ==> response_status(r->0.header) == page.status,
        r is Some ==> response_fields(r->0.header) == error_fields(page@),
        r is Some ==> r->0.body@ == error_body(page@),
        r is Some ==> r->0.body@ == encode_utf8(
            page.kind.label() + ": "@ + page.message@ + "\n"@,
        ),
        r is Some ==> response_fields(r->0.header)[lowered("X-Enclavia-Tunnel-Error"@)] == seq![
            encode_utf8(page.kind.label()),
        ],
        r is Some ==> response_fields(r->0.header)[lowered("Content-Type"@)] == seq![
            encode_utf8("text/plain; charset=utf-8"@),
        ],
        r is Some ==> response_fields(r->0.header)[lowered("Content-Length"@)] == seq![
            encode_utf8(decimal_text(r->0.body@.len())),
        ],
{
    let mut header = match build_response(page.status) {
        Some(header) => header,
        None => {
            return None;
        },
    };
    let mut text = String::new();
    text.append(page.kind.as_str());
    text.append(": ");
    text.append(page.message.as_str());
    text.append("\n");
    let mut body: Vec<u8> = Vec::new();
    body.extend_from_slice(text.as_str().as_bytes());
    proof {
        lemma_error_names();
        assert(text@ =~= page.kind.label() + ": "@ + page.message@ + "\n"@);
        assert(body@ =~= error_body(page@));
        lemma_kind_is_ascii(page.kind);
        lemma_ascii_value(page.kind.label());
        reveal_strlit("text/plain; charset=utf-8");
        lemma_ascii_value("text/plain; charset=utf-8"@);
        lemma_decimal_is_ascii(body@.len());
        lemma_ascii_value(decimal_text(body@.len()));
    }
    proof {
        law_refusal_names_its_kind(page@);
    }
    set_field(&mut header, "X-Enclavia-Tunnel-Error", page.kind.as_str());
    set_field(&mut header, "Content-Type", "text/plain; charset=utf-8");
    set_field(&mut header, "Content-Length", decimal(body.len() as u64).as_str());
    Some(ErrorResponse { header, body })
}

proof fn lemma_kind_is_ascii(kind: FailureKind)
    ensures
        forall|i: int| 0 <= i < kind.label().len() ==> ' ' <= #[trigger] kind.label()[i] <= '~',
{
    reveal_strlit("config_not_found");
    reveal_strlit("bad_config");
    reveal_strlit("tunnel_dial");
}

/// The text of a request's `Host` field.
pub open spec fn host_text(request: RequestHeader) -> Option<Seq<char>> {
    visible_text(request_field(request, "host"@))
}

/// The text of a request's `Host` field, where it has one of visible characters.
pub fn host_header(request: &RequestHeader) -> (r: Option<String>)
    ensures
        match host_text(*request) {
            Some(text) => r is Some && r->0@ == text,
            None => r is None,
        },
        r is Some <==> request_field(*request, "host"@) is Some && forall|i: int|
            0 <= i < request_field(*request, "host"@)->0.len() ==> (32
                <= #[trigger] request_field(*request, "host"@)->0[i] < 127 || request_field(
                *request,
                "host"@,
            )->0[i] == 9),
        r matches Some(text) ==> text@ == decode_utf8(request_field(*request, "host"@)->0),
{
    proof {
        if let Some(bytes) = request_field(*request, "host"@) {
            law_visible_bytes_are_text(bytes);
        }
    }
    field_of(request, "host")
}

/// What the proxy remembers of a request between its phases.
#[derive(Debug)]
pub struct ReqCtx {
    pub enclave_id: Option<EnclaveId>,
    pub target: Option<ProxyTarget>,
    pub failure_kind: Option<FailureKind>,
}

/// A request's memory with its target as a view.
#[verifier::ext_equal]
pub struct ReqCtxView {
    pub enclave_id: Option<EnclaveId>,
    pub target: Option<ProxyTargetView>,
    pub failure_kind: Option<FailureKind>,
}

impl View for ReqCtx {
    type V = ReqCtxView;

    open spec fn view(&self) -> ReqCtxView {
        ReqCtxView {
            enclave_id: self.enclave_id,
            target: match self.target {
                Some(target) => Some(target@),
                None => None,
            },
            failure_kind: self.failure_kind,
        }
    }
}

/// What becomes of a request.
#[derive(Debug)]
pub enum Verdict {
    /// It asks for the proxy's health.
    Health,
    /// It is refused.
    Refuse(ErrorPage),
    /// It goes to the target in the context.
    Forward,
}

/// A verdict with its refusal as a view.
#[verifier::ext_equal]
pub enum VerdictView {
    Health,
    Refuse(ErrorPageView),
    Forward,
}

impl View for Verdict {
    type V = VerdictView;

    open spec fn view(&self) -> VerdictView {
        match *self {
            Verdict::Health => VerdictView::Health,
            Verdict::Refuse(page) => VerdictView::Refuse(page@),
            Verdict::Forward => VerdictView::Forward,
        }
    }
}

/// What filtering a request does.
#[verifier::ext_equal]
pub struct Filtered {
    pub next: ReqCtxView,
    pub verdict: VerdictView,
}

/// The enclave that a host name stands for.
pub open spec fn enclave_named(host: Option<Seq<char>>) -> Option<EnclaveId> {
    match host {
        Some(host) => id_of(leftmost_label(host)),
        None => None,
    }
}

/// A refusal, remembered in the context.
pub open spec fn refused(ctx: ReqCtxView, page: ErrorPageView) -> Filtered {
    Filtered {
        next: ReqCtxView { failure_kind: Some(page.kind), ..ctx },
        verdict: VerdictView::Refuse(page),
    }
}

/// How a request is refused whose host names no enclave.
pub open spec fn no_enclave_page() -> ErrorPageView {
    ErrorPageView {
        status: 404,
        kind: FailureKind::ConfigNotFound,
        message: "no enclave id in Host header"@,
    }
}

/// How a request is refused whose enclave has no target.
pub open spec fn lookup_page(id: EnclaveId, e: RegistryErrorView) -> ErrorPageView {
    match e {
        RegistryErrorView::ConfigNotFound(_) => ErrorPageView {
            status: 404,
            kind: FailureKind::ConfigNotFound,
            message: "no proxy target registered for enclave "@ + id_text(id),
        },
        RegistryErrorView::BadConfig { id: _, reason } => ErrorPageView {
            status: 502,
            kind: FailureKind::BadConfig,
            message: "proxy target failed to load: "@ + reason,
        },
    }
}

/// What becomes of a request for that path and host. The health endpoint answers on every
/// host; any other path is for the enclave that the host names.
pub open spec fn filtered(
    ctx: ReqCtxView,
    path: Seq<char>,
    host: Option<Seq<char>>,
    registry: RegistryView,
) -> Filtered {
    if path == "/healthz"@ {
        Filtered { next: ctx, verdict: VerdictView::Health }
    } else {
        match enclave_named(host) {
            None => refused(ctx, no_enclave_page()),
            Some(id) => {
                let found = ReqCtxView { enclave_id: Some(id), ..ctx };
                match looked_up(registry, id) {
                    Ok(target) => Filtered {
                        next: ReqCtxView { target: Some(target), ..found },
                        verdict: VerdictView::Forward,
                    },
                    Err(e) => refused(found, lookup_page(id, e)),
                }
            },
        }
    }
}

/// How the proxy reaches an enclave for one request.
#[derive(Debug)]
pub struct UpstreamPlan {
    /// A placeholder: the tunnel is dialled instead.
    pub address: &'static str,
    pub tls: bool,
    pub sni: &'static str,
    pub tunnel: TunnelConfig,
    pub dial_timeout_secs: u64,
    pub connection_timeout_secs: u64,
    pub total_connection_timeout_secs: u64,
    pub read_timeout_secs: u64,
    pub write_timeout_secs: u64,
    pub group_key: u64,
}

/// The keys that keep requests from sharing a connection: each request gets the next number.
#[derive(Debug)]
pub struct GroupKeys {
    pub next: u64,
}

/// The key that is `n` keys after `start`, with the numbers going round.
pub open spec fn key_after(start: u64, n: nat) -> int {
    (start + n) % 0x1_0000_0000_0000_0000
}

impl GroupKeys {
    /// The keys from zero on.
    pub fn new() -> (r: GroupKeys)
        ensures
            r.next == 0,
    {
        GroupKeys { next: 0 }
    }

    /// The next key.
    pub fn take(&mut self) -> (r: u64)
        ensures
            r == old(self).next,
            final(self).next == key_after(old(self).next, 1),
            old(self).next < u64::MAX ==> final(self).next == old(self).next + 1,
            old(self).next == u64::MAX ==> final(self).next == 0,
    {
        let key = self.next;
        self.next = if key == u64::MAX {
            0
        } else {
            key + 1
        };
        key
    }
}

/// A line of the request log.
#[derive(Debug)]
pub enum LogLine {
    /// The request failed.
    Failed {
        enclave_id: Option<String>,
        method: String,
        path: String,
        latency_ms: u64,
        failure_kind: FailureKind,
        error: Option<String>,
    },
    /// The request went through.
    Done {
        enclave_id: Option<String>,
        method: String,
        path: String,
        status: Option<u16>,
        latency_ms: u64,
    },
}

/// An optional text as a sequence.
pub open spec fn text_view(text: Option<String>) -> Option<Seq<char>> {
    match text {
        Some(text) => Some(text@),
        None => None,
    }
}

/// The text of an optional id.
pub open spec fn optional_id_text(id: Option<EnclaveId>) -> Option<Seq<char>> {
    match id {
        Some(id) => Some(id_text(id)),
        None => None,
    }
}

/// The fields that tell the client what the enclave was measured as, and whether it runs in
/// debug mode.
pub open spec fn with_attestation(
    fields: Map<Seq<char>, Seq<Seq<u8>>>,
    target: ProxyTargetView,
) -> Map<Seq<char>, Seq<Seq<u8>>> {
    fields.insert(
        lowered("X-Enclavia-PCR0"@),
        seq![encode_utf8(hex_text(target.pcrs.pcr0))],
    ).insert(
        lowered("X-Enclavia-PCR1"@),
        seq![encode_utf8(hex_text(target.pcrs.pcr1))],
    ).insert(
        lowered("X-Enclavia-PCR2"@),
        seq![encode_utf8(hex_text(target.pcrs.pcr2))],
    ).insert(
        lowered("X-Enclavia-Debug-Mode"@),
        seq![
            encode_utf8(
                if target.debug_mode {
                    "true"@
                } else {
                    "false"@
                },
            ),
        ],
    )
}

proof fn lemma_hex_is_ascii(bytes: Seq<u8>)
    ensures
        is_field_value(encode_utf8(hex_text(bytes))),
{
    let text = hex_text(bytes);
    assert forall|i: int| 0 <= i < text.len() implies ' ' <= #[trigger] text[i] <= '~' by {
        assert(0 <= bytes[i / 2] as int / 16 < 16);
    }
    lemma_ascii_value(text);
}

proof fn lemma_attestation_names()
    ensures
        is_plain_name("X-Enclavia-PCR0"@),
        is_plain_name("X-Enclavia-PCR1"@),
        is_plain_name("X-Enclavia-PCR2"@),
        is_plain_name("X-Enclavia-Debug-Mode"@),
        is_field_value(encode_utf8("true"@)),
        is_field_value(encode_utf8("false"@)),
{
    reveal_strlit("X-Enclavia-PCR0");
    reveal_strlit("X-Enclavia-PCR1");
    reveal_strlit("X-Enclavia-PCR2");
    reveal_strlit("X-Enclavia-Debug-Mode");
    reveal_strlit("true");
    reveal_strlit("false");
    lemma_ascii_value("true"@);
    lemma_ascii_value("false"@);
}

/// Whether the attestation fields fit into a response, whatever fields it has.
pub open spec fn attestation_fits(response: ResponseHeader) -> bool {
    response_field_count(response) + 3 <= FIELD_LIMIT
}

/// Whether the attestation fields fit into a response.
pub fn has_room_for_attestation(response: &ResponseHeader) -> (r: bool)
    ensures
        r == attestation_fits(*response),
        r <==> response_field_count(*response) <= 6550,
{
    count_fields(response) <= FIELD_LIMIT - 3
}

impl ReqCtx {
    /// The memory of a request that has just arrived.
    pub fn new() -> (r: ReqCtx)
        ensures
            r@ == (ReqCtxView { enclave_id: None, target: None, failure_kind: None }),
            r.enclave_id is None,
            r.target is None,
            r.failure_kind is None,
    {
        ReqCtx { enclave_id: None, target: None, failure_kind: None }
    }

    /// Refuses the request.
    fn refuse(&mut self, status: u16, kind: FailureKind, message: String) -> (r: Verdict)
        ensures
            final(self)@ == refused(
                old(self)@,
                ErrorPageView { status, kind, message: message@ },
            ).next,
            r@ == refused(old(self)@, ErrorPageView { status, kind, message: message@ }).verdict,
            final(self).failure_kind == Some(kind),
            final(self).enclave_id == old(self).enclave_id,
            final(self).target == old(self).target,
            r matches Verdict::Refuse(page) && page.status == status && page.kind == kind
                && page.message == message,
    {
        self.failure_kind = Some(kind);
        Verdict::Refuse(ErrorPage { status, kind, message })
    }

    /// Decides what becomes of a request: the health endpoint is answered on every host; any
    /// other request goes to the target of the enclave that the leftmost label of its `Host`
    /// names, or is refused where there is none.
    pub fn request_filter(&mut self, request: &RequestHeader, registry: &Registry) -> (r: Verdict)
        ensures
            final(self)@ == filtered(
                old(self)@,
                request_path(*request),
                host_text(*request),
                registry@,
            ).next,
            r@ == filtered(
                old(self)@,
                request_path(*request),
                host_text(*request),
                registry@,
            ).verdict,
            r is Health <==> request_path(*request) == "/healthz"@,
            r is Health ==> final(self)@ == old(self)@,
            r is Forward ==> {
                let id = final(self).enclave_id;
                &&& id is Some
                &&& final(self).target is Some
                &&& looked_up(registry@, id->0) == Ok::<ProxyTargetView, RegistryErrorView>(
                    final(self).target->0@,
                )
                &&& final(self).failure_kind == old(self).failure_kind
            },
            r matches Verdict::Refuse(page) ==> {
                &&& final(self).failure_kind == Some(page.kind)
                &&& page.status == 404 || page.status == 502
                &&& page.status == 404 <==> page.kind == FailureKind::ConfigNotFound
                &&& page.status == 502 <==> page.kind == FailureKind::BadConfig
            },
            forall|id: EnclaveId, rest: Seq<char>|
                request_path(*request) != "/healthz"@ && request_field(*request, "host"@) == Some(
                    encode_utf8(#[trigger] (id_text(id) + rest)),
                ) && (rest.len() == 0 || rest[0] == '.' || rest[0] == ':') && (forall|i: int|
                    0 <= i < rest.len() ==> (' ' <= #[trigger] rest[i] <= '~' || rest[i] == '\t'))
                    ==> {
                    &&& final(self).enclave_id == Some(id)
                    &&& r is Forward <==> looked_up(registry@, id) is Ok
                    &&& r is Forward ==> final(self)@.target == Some(looked_up(registry@, id)->Ok_0)
                },
    {
        proof {
            assert forall|id: EnclaveId, rest: Seq<char>|
                request_path(*request) != "/healthz"@ && request_field(*request, "host"@) == Some(
                    encode_utf8(#[trigger] (id_text(id) + rest)),
                ) && (rest.len() == 0 || rest[0] == '.' || rest[0] == ':') && (forall|i: int|
                    0 <= i < rest.len() ==> (' ' <= #[trigger] rest[i] <= '~' || rest[i] == '\t'))
            implies ({
                let result = filtered(
                    old(self)@,
                    request_path(*request),
                    host_text(*request),
                    registry@,
                );
                &&& result.next.enclave_id == Some(id)
                &&& result.verdict is Forward <==> looked_up(registry@, id) is Ok
                &&& result.verdict is Forward ==> result.next.target == Some(
                    looked_up(registry@, id)->Ok_0,
                )
            }) by {
                law_request_reaches_its_enclave(old(self)@, *request, registry@, id, rest);
            }
        }
        if same_text(path_of(request).as_str(), "/healthz") {
            return Verdict::Health;
        }
        let named = match host_header(request) {
            Some(host) => enclave_id_from_host(host.as_str()),
            None => None,
        };
        let id = match named {
            Some(id) => id,
            None => {
                return self.refuse(
                    404,
                    FailureKind::ConfigNotFound,
                    "no enclave id in Host header".to_string(),
                );
            },
        };
        self.enclave_id = Some(id);
        match registry.get(id) {
            Ok(target) => {
                self.target = Some(target);
                Verdict::Forward
            },
            Err(RegistryError::ConfigNotFound(_)) => {
                let mut message = "no proxy target registered for enclave ".to_string();
                message.append(id.text().as_str());
                self.refuse(404, FailureKind::ConfigNotFound, message)
            },
            Err(RegistryError::BadConfig { id: _, reason }) => {
                let mut message = "proxy target failed to load: ".to_string();
                message.append(reason.as_str());
                self.refuse(502, FailureKind::BadConfig, message)
            },
        }
    }

    /// Plans how to reach the target of a request that is forwarded. The address is a
    /// placeholder that nothing listens on, so a dial that went past the tunnel would fail.
    pub fn upstream_peer(
        &self,
        tunnel_timeout_secs: u64,
        request_timeout_secs: u64,
        keys: &mut GroupKeys,
    ) -> (r: UpstreamPlan)
        requires
            self.target is Some,
        ensures
            r.address@ == "127.0.0.1:1"@,
            !r.tls,
            r.sni@ == ""@,
            r.tunnel@ == tunnel_to(self@.target->0),
            r.tunnel.url@ == self.target->0.endpoint@,
            r.tunnel.pcrs.pcr0@ == self.target->0.pcrs.pcr0@,
            r.tunnel.pcrs.pcr1@ == self.target->0.pcrs.pcr1@,
            r.tunnel.pcrs.pcr2@ == self.target->0.pcrs.pcr2@,
            r.tunnel.debug_mode == self.target->0.debug_mode,
            r.dial_timeout_secs == tunnel_timeout_secs,
            r.connection_timeout_secs == tunnel_timeout_secs,
            r.total_connection_timeout_secs == tunnel_timeout_secs,
            r.read_timeout_secs == request_timeout_secs,
            r.write_timeout_secs == request_timeout_secs,
            r.group_key == old(keys).next,
            old(keys).next < u64::MAX ==> final(keys).next == old(keys).next + 1,
            old(keys).next == u64::MAX ==> final(keys).next == 0,
            final(keys).next == key_after(old(keys).next, 1),
    {
        let target = self.target.as_ref().unwrap();
        UpstreamPlan {
            address: "127.0.0.1:1",
            tls: false,
            sni: "",
            tunnel: TunnelConfig::for_target(target),
            dial_timeout_secs: tunnel_timeout_secs,
            connection_timeout_secs: tunnel_timeout_secs,
            total_connection_timeout_secs: tunnel_timeout_secs,
            read_timeout_secs: request_timeout_secs,
            write_timeout_secs: request_timeout_secs,
            group_key: keys.take(),
        }
    }

    /// Adds the attestation fields to a response from a target. A response without one stays as
    /// it is.
    pub fn response_filter(&self, response: &mut ResponseHeader)
        requires
            self.target is Some ==> attestation_fits(*old(response)),
        ensures
            response_status(*final(response)) == response_status(*old(response)),
            response_fields(*final(response)) == match self@.target {
                Some(target) => with_attestation(response_fields(*old(response)), target),
                None => response_fields(*old(response)),
            },
            self.target is None ==> response_fields(*final(response)) == response_fields(
                *old(response),
            ),
            self.target matches Some(target) ==> {
                let fields = response_fields(*final(response));
                &&& fields[lowered("X-Enclavia-PCR0"@)] == seq![
                    encode_utf8(hex_text(target.pcrs.pcr0@)),
                ]
                &&& fields[lowered("X-Enclavia-PCR1"@)] == seq![
                    encode_utf8(hex_text(target.pcrs.pcr1@)),
                ]
                &&& fields[lowered("X-Enclavia-PCR2"@)] == seq![
                    encode_utf8(hex_text(target.pcrs.pcr2@)),
                ]
                &&& target.debug_mode ==> fields[lowered("X-Enclavia-Debug-Mode"@)] == seq![
                    encode_utf8("true"@),
                ]
                &&& !target.debug_mode ==> fields[lowered("X-Enclavia-Debug-Mode"@)] == seq![
                    encode_utf8("false"@),
                ]
            },
    {
        proof {
            lemma_attestation_names_differ();
        }
        if let Some(target) = &self.target {
            proof {
                lemma_attestation_names();
                lemma_hex_is_ascii(target.pcrs.pcr0@);
                lemma_hex_is_ascii(target.pcrs.pcr1@);
                lemma_hex_is_ascii(target.pcrs.pcr2@);
            }
            let pcr0 = encode_hex(target.pcrs.pcr0.as_slice());
            let pcr1 = encode_hex(target.pcrs.pcr1.as_slice());
            let pcr2 = encode_hex(target.pcrs.pcr2.as_slice());
            set_field(response, "X-Enclavia-PCR0", pcr0.as_str());
            set_field(response, "X-Enclavia-PCR1", pcr1.as_str());
            set_field(response, "X-Enclavia-PCR2", pcr2.as_str());
            set_field(
                response,
                "X-Enclavia-Debug-Mode",
                if target.debug_mode {
                    "true"
                } else {
                    "false"
                },
            );
        }
    }

    /// Remembers that the enclave could not be reached.
    pub fn fail_to_connect(&mut self)
        ensures
            final(self)@ == (ReqCtxView {
                failure_kind: Some(FailureKind::TunnelDial),
                ..old(self)@
            }),
            final(self).failure_kind == Some(FailureKind::TunnelDial),
            final(self).enclave_id == old(self).enclave_id,
            final(self).target == old(self).target,
    {
        self.failure_kind = Some(FailureKind::TunnelDial);
    }

    /// How a request is refused whose enclave could not be reached. Nothing for any other
    /// request: what it is answered with is left to the proxy framework.
    pub fn fail_to_proxy(&self) -> (r: Option<ErrorPage>)
        ensures
            r is Some <==> self@.failure_kind == Some(FailureKind::TunnelDial),
            r is Some ==> r->0@ == (ErrorPageView {
                status: 502,
                kind: FailureKind::TunnelDial,
                message: "attested tunnel handshake failed"@,
            }),
            r is Some <==> self.failure_kind == Some(FailureKind::TunnelDial),
            r matches Some(page) ==> page.status == 502 && page.kind == FailureKind::TunnelDial
                && page.message@ == "attested tunnel handshake failed"@,
    {
        match self.failure_kind {
            Some(FailureKind::TunnelDial) => Some(
                ErrorPage {
                    status: 502,
                    kind: FailureKind::TunnelDial,
                    message: "attested tunnel handshake failed".to_string(),
                },
            ),
            _ => None,
        }
    }

    /// The log line of a finished request: an error line with the kind where it failed, else a
    /// plain one with the status. A request whose start is unknown counts as instant.
    pub fn logging(
        &self,
        request: &RequestHeader,
        status: Option<u16>,
        latency_ms: Option<u64>,
        error: Option<String>,
    ) -> (r: LogLine)
        ensures
            match r {
                LogLine::Failed {
                    enclave_id,
                    method,
                    path,
                    latency_ms: latency,
                    failure_kind,
                    error: text,
                } => {
                    &&& self@.failure_kind == Some(failure_kind)
                    &&& text_view(enclave_id) == optional_id_text(self@.enclave_id)
                    &&& method@ == request_method(*request)
                    &&& path@ == request_path(*request)
                    &&& latency == latency_or_zero(latency_ms)
                    &&& text == error
                },
                LogLine::Done { enclave_id, method, path, status: code, latency_ms: latency } => {
                    &&& self@.failure_kind is None
                    &&& text_view(enclave_id) == optional_id_text(self@.enclave_id)
                    &&& method@ == request_method(*request)
                    &&& path@ == request_path(*request)
                    &&& code == status
                    &&& latency == latency_or_zero(latency_ms)
                },
            },
            r is Failed <==> self.failure_kind is Some,
            r matches LogLine::Failed {
                enclave_id,
                latency_ms: latency,
                failure_kind,
                ..
            } ==> {
                &&& failure_kind == self.failure_kind->0
                &&& enclave_id is Some <==> self.enclave_id is Some
                &&& enclave_id is Some ==> enclave_id->0@ == id_text(self.enclave_id->0)
                &&& latency_ms matches Some(ms) ==> latency == ms
                &&& latency_ms is None ==> latency == 0
            },
            r matches LogLine::Done { enclave_id, latency_ms: latency, .. } ==> {
                &&& enclave_id is Some <==> self.enclave_id is Some
                &&& enclave_id is Some ==> enclave_id->0@ == id_text(self.enclave_id->0)
                &&& latency_ms matches Some(ms) ==> latency == ms
                &&& latency_ms is None ==> latency == 0
            },
    {
        let enclave_id = match self.enclave_id {
            Some(id) => Some(id.text()),
            None => None,
        };
        let method = method_of(request);
        let path = path_of(request);
        let latency: u64 = match latency_ms {
            Some(ms) => ms,
            None => 0,
        };
        match self.failure_kind {
            Some(failure_kind) => LogLine::Failed {
                enclave_id,
                method,
                path,
                latency_ms: latency,
                failure_kind,
                error,
            },
            None => LogLine::Done { enclave_id, method, path, status, latency_ms: latency },
        }
    }
}

/// A latency, or zero where it is unknown.
pub open spec fn latency_or_zero(latency_ms: Option<u64>) -> u64 {
    match latency_ms {
        Some(ms) => ms,
        None => 0,
    }
}

/// What the health endpoint answers.
#[derive(Debug)]
pub struct HealthAnswer {
    pub status: u16,
    pub body: Vec<u8>,
}

/// The answer of the health endpoint: always 200, with a body that says whether the directory of
/// target files can be read.
pub fn health_answer(dir_readable: bool) -> (r: HealthAnswer)
    ensures
        r.status == 200,
        r.body@ == encode_utf8(
            if dir_readable {
                "ok"@
            } else {
                "degraded"@
            },
        ),
{
    let text = if dir_readable {
        "ok"
    } else {
        "degraded"
    };
    let mut body: Vec<u8> = Vec::new();
    body.extend_from_slice(text.as_bytes());
    assert(body@ =~= encode_utf8(text@));
    HealthAnswer { status: 200, body }
}

/// The health endpoint is answered on every host, whatever is registered.
pub proof fn law_health_is_answered_everywhere(
    ctx: ReqCtxView,
    host: Option<Seq<char>>,
    registry: RegistryView,
)
    ensures
        filtered(ctx, "/healthz"@, host, registry) == (Filtered {
            next: ctx,
            verdict: VerdictView::Health,
        }),
{
}

/// A request whose host starts with the text of an id, and then ends or goes on with a `.` or a
/// `:`, goes to the target that is registered for that id, and is refused where none is.
pub proof fn law_host_decides_target(
    ctx: ReqCtxView,
    path: Seq<char>,
    id: EnclaveId,
    rest: Seq<char>,
    registry: RegistryView,
)
    requires
        path != "/healthz"@,
        rest.len() == 0 || rest[0] == '.' || rest[0] == ':',
    ensures
        ({
            let found = ReqCtxView { enclave_id: Some(id), ..ctx };
            filtered(ctx, path, Some(id_text(id) + rest), registry) == match looked_up(
                registry,
                id,
            ) {
                Ok(target) => Filtered {
                    next: ReqCtxView { target: Some(target), ..found },
                    verdict: VerdictView::Forward,
                },
                Err(e) => refused(found, lookup_page(id, e)),
            }
        }),
{
    law_host_names_its_enclave(id, rest);
}

/// A request is forwarded only to a target that is registered for the enclave its host names,
/// and then it counts as no failure. A refused request gets 404 for a missing target and 502
/// for one that could not be loaded, and is remembered as a failure of that kind.
pub proof fn law_verdict_matches_registry(
    ctx: ReqCtxView,
    path: Seq<char>,
    host: Option<Seq<char>>,
    registry: RegistryView,
)
    ensures
        ({
            let Filtered { next, verdict } = filtered(ctx, path, host, registry);
            match verdict {
                VerdictView::Health => path == "/healthz"@ && next == ctx,
                VerdictView::Forward => {
                    &&& enclave_named(host) is Some
                    &&& next.enclave_id == enclave_named(host)
                    &&& next.target is Some
                    &&& looked_up(registry, enclave_named(host)->0) == Ok::<
                        ProxyTargetView,
                        RegistryErrorView,
                    >(next.target->0)
                    &&& next.failure_kind == ctx.failure_kind
                },
                VerdictView::Refuse(page) => {
                    &&& next.failure_kind == Some(page.kind)
                    &&& next.target == ctx.target
                    &&& page.kind == FailureKind::ConfigNotFound <==> page.status == 404
                    &&& page.kind == FailureKind::BadConfig <==> page.status == 502
                    &&& page.status == 404 || page.status == 502
                    &&& page.status == 502 <==> enclave_named(host) is Some && looked_up(
                        registry,
                        enclave_named(host)->0,
                    ) matches Err(RegistryErrorView::BadConfig { .. })
                },
            }
        }),
{
}

/// Every refusal names its kind in the `X-Enclavia-Tunnel-Error` field, as its only value, and
/// declares plain text and the length of its body.
pub proof fn law_refusal_names_its_kind(page: ErrorPageView)
    ensures
        ({
            let fields = error_fields(page);
            &&& fields.dom() == set![
                lowered("X-Enclavia-Tunnel-Error"@),
                lowered("Content-Type"@),
                lowered("Content-Length"@),
            ]
            &&& fields[lowered("X-Enclavia-Tunnel-Error"@)] == seq![
                encode_utf8(page.kind.label()),
            ]
            &&& fields[lowered("Content-Type"@)] == seq![
                encode_utf8("text/plain; charset=utf-8"@),
            ]
            &&& fields[lowered("Content-Length"@)] == seq![
                encode_utf8(decimal_text(error_body(page).len())),
            ]
        }),
{
    reveal_strlit("X-Enclavia-Tunnel-Error");
    reveal_strlit("Content-Type");
    reveal_strlit("Content-Length");
    assert(lowered("X-Enclavia-Tunnel-Error"@).len() == 23);
    assert(lowered("Content-Type"@).len() == 12);
    assert(lowered("Content-Length"@).len() == 14);
    assert(error_fields(page).dom() =~= set![
        lowered("X-Enclavia-Tunnel-Error"@),
        lowered("Content-Type"@),
        lowered("Content-Length"@),
    ]);
}

/// The client can read the measurements of the enclave off the response: each of the three
/// fields has one value, which decodes to the measurement. The debug mode is told as `true` or
/// `false`. Fields of other names keep their values.
pub proof fn law_attestation_fields_tell_measurements(
    fields: Map<Seq<char>, Seq<Seq<u8>>>,
    target: ProxyTargetView,
    other: Seq<char>,
)
    requires
        other != lowered("X-Enclavia-PCR0"@),
        other != lowered("X-Enclavia-PCR1"@),
        other != lowered("X-Enclavia-PCR2"@),
        other != lowered("X-Enclavia-Debug-Mode"@),
    ensures
        ({
            let all = with_attestation(fields, target);
            let pcr0 = all[lowered("X-Enclavia-PCR0"@)];
            let pcr1 = all[lowered("X-Enclavia-PCR1"@)];
            let pcr2 = all[lowered("X-Enclavia-PCR2"@)];
            &&& pcr0.len() == 1 && hex_decoded(pcr0[0]) == Ok::<Seq<u8>, HexError>(
                target.pcrs.pcr0,
            )
            &&& pcr1.len() == 1 && hex_decoded(pcr1[0]) == Ok::<Seq<u8>, HexError>(
                target.pcrs.pcr1,
            )
            &&& pcr2.len() == 1 && hex_decoded(pcr2[0]) == Ok::<Seq<u8>, HexError>(
                target.pcrs.pcr2,
            )
            &&& all[lowered("X-Enclavia-Debug-Mode"@)] == seq![
                encode_utf8(
                    if target.debug_mode {
                        "true"@
                    } else {
                        "false"@
                    },
                ),
            ]
            &&& all.contains_key(other) == fields.contains_key(other)
            &&& fields.contains_key(other) ==> all[other] == fields[other]
        }),
{
    reveal_strlit("X-Enclavia-PCR0");
    reveal_strlit("X-Enclavia-PCR1");
    reveal_strlit("X-Enclavia-PCR2");
    reveal_strlit("X-Enclavia-Debug-Mode");
    assert(lowered("X-Enclavia-PCR0"@)[14] == '0');
    assert(lowered("X-Enclavia-PCR1"@)[14] == '1');
    assert(lowered("X-Enclavia-PCR2"@)[14] == '2');
    assert(lowered("X-Enclavia-PCR0"@).len() == 15);
    assert(lowered("X-Enclavia-PCR1"@).len() == 15);
    assert(lowered("X-Enclavia-PCR2"@).len() == 15);
    assert(lowered("X-Enclavia-Debug-Mode"@).len() == 21);
    law_hex_round_trip(target.pcrs.pcr0);
    law_hex_round_trip(target.pcrs.pcr1);
    law_hex_round_trip(target.pcrs.pcr2);
}

/// Whether a name is that of an attestation field.
pub open spec fn is_attestation_field(name: Seq<char>) -> bool {
    ||| name == lowered("X-Enclavia-PCR0"@)
    ||| name == lowered("X-Enclavia-PCR1"@)
    ||| name == lowered("X-Enclavia-PCR2"@)
    ||| name == lowered("X-Enclavia-Debug-Mode"@)
}

/// An upstream can neither forge the attestation fields nor add a value to them: responses that
/// differ in those fields alone carry the same fields once the attestation is added.
pub proof fn law_attestation_cannot_be_forged(
    one: Map<Seq<char>, Seq<Seq<u8>>>,
    two: Map<Seq<char>, Seq<Seq<u8>>>,
    target: ProxyTargetView,
)
    requires
        forall|name: Seq<char>|
            !is_attestation_field(name) ==> (#[trigger] one.contains_key(name)
                <==> two.contains_key(name)),
        forall|name: Seq<char>|
            !is_attestation_field(name) && #[trigger] one.contains_key(name) ==> one[name]
                == two[name],
    ensures
        with_attestation(one, target) == with_attestation(two, target),
{
    let a = with_attestation(one, target);
    let b = with_attestation(two, target);
    assert forall|name: Seq<char>| #[trigger] a.contains_key(name) == b.contains_key(name) by {
        assert(one.contains_key(name) || !one.contains_key(name));
    }
    assert forall|name: Seq<char>| #[trigger] a.contains_key(name) implies a[name] == b[name] by {
        assert(one.contains_key(name) || !one.contains_key(name));
    }
    assert(a =~= b);
}

/// No two requests share a key, and so a connection, unless all other numbers came between
/// them. Taking keys one by one goes through them in order.
pub proof fn law_group_keys_do_not_repeat(start: u64, i: nat, j: nat)
    requires
        i < j < i + 0x1_0000_0000_0000_0000,
    ensures
        key_after(start, i) != key_after(start, j),
        key_after(key_after(start, i) as u64, 1) == key_after(start, i + 1),
        key_after(start, 0) == start,
{
}

/// The bytes of a field are its text where all are visible ASCII characters, blanks or tabs; with
/// any other byte among them there is no text.
pub proof fn law_visible_bytes_are_text(bytes: Seq<u8>)
    ensures
        visible_text(None) is None,
        (forall|i: int| 0 <= i < bytes.len() ==> (32 <= #[trigger] bytes[i] < 127 || bytes[i] == 9))
            ==> visible_text(Some(bytes)) == Some(decode_utf8(bytes)),
        (exists|i: int|
            0 <= i < bytes.len() && !(32 <= #[trigger] bytes[i] < 127 || bytes[i] == 9))
            ==> visible_text(Some(bytes)) is None,
{
    if forall|i: int| 0 <= i < bytes.len() ==> (32 <= #[trigger] bytes[i] < 127 || bytes[i] == 9) {
        assert(forall|i: int| 0 <= i < bytes.len() ==> is_visible(#[trigger] bytes[i]));
    } else {
        let k = choose|i: int|
            0 <= i < bytes.len() && !(32 <= #[trigger] bytes[i] < 127 || bytes[i] == 9);
        assert(!is_visible(bytes[k]));
    }
}

/// The text that the bytes of a visible text give is that text.
proof fn lemma_visible_text_is_read(text: Seq<char>)
    requires
        forall|i: int|
            0 <= i < text.len() ==> (' ' <= #[trigger] text[i] <= '~' || text[i] == '\t'),
    ensures
        visible_text(Some(encode_utf8(text))) == Some(text),
{
    assert(is_ascii_chars(text));
    is_ascii_chars_encode_utf8(text);
    encode_utf8_decode_utf8(text);
    let bytes = encode_utf8(text);
    assert forall|i: int| 0 <= i < bytes.len() implies (32 <= #[trigger] bytes[i] < 127 || bytes[i]
        == 9) by {
        assert(bytes[i] == text[i] as u8);
        assert(' ' <= text[i] <= '~' || text[i] == '\t');
    }
    law_visible_bytes_are_text(bytes);
}

/// The first label of a request's `Host` field decides: a label that spells an id sends the
/// request to the target of that enclave, or has it refused with 404 where none is registered and
/// with 502 where the registered one could not be loaded; any other label has it refused with
/// 404. What stands behind the label does not matter.
pub proof fn law_request_label_decides(
    ctx: ReqCtxView,
    request: RequestHeader,
    registry: RegistryView,
    label: Seq<char>,
    rest: Seq<char>,
)
    requires
        request_path(request) != "/healthz"@,
        request_field(request, "host"@) == Some(encode_utf8(label + rest)),
        forall|i: int| 0 <= i < label.len() ==> #[trigger] label[i] != '.' && label[i] != ':',
        rest.len() == 0 || rest[0] == '.' || rest[0] == ':',
        forall|i: int|
            0 <= i < (label + rest).len() ==> (' ' <= #[trigger] (label + rest)[i] <= '~' || (label
                + rest)[i] == '\t'),
    ensures
        ({
            let result = filtered(ctx, request_path(request), host_text(request), registry);
            match id_of(label) {
                None => {
                    &&& result.verdict == VerdictView::Refuse(
                        ErrorPageView {
                            status: 404,
                            kind: FailureKind::ConfigNotFound,
                            message: "no enclave id in Host header"@,
                        },
                    )
                    &&& result.next.failure_kind == Some(FailureKind::ConfigNotFound)
                    &&& result.next.enclave_id == ctx.enclave_id
                    &&& result.next.target == ctx.target
                },
                Some(id) => {
                    &&& result.next.enclave_id == Some(id)
                    &&& match looked_up(registry, id) {
                        Ok(target) => {
                            &&& result.verdict is Forward
                            &&& result.next.target == Some(target)
                            &&& result.next.failure_kind == ctx.failure_kind
                        },
                        Err(RegistryErrorView::ConfigNotFound(_)) => {
                            &&& result.verdict == VerdictView::Refuse(
                                ErrorPageView {
                                    status: 404,
                                    kind: FailureKind::ConfigNotFound,
                                    message: "no proxy target registered for enclave "@ + id_text(
                                        id,
                                    ),
                                },
                            )
                            &&& result.next.failure_kind == Some(FailureKind::ConfigNotFound)
                            &&& result.next.target == ctx.target
                        },
                        Err(RegistryErrorView::BadConfig { id: _, reason }) => {
                            &&& result.verdict == VerdictView::Refuse(
                                ErrorPageView {
                                    status: 502,
                                    kind: FailureKind::BadConfig,
                                    message: "proxy target failed to load: "@ + reason,
                                },
                            )
                            &&& result.next.failure_kind == Some(FailureKind::BadConfig)
                            &&& result.next.target == ctx.target
                        },
                    }
                },
            }
        }),
{
    lemma_visible_text_is_read(label + rest);
    law_leftmost_label_decides(label, rest);
}

/// A request that has no `Host` field, or one that is no visible text, is refused with 404.
pub proof fn law_request_without_host_is_refused(
    ctx: ReqCtxView,
    request: RequestHeader,
    registry: RegistryView,
)
    requires
        request_path(request) != "/healthz"@,
        request_field(request, "host"@) matches Some(bytes) ==> exists|i: int|
            0 <= i < bytes.len() && !(32 <= #[trigger] bytes[i] < 127 || bytes[i] == 9),
    ensures
        ({
            let result = filtered(ctx, request_path(request), host_text(request), registry);
            &&& result.verdict == VerdictView::Refuse(
                ErrorPageView {
                    status: 404,
                    kind: FailureKind::ConfigNotFound,
                    message: "no enclave id in Host header"@,
                },
            )
            &&& result.next.failure_kind == Some(FailureKind::ConfigNotFound)
        }),
{
    if let Some(bytes) = request_field(request, "host"@) {
        law_visible_bytes_are_text(bytes);
    }
}

/// A request whose `Host` field starts with the text of an id, and then ends or goes on with a
/// `.` or a `:`, is forwarded exactly where a target is registered for that id, and then to that
/// target.
pub proof fn law_request_reaches_its_enclave(
    ctx: ReqCtxView,
    request: RequestHeader,
    registry: RegistryView,
    id: EnclaveId,
    rest: Seq<char>,
)
    requires
        request_path(request) != "/healthz"@,
        request_field(request, "host"@) == Some(encode_utf8(id_text(id) + rest)),
        rest.len() == 0 || rest[0] == '.' || rest[0] == ':',
        forall|i: int|
            0 <= i < rest.len() ==> (' ' <= #[trigger] rest[i] <= '~' || rest[i] == '\t'),
    ensures
        ({
            let result = filtered(ctx, request_path(request), host_text(request), registry);
            &&& result.next.enclave_id == Some(id)
            &&& result.verdict is Forward <==> looked_up(registry, id) is Ok
            &&& result.verdict is Forward ==> result.next.target == Some(
                looked_up(registry, id)->Ok_0,
            )
        }),
{
    let label = id_text(id);
    let host = label + rest;
    lemma_id_text_is_label(id);
    law_id_text_round_trip(id);
    assert forall|i: int| 0 <= i < label.len() implies #[trigger] label[i] != '.' && label[i]
        != ':' by {
        assert(label[i] == '-' || nibble(label[i]) is Some);
    }
    assert forall|i: int| 0 <= i < host.len() implies (' ' <= #[trigger] host[i] <= '~' || host[i]
        == '\t') by {
        if i < 36 {
            assert(host[i] == label[i]);
            assert(label[i] == '-' || nibble(label[i]) is Some);
        } else {
            assert(host[i] == rest[i - 36]);
        }
    }
    law_request_label_decides(ctx, request, registry, label, rest);
}

/// A request for an enclave is dialled as the enclave's file says: once the file is read, a
/// request whose `Host` starts with the id is forwarded, and its tunnel goes to the endpoint,
/// holds each of the three measurements to what the file spells under that name, and has the
/// file's mode.
pub proof fn law_request_is_dialled_as_its_file_says(
    ctx: ReqCtxView,
    request: RequestHeader,
    v: RegistryView,
    name: Seq<char>,
    raw: ProxyTargetRaw,
    rest: Seq<char>,
)
    requires
        request_path(request) != "/healthz"@,
        request_field(request, "host"@) == Some(encode_utf8(id_text(raw.enclave_id) + rest)),
        rest.len() == 0 || rest[0] == '.' || rest[0] == ':',
        forall|i: int|
            0 <= i < rest.len() ==> (' ' <= #[trigger] rest[i] <= '~' || rest[i] == '\t'),
        hex_decoded(encode_utf8(raw.pcrs.pcr0@)) is Ok,
        hex_decoded(encode_utf8(raw.pcrs.pcr1@)) is Ok,
        hex_decoded(encode_utf8(raw.pcrs.pcr2@)) is Ok,
    ensures
        ({
            let result = filtered(
                ctx,
                request_path(request),
                host_text(request),
                reloaded(v, name, Ok(raw)),
            );
            let tunnel = tunnel_to(result.next.target->0);
            &&& result.verdict is Forward
            &&& result.next.enclave_id == Some(raw.enclave_id)
            &&& result.next.target is Some
            &&& tunnel.url == raw.endpoint@
            &&& Ok::<Seq<u8>, HexError>(tunnel.pcrs.pcr0) == hex_decoded(
                encode_utf8(raw.pcrs.pcr0@),
            )
            &&& Ok::<Seq<u8>, HexError>(tunnel.pcrs.pcr1) == hex_decoded(
                encode_utf8(raw.pcrs.pcr1@),
            )
            &&& Ok::<Seq<u8>, HexError>(tunnel.pcrs.pcr2) == hex_decoded(
                encode_utf8(raw.pcrs.pcr2@),
            )
            &&& tunnel.debug_mode == raw.debug_mode
        }),
{
    law_lookup_gives_back_the_file(v, name, raw);
    law_request_reaches_its_enclave(ctx, request, reloaded(v, name, Ok(raw)), raw.enclave_id, rest);
}

proof fn lemma_attestation_names_differ()
    ensures
        lowered("X-Enclavia-PCR0"@) != lowered("X-Enclavia-PCR1"@),
        lowered("X-Enclavia-PCR0"@) != lowered("X-Enclavia-PCR2"@),
        lowered("X-Enclavia-PCR1"@) != lowered("X-Enclavia-PCR2"@),
        lowered("X-Enclavia-PCR0"@) != lowered("X-Enclavia-Debug-Mode"@),
        lowered("X-Enclavia-PCR1"@) != lowered("X-Enclavia-Debug-Mode"@),
        lowered("X-Enclavia-PCR2"@) != lowered("X-Enclavia-Debug-Mode"@),
{
    reveal_strlit("X-Enclavia-PCR0");
    reveal_strlit("X-Enclavia-PCR1");
    reveal_strlit("X-Enclavia-PCR2");
    reveal_strlit("X-Enclavia-Debug-Mode");
    assert(lowered("X-Enclavia-PCR0"@)[14] == '0');
    assert(lowered("X-Enclavia-PCR1"@)[14] == '1');
    assert(lowered("X-Enclavia-PCR2"@)[14] == '2');
    assert(lowered("X-Enclavia-PCR0"@).len() == 15);
    assert(lowered("X-Enclavia-PCR1"@).len() == 15);
    assert(lowered("X-Enclavia-PCR2"@).len() == 15);
    assert(lowered("X-Enclavia-Debug-Mode"@).len() == 21);
}

/// What a refusal says: the line names the kind, then the message, and each kind has its own
/// name.
pub proof fn law_refusal_text(page: ErrorPageView)
    ensures
        error_body(page) == encode_utf8(page.kind.label() + ": "@ + page.message + "\n"@),
        page.kind == FailureKind::ConfigNotFound ==> page.kind.label() == "config_not_found"@,
        page.kind == FailureKind::BadConfig ==> page.kind.label() == "bad_config"@,
        page.kind == FailureKind::TunnelDial ==> page.kind.label() == "tunnel_dial"@,
{
}

/// The views of a request's memory and of its refusal hold their fields, each under its own name,
/// and a verdict's view is of its own variant.
pub proof fn law_request_views_keep_fields(ctx: ReqCtx, page: ErrorPage, verdict: Verdict)
    ensures
        ctx@.enclave_id == ctx.enclave_id,
        ctx@.failure_kind == ctx.failure_kind,
        ctx@.target is Some <==> ctx.target is Some,
        ctx.target matches Some(target) ==> ctx@.target == Some(target@),
        page@.status == page.status,
        page@.kind == page.kind,
        page@.message == page.message@,
        verdict@ is Health <==> verdict is Health,
        verdict@ is Forward <==> verdict is Forward,
        verdict matches Verdict::Refuse(refusal) ==> verdict@ == VerdictView::Refuse(refusal@),
{
}

} // verus!
