use pingora_enclavia::identity::EnclaveId;
use pingora_enclavia::proxy::{
    has_room_for_attestation, health_answer, host_header, respond_with_error, ErrorPage, FailureKind, GroupKeys,
    LogLine, ReqCtx, Verdict,
};
use pingora_enclavia::registry::{FileError, PcrsRaw, ProxyTargetRaw, Registry};
use pingora_http::{RequestHeader, ResponseHeader};
use std::path::PathBuf;

const TEXT: &str = "67e55044-10b1-426f-9247-bb680e5fe0c8";

fn id() -> EnclaveId {
    EnclaveId { bits: 0x67e5_5044_10b1_426f_9247_bb68_0e5f_e0c8 }
}

fn registry() -> Registry {
    let mut registry = Registry::new(PathBuf::from("/targets"));
    let target = ProxyTargetRaw {
        enclave_id: id(),
        endpoint: "wss://example/".to_string(),
        pcrs: PcrsRaw {
            pcr0: "00AB".to_string(),
            pcr1: "01".to_string(),
            pcr2: "ff02".to_string(),
        },
        debug_mode: true,
    };
    registry.reload_file(&format!("{TEXT}.json"), &Ok(target)).unwrap();
    registry
}

fn request(path: &str, host: Option<&str>) -> RequestHeader {
    let mut request = RequestHeader::build("GET", path.as_bytes(), None).unwrap();
    if let Some(host) = host {
        request.insert_header("Host", host).unwrap();
    }
    request
}

fn field(response: &ResponseHeader, name: &str) -> Vec<String> {
    response
        .headers
        .get_all(name)
        .iter()
        .map(|v| v.to_str().unwrap().to_string())
        .collect()
}

fn refusal(verdict: Verdict) -> ErrorPage {
    match verdict {
        Verdict::Refuse(page) => page,
        Verdict::Health | Verdict::Forward => panic!("not refused"),
    }
}

#[test]
fn health_is_answered_on_every_host() {
    let registry = Registry::new(PathBuf::from("/targets"));
    for host in [None, Some("api.example"), Some(TEXT)] {
        let mut ctx = ReqCtx::new();
        let verdict = ctx.request_filter(&request("/healthz", host), &registry);
        assert!(matches!(verdict, Verdict::Health));
        assert!(ctx.failure_kind.is_none());
        assert!(ctx.enclave_id.is_none());
    }
    let mut ctx = ReqCtx::new();
    assert!(matches!(
        ctx.request_filter(&request("/healthz?x=1", None), &registry),
        Verdict::Health
    ));
    assert!(matches!(
        ctx.request_filter(&request("/healthz/", None), &registry),
        Verdict::Refuse(_)
    ));
    assert_eq!(health_answer(true).status, 200);
    assert_eq!(health_answer(true).body, b"ok".to_vec());
    assert_eq!(health_answer(false).status, 200);
    assert_eq!(health_answer(false).body, b"degraded".to_vec());
}

#[test]
fn a_registered_enclave_is_forwarded_to() {
    let mut ctx = ReqCtx::new();
    let host = format!("{TEXT}.enclaves.beta.enclavia.io");
    let verdict = ctx.request_filter(&request("/x", Some(&host)), &registry());
    assert!(matches!(verdict, Verdict::Forward));
    assert_eq!(ctx.enclave_id, Some(id()));
    assert!(ctx.failure_kind.is_none());
    assert_eq!(ctx.target.as_ref().unwrap().endpoint, "wss://example/");

    let mut keys = GroupKeys::new();
    let plan = ctx.upstream_peer(10, 30, &mut keys);
    assert_eq!(plan.address, "127.0.0.1:1");
    assert!(!plan.tls);
    assert_eq!(plan.sni, "");
    assert_eq!(plan.tunnel.url, "wss://example/");
    assert_eq!(plan.tunnel.pcrs.pcr0, vec![0x00, 0xab]);
    assert!(plan.tunnel.debug_mode);
    assert_eq!(plan.dial_timeout_secs, 10);
    assert_eq!(plan.connection_timeout_secs, 10);
    assert_eq!(plan.total_connection_timeout_secs, 10);
    assert_eq!(plan.read_timeout_secs, 30);
    assert_eq!(plan.write_timeout_secs, 30);
    assert_eq!(plan.group_key, 0);
    assert_eq!(ctx.upstream_peer(10, 30, &mut keys).group_key, 1);
    assert_eq!(plan.tunnel.clone().pcrs.pcr2, vec![0xff, 0x02]);
}

#[test]
fn group_keys_go_round() {
    let mut keys = GroupKeys { next: u64::MAX - 1 };
    assert_eq!(keys.take(), u64::MAX - 1);
    assert_eq!(keys.take(), u64::MAX);
    assert_eq!(keys.take(), 0);
    assert_eq!(keys.take(), 1);
}

#[test]
fn a_request_without_an_enclave_is_refused() {
    for host in [None, Some("api.beta.enclavia.io"), Some("")] {
        let mut ctx = ReqCtx::new();
        let page = refusal(ctx.request_filter(&request("/", host), &registry()));
        assert_eq!(page.status, 404);
        assert_eq!(page.kind, FailureKind::ConfigNotFound);
        assert_eq!(page.message, "no enclave id in Host header");
        assert_eq!(ctx.failure_kind, Some(FailureKind::ConfigNotFound));
        assert_eq!(ctx.enclave_id, None);
        assert!(ctx.target.is_none());
    }
}

#[test]
fn a_host_that_is_not_visible_ascii_names_nothing() {
    let mut request = request("/", None);
    let host = format!("{TEXT}.\u{e9}");
    request.insert_header("Host", host).unwrap();
    let mut ctx = ReqCtx::new();
    let page = refusal(ctx.request_filter(&request, &registry()));
    assert_eq!(page.message, "no enclave id in Host header");
}

#[test]
fn the_first_host_field_counts() {
    let mut request = request("/", Some(TEXT));
    request.append_header("hOST", "other").unwrap();
    assert_eq!(host_header(&request).as_deref(), Some(TEXT));
    let mut ctx = ReqCtx::new();
    assert!(matches!(ctx.request_filter(&request, &registry()), Verdict::Forward));
}

#[test]
fn an_unknown_enclave_is_refused() {
    let registry = Registry::new(PathBuf::from("/targets"));
    let mut ctx = ReqCtx::new();
    let page = refusal(ctx.request_filter(&request("/", Some(TEXT)), &registry));
    assert_eq!(page.status, 404);
    assert_eq!(page.kind, FailureKind::ConfigNotFound);
    assert_eq!(page.message, format!("no proxy target registered for enclave {TEXT}"));
    assert_eq!(ctx.enclave_id, Some(id()));
    assert_eq!(ctx.failure_kind, Some(FailureKind::ConfigNotFound));
}

#[test]
fn an_enclave_with_a_bad_file_is_refused() {
    let mut registry = Registry::new(PathBuf::from("/targets"));
    let read = Err(FileError::Parse("missing field".to_string()));
    registry.reload_file(&format!("{TEXT}.json"), &read).unwrap_err();
    let mut ctx = ReqCtx::new();
    let page = refusal(ctx.request_filter(&request("/", Some(TEXT)), &registry));
    assert_eq!(page.status, 502);
    assert_eq!(page.kind, FailureKind::BadConfig);
    assert_eq!(page.message, "proxy target failed to load: parse: missing field");
    assert_eq!(ctx.failure_kind, Some(FailureKind::BadConfig));
}

#[test]
fn a_refusal_names_its_kind() {
    let page = ErrorPage {
        status: 404,
        kind: FailureKind::ConfigNotFound,
        message: "no enclave \u{e9}".to_string(),
    };
    let response = respond_with_error(&page).unwrap();
    let body = "config_not_found: no enclave \u{e9}\n".as_bytes().to_vec();
    assert_eq!(response.header.status.as_u16(), 404);
    assert_eq!(field(&response.header, "x-enclavia-tunnel-error"), vec!["config_not_found"]);
    assert_eq!(field(&response.header, "content-type"), vec!["text/plain; charset=utf-8"]);
    assert_eq!(field(&response.header, "content-length"), vec![body.len().to_string()]);
    assert_eq!(response.header.headers.len(), 3);
    assert_eq!(response.body, body);
}

#[test]
fn a_refusal_needs_a_status_code() {
    for (status, ok) in [(99, false), (100, true), (999, true), (1000, false), (0, false)] {
        let page =
            ErrorPage { status, kind: FailureKind::BadConfig, message: "x".to_string() };
        assert_eq!(respond_with_error(&page).is_some(), ok);
    }
}

#[test]
fn a_failed_dial_is_remembered_and_refused() {
    let mut ctx = ReqCtx::new();
    assert!(ctx.fail_to_proxy().is_none());
    ctx.fail_to_connect();
    assert_eq!(ctx.failure_kind, Some(FailureKind::TunnelDial));
    let page = ctx.fail_to_proxy().unwrap();
    assert_eq!(page.status, 502);
    let response = respond_with_error(&page).unwrap();
    assert_eq!(field(&response.header, "X-Enclavia-Tunnel-Error"), vec!["tunnel_dial"]);
    assert_eq!(response.body, b"tunnel_dial: attested tunnel handshake failed\n".to_vec());
}

#[test]
fn responses_carry_the_measurements() {
    let mut ctx = ReqCtx::new();
    ctx.request_filter(&request("/", Some(TEXT)), &registry());
    let mut response = ResponseHeader::build(200, None).unwrap();
    response.append_header("x-enclavia-pcr0", "forged").unwrap();
    response.append_header("X-Enclavia-PCR0", "forged too").unwrap();
    response.append_header("Server", "app").unwrap();
    assert!(has_room_for_attestation(&response));
    ctx.response_filter(&mut response);
    assert_eq!(field(&response, "X-Enclavia-PCR0"), vec!["00ab"]);
    assert_eq!(field(&response, "X-Enclavia-PCR1"), vec!["01"]);
    assert_eq!(field(&response, "X-Enclavia-PCR2"), vec!["ff02"]);
    assert_eq!(field(&response, "X-Enclavia-Debug-Mode"), vec!["true"]);
    assert_eq!(field(&response, "Server"), vec!["app"]);
    assert_eq!(response.status.as_u16(), 200);

    if let Some(target) = ctx.target.as_mut() {
        target.debug_mode = false;
    }
    ctx.response_filter(&mut response);
    assert_eq!(field(&response, "X-Enclavia-Debug-Mode"), vec!["false"]);
}

#[test]
fn responses_without_a_target_stay_as_they_are() {
    let mut response = ResponseHeader::build(404, None).unwrap();
    ReqCtx::new().response_filter(&mut response);
    assert_eq!(response.headers.len(), 0);
}

#[test]
fn a_crowded_response_has_no_room() {
    let mut response = ResponseHeader::build(200, None).unwrap();
    for i in 0..6550 {
        response.insert_header(format!("x-{i}"), "v").unwrap();
    }
    assert!(has_room_for_attestation(&response));
    response.insert_header("one-more", "v").unwrap();
    assert!(!has_room_for_attestation(&response));
    ReqCtx::new().response_filter(&mut response);
    assert_eq!(response.headers.keys_len(), 6551);
}

#[test]
fn a_finished_request_is_logged_with_its_status() {
    let mut ctx = ReqCtx::new();
    let request = request("/path?query=1", Some(TEXT));
    ctx.request_filter(&request, &registry());
    match ctx.logging(&request, Some(200), Some(12), None) {
        LogLine::Done { enclave_id, method, path, status, latency_ms } => {
            assert_eq!(enclave_id.as_deref(), Some(TEXT));
            assert_eq!(method, "GET");
            assert_eq!(path, "/path");
            assert_eq!(status, Some(200));
            assert_eq!(latency_ms, 12);
        }
        LogLine::Failed { .. } => panic!("nothing failed"),
    }
}

#[test]
fn a_failed_request_is_logged_with_its_kind() {
    let mut ctx = ReqCtx::new();
    let request = request("/", None);
    ctx.request_filter(&request, &registry());
    match ctx.logging(&request, Some(404), None, Some("why".to_string())) {
        LogLine::Failed { enclave_id, method, path, latency_ms, failure_kind, error } => {
            assert_eq!(enclave_id, None);
            assert_eq!(method, "GET");
            assert_eq!(path, "/");
            assert_eq!(latency_ms, 0);
            assert_eq!(failure_kind, FailureKind::ConfigNotFound);
            assert_eq!(failure_kind.as_str(), "config_not_found");
            assert_eq!(error.as_deref(), Some("why"));
        }
        LogLine::Done { .. } => panic!("the request was refused"),
    }
    assert_eq!(FailureKind::BadConfig.as_str(), "bad_config");
    assert_eq!(FailureKind::TunnelDial.as_str(), "tunnel_dial");
}
