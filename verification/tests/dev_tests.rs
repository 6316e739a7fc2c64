//! The dev-loop decisions, routing, text utilities, and the analyze
//! report rendering.

use mako::analyze::Analyze;
use mako::dev::{parse_port, plan_after_chunks, plan_broadcast, remove_first, rewrite_content_type,
    route_request, settle_hash, trim_slashes, ws_frame, RouteDecision, WsMessage};
use mako::text::{clean_error_text, join_errors, replace_all, str_contains, str_ends_with,
    str_starts_with, u64_to_decimal};

#[test]
fn ws_frame_wire_format() {
    assert_eq!(ws_frame(&WsMessage { hash: 0 }), "{\"hash\":\"0\"}");
    assert_eq!(ws_frame(&WsMessage { hash: 18446744073709551615 }), "{\"hash\":\"18446744073709551615\"}");
    assert_eq!(u64_to_decimal(12345), "12345");
}

// Two successive events leaving the full hash unchanged broadcast
// exactly nothing.
#[test]
fn scenario_hash_deduplication() {
    let plan = plan_after_chunks(42, 42, true);
    assert!(plan.report_hot);
    assert!(!plan.emit);
    assert_eq!(settle_hash(&plan, true, 42), 42);
    assert!(plan_broadcast(&plan, true, 3).is_none());

    let second = plan_after_chunks(settle_hash(&plan, true, 42), 42, true);
    assert!(plan_broadcast(&second, true, 3).is_none());
}

#[test]
fn changed_hash_broadcasts_to_subscribers() {
    let plan = plan_after_chunks(1, 2, false);
    assert!(!plan.report_hot);
    assert!(plan.emit);
    assert_eq!(settle_hash(&plan, true, 1), 2);
    let msg = plan_broadcast(&plan, true, 1).unwrap();
    assert_eq!(msg.hash, 2);
    // a failed emit or an empty audience suppresses the message, and a
    // failed emit keeps the old hash so the next event retries
    assert!(plan_broadcast(&plan, false, 1).is_none());
    assert_eq!(settle_hash(&plan, false, 1), 1);
    assert!(plan_broadcast(&plan, true, 0).is_none());
}

#[test]
fn routing_decisions() {
    match route_request("__/hmr-ws", "/__/hmr-ws", "/", true) {
        RouteDecision::WebSocket => {},
        _ => panic!("upgrade accepted"),
    }
    match route_request("__/hmr-ws", "/__/hmr-ws", "/", false) {
        RouteDecision::NotFoundEmpty => {},
        _ => panic!("plain request to the ws path is an empty 404"),
    }
    match route_request("assets/app.js", "/assets/app.js", "/assets/", true) {
        RouteDecision::Serve(uri) => assert_eq!(uri, "/assets/app.js".replacen("assets", "", 1)),
        _ => panic!("static serve"),
    }
    match route_request("anything", "/anything", "", false) {
        RouteDecision::Serve(uri) => assert_eq!(uri, "/anything"),
        _ => panic!("empty public path serves everything"),
    }
}

#[test]
fn public_path_trimming_and_stripping() {
    assert_eq!(trim_slashes("/public/"), "public");
    assert_eq!(trim_slashes("public"), "public");
    assert_eq!(trim_slashes("///"), "");
    assert_eq!(remove_first("/public/app.js", "public"), "//app.js");
    assert_eq!(remove_first("/app.js", "public"), "/app.js");
}

#[test]
fn content_type_rewrite() {
    assert_eq!(
        rewrite_content_type("application/javascript").unwrap(),
        "application/javascript; charset=utf-8"
    );
    assert_eq!(rewrite_content_type("text/html").unwrap(), "text/html; charset=utf-8");
    assert!(rewrite_content_type("image/png").is_none());
}

#[test]
fn hmr_port_parsing() {
    assert_eq!(parse_port("3000"), Some(3000));
    assert_eq!(parse_port("0"), Some(0));
    assert_eq!(parse_port("65535"), Some(65535));
    assert_eq!(parse_port("65536"), None);
    assert_eq!(parse_port(""), None);
    assert_eq!(parse_port("80a"), None);
}

#[test]
fn error_text_cleanup() {
    assert_eq!(clean_error_text("\"a\\nb\""), "a\nb");
    assert_eq!(clean_error_text("plain"), "plain");
    assert_eq!(clean_error_text("a\\\\b"), "a\\b");
    assert_eq!(
        join_errors(&vec!["one".to_string(), "two".to_string()], ", "),
        "one, two"
    );
    assert_eq!(join_errors(&Vec::new(), ", "), "");
}

#[test]
fn text_helpers() {
    assert_eq!(replace_all("xyxy", "x", "z"), "zyzy");
    assert!(str_contains("style.css?modules", "?modules"));
    assert!(!str_contains("style.css", "?modules"));
    assert!(str_ends_with("style.scss", ".scss"));
    assert!(str_starts_with("assets/app.js", "assets"));
}

#[test]
fn analyze_report_rendering() {
    assert!(Analyze::watch_flag(&Some(true)));
    assert!(!Analyze::watch_flag(&Some(false)));
    assert!(!Analyze::watch_flag(&None));

    let html = Analyze::render_analyze_html(
        "body{}",
        "console.log('x')</script>",
        "{\"chunks\":[]}",
        true,
    );
    assert!(html.starts_with("<!DOCTYPE html>"));
    assert!(html.contains("<style>body{}</style>"));
    assert!(html.contains("window.chartData = {\"chunks\":[]};"));
    assert!(html.contains("window.hmrWatch = true"));
    assert!(html.contains("console.log('x')<\\/script>"));
    assert!(html.ends_with("</html>"));
}
