use flightlive::server::{
    asset_path, next_action, reply_for, serve_embedded, snapshot_error, Body, SessionAction,
    SessionEvent,
};

#[test]
fn requests_name_assets() {
    assert_eq!(asset_path("/"), "index.html");
    assert_eq!(asset_path(""), "index.html");
    assert_eq!(asset_path("/assets/app.js"), "assets/app.js");
    assert_eq!(asset_path("//x"), "x");
}

#[test]
fn assets_are_served_with_their_type() {
    let cases = [
        ("index.html", "text/html"),
        ("assets/app.js", "text/javascript"),
        ("a/b.css", "text/css"),
        ("LICENSE", "application/octet-stream"),
    ];
    for (path, kind) in cases {
        let r = serve_embedded(path, true, true);
        assert_eq!(r.status, 200);
        assert_eq!(r.content_type.as_deref(), Some(kind));
        assert!(matches!(r.body, Body::Asset));
    }
}

#[test]
fn unknown_paths_give_the_start_page() {
    let r = serve_embedded("flights/today", false, true);
    assert_eq!(r.status, 200);
    assert_eq!(r.content_type.as_deref(), Some("text/html; charset=utf-8"));
    assert!(matches!(r.body, Body::Shell));
}

#[test]
fn without_a_bundle_nothing_is_found() {
    let r = reply_for("text/css".to_string(), false, false);
    assert_eq!(r.status, 404);
    assert_eq!(r.content_type, None);
    match r.body {
        Body::Message(m) => assert_eq!(
            m,
            "frontend bundle not embedded — did you `npm run build` before `cargo build`?"
        ),
        _ => panic!("a message was due"),
    }
}

#[test]
fn there_is_no_snapshot_at_first() {
    assert_eq!(snapshot_error(true), None);
    assert_eq!(
        snapshot_error(false),
        Some((503, "no data yet — first OpenSky fetch pending".to_string()))
    );
}

#[test]
fn sessions_send_wait_and_stop() {
    let send = [SessionEvent::Opened { has_snapshot: true }, SessionEvent::Published];
    let wait = [
        SessionEvent::Opened { has_snapshot: false },
        SessionEvent::Lagged,
        SessionEvent::ClientSpoke,
        SessionEvent::Sent,
        SessionEvent::Unwritable,
    ];
    let stop = [
        SessionEvent::FeedClosed,
        SessionEvent::ClientClosed,
        SessionEvent::ClientGone,
        SessionEvent::ClientFailed,
        SessionEvent::SendFailed,
    ];
    for e in send {
        assert_eq!(next_action(e), SessionAction::Send);
    }
    for e in wait {
        assert_eq!(next_action(e), SessionAction::Wait);
    }
    for e in stop {
        assert_eq!(next_action(e), SessionAction::Stop);
    }
}
