//! What the server answers.

use crate::text::{trim_slashes, without_slashes};
use vstd::prelude::*;
use vstd::string::*;

verus! {

/// The asset that a request asks for: its path without leading slashes, or the start page
/// where nothing is left.
pub open spec fn asset_of(path: Seq<char>) -> Seq<char> {
    if without_slashes(path).len() == 0 {
        "index.html"@
    } else {
        without_slashes(path)
    }
}

/// The asset that a request asks for.
pub fn asset_path(path: &str) -> (r: String)
    ensures
        r@ == asset_of(path@),
{
    let rest = trim_slashes(path);
    if rest.as_str().is_empty() {
        "index.html".to_owned()
    } else {
        rest
    }
}

/// The type of content that goes with the extension of a path.
pub uninterp spec fn mime_of(path: Seq<char>) -> Seq<char>;

/// The path has the same extension on every system: it has no backslash and no colon, and
/// does not begin with two slashes.
pub open spec fn is_portable(path: Seq<char>) -> bool {
    &&& !path.contains('\\')
    &&& !path.contains(':')
    &&& !(path.len() >= 2 && path[0] == '/' && path[1] == '/')
}

/// `mime_guess::from_path` with `first_or_octet_stream`: the first type in the crate's
/// table for the extension of a path, and a stream of octets where there is no extension.
/// Nothing is claimed of paths with a backslash, a colon or two slashes at the start,
/// whose extension depends on the system, unless they have no dot.
#[verifier::external_body]
fn guess_mime(path: &str) -> (r: String)
    ensures
        is_portable(path@) ==> r@ == mime_of(path@),
        !path@.contains('.') ==> r@ == "application/octet-stream"@,
{
    mime_guess::from_path(path).first_or_octet_stream().to_string()
}

/// Where the body of an answer comes from.
#[derive(Debug)]
pub enum Body {
    /// The asset that was asked for.
    Asset,
    /// The start page.
    Shell,
    /// A text.
    Message(String),
}

/// An answer: status, type of content, and body.
#[derive(Debug)]
pub struct Reply {
    pub status: u16,
    pub content_type: Option<String>,
    pub body: Body,
}

/// The content of a `Body`: which asset, or the text.
pub enum BodyView {
    Asset,
    Shell,
    Message(Seq<char>),
}

/// The content of a `Reply`.
pub struct ReplyView {
    pub status: u16,
    pub content_type: Option<Seq<char>>,
    pub body: BodyView,
}

impl View for Reply {
    type V = ReplyView;

    open spec fn view(&self) -> ReplyView {
        ReplyView {
            status: self.status,
            content_type: crate::text::opt_text(self.content_type),
            body: match self.body {
                Body::Asset => BodyView::Asset,
                Body::Shell => BodyView::Shell,
                Body::Message(s) => BodyView::Message(s@),
            },
        }
    }
}

/// The answer to a request for an asset of a type: the asset where there is one, else the
/// start page, else an error.
pub open spec fn asset_reply(mime: Seq<char>, has_asset: bool, has_shell: bool) -> ReplyView {
    if has_asset {
        ReplyView { status: 200, content_type: Some(mime), body: BodyView::Asset }
    } else if has_shell {
        ReplyView {
            status: 200,
            content_type: Some("text/html; charset=utf-8"@),
            body: BodyView::Shell,
        }
    } else {
        ReplyView {
            status: 404,
            content_type: None,
            body: BodyView::Message(
                "frontend bundle not embedded — did you `npm run build` before `cargo build`?"@,
            ),
        }
    }
}

/// The answer to a request for an asset of a type.
pub fn reply_for(mime: String, has_asset: bool, has_shell: bool) -> (r: Reply)
    ensures
        r@ == asset_reply(mime@, has_asset, has_shell),
{
    if has_asset {
        Reply { status: 200, content_type: Some(mime), body: Body::Asset }
    } else if has_shell {
        Reply {
            status: 200,
            content_type: Some("text/html; charset=utf-8".to_owned()),
            body: Body::Shell,
        }
    } else {
        Reply {
            status: 404,
            content_type: None,
            body: Body::Message(
                "frontend bundle not embedded — did you `npm run build` before `cargo build`?".to_owned(),
            ),
        }
    }
}

/// The answer to a request for an asset.
pub fn serve_embedded(path: &str, has_asset: bool, has_shell: bool) -> (r: Reply)
    ensures
        is_portable(path@) || !has_asset ==> r@ == asset_reply(
            mime_of(path@),
            has_asset,
            has_shell,
        ),
        !path@.contains('.') ==> r@ == asset_reply(
            "application/octet-stream"@,
            has_asset,
            has_shell,
        ),
        exists|mime: Seq<char>| r@ == #[trigger] asset_reply(mime, has_asset, has_shell),
{
    let mime = guess_mime(path);
    reply_for(mime, has_asset, has_shell)
}

/// The error to a request for the snapshot; none where there is one.
pub fn snapshot_error(has_snapshot: bool) -> (r: Option<(u16, String)>)
    ensures
        r is None <==> has_snapshot,
        r matches Some((status, message)) ==> status == 503 && message@
            == "no data yet — first OpenSky fetch pending"@,
{
    if has_snapshot {
        None
    } else {
        Some((503, "no data yet — first OpenSky fetch pending".to_owned()))
    }
}

/// What happens in the session of a subscriber.
#[derive(Debug, Clone, Copy, PartialEq, Eq, Structural)]
pub enum SessionEvent {
    /// The session begins, with or without a snapshot at hand.
    Opened { has_snapshot: bool },
    /// A snapshot was published.
    Published,
    /// Snapshots were missed.
    Lagged,
    /// No more snapshots will be published.
    FeedClosed,
    /// The subscriber said goodbye.
    ClientClosed,
    /// The subscriber is gone.
    ClientGone,
    /// The connection failed.
    ClientFailed,
    /// The subscriber said something else.
    ClientSpoke,
    /// A snapshot was sent.
    Sent,
    /// A snapshot could not be sent.
    SendFailed,
    /// A snapshot could not be put into text.
    Unwritable,
}

/// What is done next in the session of a subscriber.
#[derive(Debug, Clone, Copy, PartialEq, Eq, Structural)]
pub enum SessionAction {
    /// Send the snapshot at hand.
    Send,
    /// Wait for the next event.
    Wait,
    /// End the session.
    Stop,
}

/// A snapshot is at hand and has not been sent.
pub open spec fn brings_snapshot(event: SessionEvent) -> bool {
    event == SessionEvent::Published || event == (SessionEvent::Opened { has_snapshot: true })
}

/// Nothing more can be sent.
pub open spec fn ends_session(event: SessionEvent) -> bool {
    ||| event == SessionEvent::FeedClosed
    ||| event == SessionEvent::ClientClosed
    ||| event == SessionEvent::ClientGone
    ||| event == SessionEvent::ClientFailed
    ||| event == SessionEvent::SendFailed
}

/// What is done next in the session of a subscriber.
pub fn next_action(event: SessionEvent) -> (r: SessionAction)
    ensures
        r == SessionAction::Send <==> brings_snapshot(event),
        r == SessionAction::Stop <==> ends_session(event),
        r == SessionAction::Wait <==> !brings_snapshot(event) && !ends_session(event),
{
    match event {
        SessionEvent::Opened { has_snapshot } => if has_snapshot {
            SessionAction::Send
        } else {
            SessionAction::Wait
        },
        SessionEvent::Published => SessionAction::Send,
        SessionEvent::Lagged => SessionAction::Wait,
        SessionEvent::FeedClosed => SessionAction::Stop,
        SessionEvent::ClientClosed => SessionAction::Stop,
        SessionEvent::ClientGone => SessionAction::Stop,
        SessionEvent::ClientFailed => SessionAction::Stop,
        SessionEvent::ClientSpoke => SessionAction::Wait,
        SessionEvent::Sent => SessionAction::Wait,
        SessionEvent::SendFailed => SessionAction::Stop,
        SessionEvent::Unwritable => SessionAction::Wait,
    }
}

/// A request asks for what its path names behind the leading slashes, and for the start page
/// where it names nothing.
pub proof fn paths_name_assets(path: Seq<char>, slashes: nat)
    requires
        slashes <= path.len(),
        forall|i: int| 0 <= i < slashes ==> (#[trigger] path[i]) == '/',
        slashes < path.len() ==> path[slashes as int] != '/',
    ensures
        slashes == path.len() ==> asset_of(path) == "index.html"@,
        slashes < path.len() ==> asset_of(path) == path.skip(slashes as int),
{
    let k = crate::text::slashes_are_taken_off_the_start(path);
    if k < slashes {
        assert(path[k] == '/');
    } else if slashes < k {
        assert(path[slashes as int] == '/');
    }
    assert(k == slashes);
}

/// An asset that is there is sent with its own type. For any other path the start page is
/// sent as a page in UTF-8, with the same status, and without a start page nothing is found.
pub proof fn assets_come_before_the_start_page(mime: Seq<char>, has_shell: bool)
    ensures
        asset_reply(mime, true, has_shell) == (ReplyView {
            status: 200,
            content_type: Some(mime),
            body: BodyView::Asset,
        }),
        asset_reply(mime, false, true) == (ReplyView {
            status: 200,
            content_type: Some("text/html; charset=utf-8"@),
            body: BodyView::Shell,
        }),
        asset_reply(mime, false, false).status == 404,
        asset_reply(mime, false, false).content_type is None,
        asset_reply(mime, false, false).body is Message,
{
}

/// The content of a reply is that of its fields.
pub proof fn content_of_reply(x: Reply)
    ensures
        x@.status == x.status,
        x@.content_type == crate::text::opt_text(x.content_type),
        x.body is Asset <==> x@.body is Asset,
        x.body is Shell <==> x@.body is Shell,
        x.body matches Body::Message(s) ==> x@.body == BodyView::Message(s@),
{
}

/// A session sends what is at hand when it opens and whatever is published, ends when the
/// feed or the subscriber is gone or nothing can be sent, and goes on otherwise.
pub proof fn sessions_go_on_while_both_ends_are_there(event: SessionEvent)
    ensures
        brings_snapshot(event) <==> match event {
            SessionEvent::Opened { has_snapshot } => has_snapshot,
            SessionEvent::Published => true,
            _ => false,
        },
        ends_session(event) <==> match event {
            SessionEvent::FeedClosed => true,
            SessionEvent::ClientClosed => true,
            SessionEvent::ClientGone => true,
            SessionEvent::ClientFailed => true,
            SessionEvent::SendFailed => true,
            _ => false,
        },
        !(brings_snapshot(event) && ends_session(event)),
{
}

} // verus!
