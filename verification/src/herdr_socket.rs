//! The herdr socket: newline-delimited JSON requests and replies, and where the
//! socket is looked for.

use vstd::prelude::*;
use vstd::string::*;
use vstd::utf8::encode_utf8;

use crate::herdr::{lossy, utf8_lossy};
use crate::text::{
    decimal, decimal_of, law_blank_is_trimmed_away, law_decimal_tells_apart, law_trimmed, trim_of,
    trimmed, white,
};

verus! {

/// A parameter of a request.
#[derive(Debug)]
pub enum Param {
    Text(String),
    Count(u64),
    Flag(bool),
}

/// The model of a `Param`.
pub enum ParamView {
    Text(Seq<char>),
    Count(u64),
    Flag(bool),
}

impl View for Param {
    type V = ParamView;

    open spec fn view(&self) -> ParamView {
        match self {
            Param::Text(s) => ParamView::Text(s@),
            Param::Count(n) => ParamView::Count(*n),
            Param::Flag(b) => ParamView::Flag(*b),
        }
    }
}

/// The model of a list of text fields.
pub open spec fn text_fields(fields: Seq<(&str, &str)>) -> Seq<(Seq<char>, Seq<char>)> {
    Seq::new(fields.len(), |i: int| (fields[i].0@, fields[i].1@))
}

/// The model of a list of parameters.
pub open spec fn param_fields(fields: Seq<(&str, Param)>) -> Seq<(Seq<char>, ParamView)> {
    Seq::new(fields.len(), |i: int| (fields[i].0@, fields[i].1@))
}

/// The model of a text or of the reason why there is none.
pub open spec fn text_result(r: Result<String, String>) -> Result<Seq<char>, Seq<char>> {
    match r {
        Ok(s) => Ok(s@),
        Err(e) => Err(e@),
    }
}

/// The JSON text of an object with the given text fields and, under `key`, an
/// object with the given parameters; the reason, if `serde_json` cannot write it.
pub uninterp spec fn json_text(
    fields: Seq<(Seq<char>, Seq<char>)>,
    key: Seq<char>,
    params: Seq<(Seq<char>, ParamView)>,
) -> Result<Seq<char>, Seq<char>>;

/// `serde_json::to_string` on an object of text fields and one nested object.
/// The text depends on the fields alone: it is named `json_text`. It is written
/// without white space between the tokens, and a line feed inside a string is
/// escaped, so it holds none.
#[verifier::external_body]
fn write_json(fields: &[(&str, &str)], key: &str, params: &[(&str, Param)]) -> (r: Result<
    String,
    String,
>)
    ensures
        text_result(r) == json_text(text_fields(fields@), key@, param_fields(params@)),
        r matches Ok(text) ==> !text@.contains('\n'),
{
    let value = |p: &Param| match p {
        Param::Text(s) => serde_json::Value::from(s.as_str()),
        Param::Count(n) => serde_json::Value::from(*n),
        Param::Flag(b) => serde_json::Value::from(*b),
    };
    let inner = params.iter().map(|(k, p)| (k.to_string(), value(p))).collect();
    let mut outer = serde_json::Map::new();
    for (k, v) in fields {
        outer.insert(k.to_string(), serde_json::Value::from(*v));
    }
    outer.insert(key.to_string(), serde_json::Value::Object(inner));
    serde_json::to_string(&outer).map_err(|e| e.to_string())
}

/// What stands at one place of a JSON document.
#[derive(Debug)]
pub enum JsonAt {
    /// Nothing.
    Absent,
    /// A string.
    Text(String),
    /// Any other value.
    Other,
}

/// The model of a `JsonAt`.
pub enum JsonAtView {
    Absent,
    Text(Seq<char>),
    Other,
}

impl View for JsonAt {
    type V = JsonAtView;

    open spec fn view(&self) -> JsonAtView {
        match self {
            JsonAt::Absent => JsonAtView::Absent,
            JsonAt::Text(s) => JsonAtView::Text(s@),
            JsonAt::Other => JsonAtView::Other,
        }
    }
}

/// Why `serde_json` does not read a document, `None` if it does.
pub uninterp spec fn json_error(doc: Seq<char>) -> Option<Seq<char>>;

/// What stands at a JSON pointer of a document that `serde_json` reads.
pub uninterp spec fn json_at(doc: Seq<char>, pointer: Seq<char>) -> JsonAtView;

/// `serde_json::from_str`, then `serde_json::Value::pointer` for each of the
/// pointers. Whether the document is read depends on the document alone: the
/// reason why it is not is named `json_error`. What is found depends on the
/// document and the pointer alone: it is named `json_at`.
#[verifier::external_body]
fn look_up(doc: &str, pointers: &[&str]) -> (r: Result<Vec<JsonAt>, String>)
    ensures
        match r {
            Ok(found) => json_error(doc@) is None && found@.len() == pointers@.len() && forall|i: int|
                0 <= i < found@.len() ==> (#[trigger] found@[i])@ == json_at(doc@, pointers@[i]@),
            Err(e) => json_error(doc@) == Some(e@),
        },
{
    let value: serde_json::Value = serde_json::from_str(doc).map_err(|e| e.to_string())?;
    let found = |p: &&str| match value.pointer(p) {
        None => JsonAt::Absent,
        Some(serde_json::Value::String(s)) => JsonAt::Text(s.clone()),
        Some(_) => JsonAt::Other,
    };
    Ok(pointers.iter().map(found).collect())
}

/// Why a read through the socket failed.
#[derive(Debug)]
pub enum SocketError {
    /// The request could not be written down.
    Encode(String),
    /// The socket was closed.
    Closed,
    /// The reply is not a JSON document.
    Malformed(String),
    /// The reply reports an error: its code and its message.
    Refused(String, String),
    /// The reply holds no text.
    NoText,
}

/// The model of a `SocketError`.
pub enum SocketErrorView {
    Encode(Seq<char>),
    Closed,
    Malformed(Seq<char>),
    Refused(Seq<char>, Seq<char>),
    NoText,
}

impl View for SocketError {
    type V = SocketErrorView;

    open spec fn view(&self) -> SocketErrorView {
        match self {
            SocketError::Encode(e) => SocketErrorView::Encode(e@),
            SocketError::Closed => SocketErrorView::Closed,
            SocketError::Malformed(e) => SocketErrorView::Malformed(e@),
            SocketError::Refused(c, m) => SocketErrorView::Refused(c@, m@),
            SocketError::NoText => SocketErrorView::NoText,
        }
    }
}

impl SocketErrorView {
    /// The text of the error.
    pub open spec fn text(self) -> Seq<char> {
        match self {
            SocketErrorView::Encode(e) => e,
            SocketErrorView::Closed => "herdr socket closed"@,
            SocketErrorView::Malformed(e) => e,
            SocketErrorView::Refused(code, message) => code + ": "@ + message,
            SocketErrorView::NoText => "pane.read response missing read.text"@,
        }
    }
}

impl SocketError {
    /// The text of the error.
    pub fn message(&self) -> (r: String)
        ensures
            r@ == self@.text(),
    {
        match self {
            SocketError::Encode(e) => e.clone(),
            SocketError::Closed => "herdr socket closed".to_string(),
            SocketError::Malformed(e) => e.clone(),
            SocketError::Refused(code, message) => {
                let mut out = code.clone();
                out.append(": ");
                out.append(message.as_str());
                out
            },
            SocketError::NoText => "pane.read response missing read.text".to_string(),
        }
    }
}

/// The model of a socket read's result.
pub open spec fn read_result(r: Result<String, SocketError>) -> Result<Seq<char>, SocketErrorView> {
    match r {
        Ok(s) => Ok(s@),
        Err(e) => Err(e@),
    }
}

/// The client side of a connection to the herdr socket: it numbers its requests.
#[derive(Debug)]
pub struct SocketClient {
    next_id: u64,
}

/// The model of a `SocketClient`: how many requests it has made.
impl View for SocketClient {
    type V = nat;

    closed spec fn view(&self) -> nat {
        self.next_id as nat
    }
}

/// The id of the n-th request.
pub open spec fn request_id(n: nat) -> Seq<char> {
    "shadow-pane:"@ + decimal(n)
}

/// The n-th request: one line of JSON, or the reason why it cannot be written.
pub open spec fn request_line(
    n: nat,
    method: Seq<char>,
    params: Seq<(Seq<char>, ParamView)>,
) -> Result<Seq<char>, SocketErrorView> {
    match json_text(seq![("id"@, request_id(n)), ("method"@, method)], "params"@, params) {
        Ok(text) => Ok(text.push('\n')),
        Err(e) => Err(SocketErrorView::Encode(e)),
    }
}

/// The parameters of a request for the visible text of a pane.
pub open spec fn read_params(pane_id: Seq<char>, lines: u64) -> Seq<(Seq<char>, ParamView)> {
    seq![
        ("pane_id"@, ParamView::Text(pane_id)),
        ("source"@, ParamView::Text("visible"@)),
        ("lines"@, ParamView::Count(lines)),
        ("format"@, ParamView::Text("ansi"@)),
        ("strip_ansi"@, ParamView::Flag(true)),
    ]
}

/// Whether a text is one line with its line feed.
pub open spec fn one_line(s: Seq<char>) -> bool {
    s.len() > 0 && s.last() == '\n' && !s.drop_last().contains('\n')
}

impl SocketClient {
    /// The client of a connection that was just made.
    pub fn new() -> (r: SocketClient)
        ensures
            r@ == 0,
    {
        SocketClient { next_id: 0 }
    }

    /// How many requests were made.
    pub fn made(&self) -> (r: u64)
        ensures
            r == self@,
    {
        self.next_id
    }

    /// The next request as a line to be sent.
    fn request(&mut self, method: &str, params: &[(&str, Param)]) -> (r: Result<
        String,
        SocketError,
    >)
        requires
            old(self)@ < u64::MAX,
        ensures
            final(self)@ == old(self)@ + 1,
            read_result(r) == request_line(final(self)@, method@, param_fields(params@)),
            r matches Ok(line) ==> one_line(line@),
    {
        self.next_id = self.next_id + 1;
        let mut id = "shadow-pane:".to_string();
        id.append(decimal_of(self.next_id).as_str());
        let fields = vec![("id", id.as_str()), ("method", method)];
        assert(text_fields(fields@) =~= seq![
            ("id"@, request_id(self@)),
            ("method"@, method@),
        ]);
        match write_json(fields.as_slice(), "params", params) {
            Ok(text) => {
                let mut line = text;
                let ghost written = line@;
                line.push('\n');
                assert(line@.drop_last() =~= written);
                Ok(line)
            },
            Err(e) => Err(SocketError::Encode(e)),
        }
    }

    /// The line that asks for the visible text of a pane. A client makes no more
    /// than `u64::MAX` requests.
    pub fn read_visible(&mut self, pane_id: &str, lines: usize) -> (r: Result<String, SocketError>)
        requires
            old(self)@ < u64::MAX,
        ensures
            final(self)@ == old(self)@ + 1,
            read_result(r) == request_line(
                final(self)@,
                "pane.read"@,
                read_params(pane_id@, lines as u64),
            ),
            r matches Ok(line) ==> one_line(line@),
    {
        let params = vec![
            ("pane_id", Param::Text(pane_id.to_string())),
            ("source", Param::Text("visible".to_string())),
            ("lines", Param::Count(lines as u64)),
            ("format", Param::Text("ansi".to_string())),
            ("strip_ansi", Param::Flag(true)),
        ];
        assert(param_fields(params@) =~= read_params(pane_id@, lines as u64));
        self.request("pane.read", params.as_slice())
    }
}

/// A string, or a default where there is none.
pub open spec fn text_or(at: JsonAtView, default: Seq<char>) -> Seq<char> {
    match at {
        JsonAtView::Text(s) => s,
        _ => default,
    }
}

/// What a reply means, given what stands at its error, the error's code and
/// message, and the text that was read.
pub open spec fn reply(
    error: JsonAtView,
    code: JsonAtView,
    message: JsonAtView,
    text: JsonAtView,
) -> Result<Seq<char>, SocketErrorView> {
    if !(error is Absent) {
        Err(
            SocketErrorView::Refused(
                text_or(code, "error"@),
                text_or(message, "unknown error"@),
            ),
        )
    } else {
        match text {
            JsonAtView::Text(s) => Ok(s),
            _ => Err(SocketErrorView::NoText),
        }
    }
}

fn text_at(at: JsonAt, default: &str) -> (r: String)
    ensures
        r@ == text_or(at@, default@),
{
    match at {
        JsonAt::Text(s) => s,
        _ => default.to_string(),
    }
}

/// The text that a reply brings. A reply with an error brings none, whatever
/// else it holds.
pub fn reply_text(error: JsonAt, code: JsonAt, message: JsonAt, text: JsonAt) -> (r: Result<
    String,
    SocketError,
>)
    ensures
        read_result(r) == reply(error@, code@, message@, text@),
{
    match error {
        JsonAt::Absent => match text {
            JsonAt::Text(s) => Ok(s),
            _ => Err(SocketError::NoText),
        },
        _ => Err(SocketError::Refused(text_at(code, "error"), text_at(message, "unknown error"))),
    }
}

/// What a line that came from the socket means. An empty one means that the
/// socket was closed.
pub open spec fn response_text(response: Seq<char>) -> Result<Seq<char>, SocketErrorView> {
    let doc = trimmed(response);
    if response.len() == 0 {
        Err(SocketErrorView::Closed)
    } else if json_error(doc) is Some {
        Err(SocketErrorView::Malformed(json_error(doc).unwrap()))
    } else {
        reply(
            json_at(doc, "/error"@),
            json_at(doc, "/error/code"@),
            json_at(doc, "/error/message"@),
            json_at(doc, "/result/read/text"@),
        )
    }
}

/// The text that a line from the socket brings.
pub fn read_response(response: &str) -> (r: Result<String, SocketError>)
    ensures
        read_result(r) == response_text(response@),
{
    if response.is_empty() {
        return Err(SocketError::Closed);
    }
    let doc = trim_of(response);
    let pointers = vec!["/error", "/error/code", "/error/message", "/result/read/text"];
    match look_up(doc.as_str(), pointers.as_slice()) {
        Ok(mut found) => {
            let text = found.remove(3);
            let message = found.remove(2);
            let code = found.remove(1);
            let error = found.remove(0);
            reply_text(error, code, message, text)
        },
        Err(e) => Err(SocketError::Malformed(e)),
    }
}

/// A path joined with `b`: `b` alone if it is absolute, else the two
/// with one separator between them.
pub open spec fn joined(a: Seq<u8>, b: Seq<u8>) -> Seq<u8> {
    if b.len() > 0 && b[0] == SEPARATOR {
        b
    } else if a.len() == 0 || a.last() == SEPARATOR {
        a + b
    } else {
        a.push(SEPARATOR) + b
    }
}

/// The byte between the parts of a path.
pub const SEPARATOR: u8 = 0x2f;

fn copy_onto(out: &mut Vec<u8>, b: &[u8])
    ensures
        final(out)@ == old(out)@ + b@,
{
    let mut i: usize = 0;
    assert(b@.take(0) =~= Seq::empty());
    while i < b.len()
        invariant
            i <= b@.len(),
            out@ == old(out)@ + b@.take(i as int),
        decreases b@.len() - i,
    {
        out.push(b[i]);
        assert(b@.take(i + 1) =~= b@.take(i as int).push(b@[i as int]));
        i += 1;
    }
    assert(b@.take(i as int) =~= b@);
}

/// Joins two paths.
pub fn join(a: &[u8], b: &[u8]) -> (r: Vec<u8>)
    ensures
        r@ == joined(a@, b@),
{
    let mut out: Vec<u8> = Vec::new();
    if b.len() > 0 && b[0] == SEPARATOR {
        copy_onto(&mut out, b);
        return out;
    }
    copy_onto(&mut out, a);
    if a.len() > 0 && a[a.len() - 1] != SEPARATOR {
        out.push(SEPARATOR);
    }
    copy_onto(&mut out, b);
    out
}

/// The model of an optional path.
pub open spec fn opt_path(p: Option<Vec<u8>>) -> Option<Seq<u8>> {
    match p {
        Some(v) => Some(v@),
        None => None,
    }
}

/// The model of a list of paths.
pub open spec fn path_list(paths: Seq<Vec<u8>>) -> Seq<Seq<u8>> {
    Seq::new(paths.len(), |i: int| paths[i]@)
}

/// A path joined with a name.
pub open spec fn below(base: Seq<u8>, name: &str) -> Seq<u8> {
    joined(base, encode_utf8(name@))
}

/// The configuration directory of herdr: below the first of the given
/// directories, or else below `.config` in the second one.
pub open spec fn herdr_dir(xdg: Option<Seq<u8>>, home: Option<Seq<u8>>) -> Option<Seq<u8>> {
    match (xdg, home) {
        (Some(base), _) => Some(below(base, "herdr")),
        (None, Some(h)) => Some(below(below(h, ".config"), "herdr")),
        (None, None) => None,
    }
}

/// The configuration directory of herdr, given the values of `XDG_CONFIG_HOME`
/// and `HOME`.
pub fn config_dir(xdg: Option<Vec<u8>>, home: Option<Vec<u8>>) -> (r: Option<Vec<u8>>)
    ensures
        opt_path(r) == herdr_dir(opt_path(xdg), opt_path(home)),
{
    match (xdg, home) {
        (Some(base), _) => Some(join(base.as_slice(), "herdr".as_bytes())),
        (None, Some(h)) => {
            let base = join(h.as_slice(), ".config".as_bytes());
            Some(join(base.as_slice(), "herdr".as_bytes()))
        },
        (None, None) => None,
    }
}

/// Where the socket of a named session is.
pub open spec fn session_socket(dir: Seq<u8>, session: Seq<u8>) -> Seq<u8> {
    below(joined(below(dir, "sessions"), session), "herdr.sock")
}

/// Where the socket is looked for, in order: the explicit place, the socket of
/// the named session, the default socket.
pub open spec fn candidates(
    env_socket: Option<Seq<u8>>,
    session: Option<Seq<u8>>,
    dir: Option<Seq<u8>>,
) -> Seq<Seq<u8>> {
    let first = match env_socket {
        Some(p) => seq![p],
        None => seq![],
    };
    let second = match (dir, session) {
        (Some(d), Some(s)) => seq![session_socket(d, s)],
        _ => seq![],
    };
    let third = match dir {
        Some(d) => seq![below(d, "herdr.sock")],
        None => seq![],
    };
    first + second + third
}

/// Where the socket is looked for, given the values of `HERDR_SOCKET_PATH` and
/// `HERDR_SESSION` and the configuration directory.
pub fn candidate_paths_with(
    env_socket: Option<Vec<u8>>,
    session: Option<Vec<u8>>,
    dir: Option<Vec<u8>>,
) -> (r: Vec<Vec<u8>>)
    ensures
        path_list(r@) == candidates(opt_path(env_socket), opt_path(session), opt_path(dir)),
{
    let mut paths: Vec<Vec<u8>> = Vec::new();
    let ghost all = candidates(opt_path(env_socket), opt_path(session), opt_path(dir));
    if let Some(p) = env_socket {
        paths.push(p);
    }
    if let Some(d) = dir {
        if let Some(name) = session {
            let sessions = join(d.as_slice(), "sessions".as_bytes());
            let own = join(sessions.as_slice(), name.as_slice());
            paths.push(join(own.as_slice(), "herdr.sock".as_bytes()));
        }
        paths.push(join(d.as_slice(), "herdr.sock".as_bytes()));
    }
    assert(path_list(paths@) =~= all);
    paths
}

/// The explicit place, if there is one, comes first, and the default socket, if
/// there is a configuration directory, comes last. The socket of the named
/// session is just before the default socket.
pub proof fn law_candidate_order(
    env_socket: Option<Seq<u8>>,
    session: Option<Seq<u8>>,
    dir: Option<Seq<u8>>,
)
    ensures
        ({
            let paths = candidates(env_socket, session, dir);
            &&& env_socket matches Some(p) ==> paths.first() == p
            &&& dir matches Some(d) ==> paths.last() == below(d, "herdr.sock")
            &&& dir matches Some(d) ==> session matches Some(s) ==> paths[paths.len() - 2]
                == session_socket(d, s)
            &&& dir is None ==> paths.len() == if env_socket is Some { 1nat } else { 0nat }
        }),
{
}

/// What is to be done to connect.
#[derive(Debug)]
pub enum ConnectStep {
    /// Connect to this path.
    Try(Vec<u8>),
    /// Give up, for this reason.
    GiveUp(String),
}

/// The model of a `ConnectStep`.
pub enum ConnectStepView {
    Try(Seq<u8>),
    GiveUp(Seq<char>),
}

impl View for ConnectStep {
    type V = ConnectStepView;

    open spec fn view(&self) -> ConnectStepView {
        match self {
            ConnectStep::Try(p) => ConnectStepView::Try(p@),
            ConnectStep::GiveUp(e) => ConnectStepView::GiveUp(e@),
        }
    }
}

/// An attempt to connect to one of several paths.
#[derive(Debug)]
pub struct Connecting {
    paths: Vec<Vec<u8>>,
    at: usize,
    last: Option<String>,
}

/// The model of a `Connecting`.
#[verifier::ext_equal]
pub struct ConnectingView {
    pub paths: Seq<Seq<u8>>,
    /// The path that is tried.
    pub at: int,
    /// Why the path before it failed.
    pub last: Option<Seq<char>>,
}

impl View for Connecting {
    type V = ConnectingView;

    closed spec fn view(&self) -> ConnectingView {
        ConnectingView {
            paths: path_list(self.paths@),
            at: self.at as int,
            last: match self.last {
                Some(e) => Some(e@),
                None => None,
            },
        }
    }
}

impl ConnectingView {
    /// Whether a path is being tried.
    pub open spec fn trying(self) -> bool {
        0 <= self.at < self.paths.len()
    }

    /// What is to be done now.
    pub open spec fn step(self) -> ConnectStepView {
        if self.trying() {
            ConnectStepView::Try(self.paths[self.at])
        } else {
            match self.last {
                Some(e) => ConnectStepView::GiveUp(e),
                None => ConnectStepView::GiveUp("no herdr socket path candidate found"@),
            }
        }
    }

    /// The path could not be connected to.
    pub open spec fn failed(self, error: Seq<char>) -> ConnectingView {
        ConnectingView {
            at: self.at + 1,
            last: Some("connect "@ + utf8_lossy(self.paths[self.at]) + ": "@ + error),
            ..self
        }
    }
}

/// An attempt that has not begun.
pub open spec fn connecting(paths: Seq<Seq<u8>>) -> ConnectingView {
    ConnectingView { paths, at: 0, last: None }
}

impl SocketClient {
    /// Begins to connect to the first of the paths that can be connected to.
    pub fn connect(paths: Vec<Vec<u8>>) -> (r: Connecting)
        ensures
            r@ == connecting(path_list(paths@)),
    {
        Connecting { paths, at: 0, last: None }
    }
}

impl Connecting {
    /// What is to be done now.
    pub fn step(&self) -> (r: ConnectStep)
        ensures
            r@ == self@.step(),
    {
        if self.at < self.paths.len() {
            let mut path: Vec<u8> = Vec::new();
            copy_onto(&mut path, self.paths[self.at].as_slice());
            assert(path@ =~= self.paths@[self.at as int]@);
            return ConnectStep::Try(path);
        }
        match &self.last {
            Some(e) => ConnectStep::GiveUp(e.clone()),
            None => ConnectStep::GiveUp("no herdr socket path candidate found".to_string()),
        }
    }

    /// Notes that the path could not be connected to.
    pub fn failed(&mut self, error: &str)
        requires
            old(self)@.trying(),
        ensures
            final(self)@ == old(self)@.failed(error@),
    {
        let n = self.paths.len();
        assert(self.at < n);
        let mut e = "connect ".to_string();
        e.append(lossy(self.paths[self.at].as_slice()).as_str());
        e.append(": ");
        e.append(error);
        self.last = Some(e);
        self.at = self.at + 1;
    }
}

/// An attempt after some failures.
pub open spec fn after_failures(paths: Seq<Seq<u8>>, errors: Seq<Seq<char>>) -> ConnectingView
    decreases errors.len(),
{
    if errors.len() == 0 {
        connecting(paths)
    } else {
        after_failures(paths, errors.drop_last()).failed(errors.last())
    }
}

/// The paths are tried one by one in their order, and the reason that is given
/// at the end is why the last of them failed.
pub proof fn law_paths_are_tried_in_order(paths: Seq<Seq<u8>>, errors: Seq<Seq<char>>)
    requires
        errors.len() <= paths.len(),
    ensures
        after_failures(paths, errors).step() == if errors.len() < paths.len() {
            ConnectStepView::Try(paths[errors.len() as int])
        } else if errors.len() == 0 {
            ConnectStepView::GiveUp("no herdr socket path candidate found"@)
        } else {
            ConnectStepView::GiveUp(
                "connect "@ + utf8_lossy(paths.last()) + ": "@ + errors.last(),
            )
        },
{
    lemma_after_failures(paths, errors);
    if errors.len() > 0 {
        lemma_after_failures(paths, errors.drop_last());
    }
}

proof fn lemma_after_failures(paths: Seq<Seq<u8>>, errors: Seq<Seq<char>>)
    ensures
        after_failures(paths, errors).at == errors.len(),
        after_failures(paths, errors).paths == paths,
        after_failures(paths, errors).last is Some <==> errors.len() > 0,
    decreases errors.len(),
{
    if errors.len() > 0 {
        lemma_after_failures(paths, errors.drop_last());
    }
}

/// No two requests of a client have the same id.
pub proof fn law_request_ids_differ(m: nat, n: nat)
    requires
        m != n,
    ensures
        request_id(m) != request_id(n),
{
    if request_id(m) == request_id(n) {
        let head = "shadow-pane:"@;
        assert(decimal(m) =~= request_id(m).skip(head.len() as int));
        assert(decimal(n) =~= request_id(n).skip(head.len() as int));
        law_decimal_tells_apart(m, n);
    }
}

/// A reply that reports an error never brings a text, and the code and the
/// message that it gives are what is reported.
pub proof fn law_error_is_surfaced(
    code: Seq<char>,
    message: Seq<char>,
    error: JsonAtView,
    text: JsonAtView,
)
    requires
        !(error is Absent),
    ensures
        reply(error, JsonAtView::Text(code), JsonAtView::Text(message), text) == Err::<
            Seq<char>,
            SocketErrorView,
        >(SocketErrorView::Refused(code, message)),
        SocketErrorView::Refused(code, message).text() == code + ": "@ + message,
{
}

/// A read asks for the visible text of the pane, at most so many lines of it, in
/// the words that herdr knows.
pub proof fn law_read_params(pane_id: Seq<char>, lines: u64)
    ensures
        read_params(pane_id, lines) == seq![
            ("pane_id"@, ParamView::Text(pane_id)),
            ("source"@, ParamView::Text("visible"@)),
            ("lines"@, ParamView::Count(lines)),
            ("format"@, ParamView::Text("ansi"@)),
            ("strip_ansi"@, ParamView::Flag(true)),
        ],
{
}

/// A request names its number and its method and ends its line. A request that
/// cannot be written is an error and is not sent.
pub proof fn law_request_line(
    n: nat,
    method: Seq<char>,
    params: Seq<(Seq<char>, ParamView)>,
    text: Seq<char>,
    e: Seq<char>,
)
    ensures
        ({
            let fields = seq![("id"@, "shadow-pane:"@ + decimal(n)), ("method"@, method)];
            let written = json_text(fields, "params"@, params);
            &&& written == Ok::<Seq<char>, Seq<char>>(text) ==> request_line(n, method, params) == Ok::<
                Seq<char>,
                SocketErrorView,
            >(text + seq!['\n'])
            &&& written == Err::<Seq<char>, Seq<char>>(e) ==> request_line(n, method, params)
                == Err::<Seq<char>, SocketErrorView>(SocketErrorView::Encode(e))
        }),
{
    assert(text + seq!['\n'] =~= text.push('\n'));
}

/// A reply without an error brings the text that was read. One without a text is
/// an error, and one with an error is reported by its code and its message, for
/// which there are words where they are missing.
pub proof fn law_reply(
    s: Seq<char>,
    error: JsonAtView,
    code: JsonAtView,
    message: JsonAtView,
    text: JsonAtView,
)
    ensures
        reply(JsonAtView::Absent, code, message, JsonAtView::Text(s)) == Ok::<
            Seq<char>,
            SocketErrorView,
        >(s),
        !(text is Text) ==> reply(JsonAtView::Absent, code, message, text) == Err::<
            Seq<char>,
            SocketErrorView,
        >(SocketErrorView::NoText),
        !(error is Absent) && !(code is Text) && !(message is Text) ==> reply(
            error,
            code,
            message,
            text,
        ) == Err::<Seq<char>, SocketErrorView>(
            SocketErrorView::Refused("error"@, "unknown error"@),
        ),
        !(error is Absent) && !(code is Text) ==> reply(error, code, JsonAtView::Text(s), text)
            == Err::<Seq<char>, SocketErrorView>(SocketErrorView::Refused("error"@, s)),
        !(error is Absent) && !(message is Text) ==> reply(error, JsonAtView::Text(s), message, text)
            == Err::<Seq<char>, SocketErrorView>(SocketErrorView::Refused(s, "unknown error"@)),
{
}

/// Nothing from the socket means that it was closed. Whatever white space is
/// around a document, it means what the document says: what stands at its error,
/// or else the text that was read.
pub proof fn law_response(before: Seq<char>, doc: Seq<char>, after: Seq<char>)
    requires
        forall|i: int| 0 <= i < before.len() ==> white(#[trigger] before[i]),
        forall|i: int| 0 <= i < after.len() ==> white(#[trigger] after[i]),
        doc.len() > 0,
        !white(doc[0]),
        !white(doc.last()),
    ensures
        response_text(Seq::empty()) == Err::<Seq<char>, SocketErrorView>(SocketErrorView::Closed),
        json_error(doc) matches Some(e) ==> response_text(before + doc + after) == Err::<
            Seq<char>,
            SocketErrorView,
        >(SocketErrorView::Malformed(e)),
        json_error(doc) is None ==> {
            &&& json_at(doc, "/error"@) is Absent ==> (json_at(doc, "/result/read/text"@)
                matches JsonAtView::Text(s) ==> response_text(before + doc + after) == Ok::<
                Seq<char>,
                SocketErrorView,
            >(s))
            &&& json_at(doc, "/error"@) is Absent && !(json_at(doc, "/result/read/text"@) is Text)
                ==> response_text(before + doc + after) == Err::<Seq<char>, SocketErrorView>(
                SocketErrorView::NoText,
            )
            &&& !(json_at(doc, "/error"@) is Absent) ==> response_text(before + doc + after) == Err::<
                Seq<char>,
                SocketErrorView,
            >(
                SocketErrorView::Refused(
                    text_or(json_at(doc, "/error/code"@), "error"@),
                    text_or(json_at(doc, "/error/message"@), "unknown error"@),
                ),
            )
        },
{
    law_trimmed(before, doc, after);
}

/// The texts of the errors.
pub proof fn law_error_texts(e: Seq<char>)
    ensures
        SocketErrorView::Closed.text() == "herdr socket closed"@,
        SocketErrorView::NoText.text() == "pane.read response missing read.text"@,
        SocketErrorView::Encode(e).text() == e,
        SocketErrorView::Malformed(e).text() == e,
{
}

/// A path is put behind another with one slash between them. A slash that is
/// there already is not doubled, an empty path adds nothing in front, and an
/// absolute path stands alone.
pub proof fn law_joined(a: Seq<u8>, b: Seq<u8>)
    ensures
        b.len() > 0 && b[0] == 47 ==> joined(a, b) == b,
        (b.len() == 0 || b[0] != 47) && a.len() == 0 ==> joined(a, b) == b,
        (b.len() == 0 || b[0] != 47) && a.len() > 0 && a.last() == 47 ==> joined(a, b) == a + b,
        (b.len() == 0 || b[0] != 47) && a.len() > 0 && a.last() != 47 ==> joined(a, b) == a + seq![
            47u8,
        ] + b,
{
    assert(Seq::<u8>::empty() + b =~= b);
    if a.len() == 0 {
        assert(a + b =~= b);
    }
    assert(a.push(47u8) =~= a + seq![47u8]);
}

/// The configuration of herdr is in `herdr` below the configuration directory of
/// the user, or else in `.config/herdr` below the home directory.
pub proof fn law_herdr_dir(xdg: Seq<u8>, home: Seq<u8>, any: Option<Seq<u8>>)
    ensures
        herdr_dir(Some(xdg), any) == Some(joined(xdg, encode_utf8("herdr"@))),
        herdr_dir(None, Some(home)) == Some(
            joined(joined(home, encode_utf8(".config"@)), encode_utf8("herdr"@)),
        ),
        herdr_dir(None, None) is None,
{
}

/// Where the socket is looked for, case by case: no place is left out, none is
/// looked at twice, and none is looked at that was not asked for.
pub proof fn law_candidates(socket: Seq<u8>, session: Seq<u8>, dir: Seq<u8>, any: Option<Seq<u8>>)
    ensures
        ({
            let default = joined(dir, encode_utf8("herdr.sock"@));
            let named = joined(
                joined(joined(dir, encode_utf8("sessions"@)), session),
                encode_utf8("herdr.sock"@),
            );
            &&& candidates(Some(socket), Some(session), Some(dir)) == seq![socket, named, default]
            &&& candidates(Some(socket), None, Some(dir)) == seq![socket, default]
            &&& candidates(None, Some(session), Some(dir)) == seq![named, default]
            &&& candidates(None, None, Some(dir)) == seq![default]
            &&& candidates(Some(socket), any, None) == seq![socket]
            &&& candidates(None, any, None) == Seq::<Seq<u8>>::empty()
        }),
{
    let default = joined(dir, encode_utf8("herdr.sock"@));
    let named = joined(
        joined(joined(dir, encode_utf8("sessions"@)), session),
        encode_utf8("herdr.sock"@),
    );
    assert(candidates(Some(socket), Some(session), Some(dir)) =~= seq![socket, named, default]);
    assert(candidates(Some(socket), None, Some(dir)) =~= seq![socket, default]);
    assert(candidates(None, Some(session), Some(dir)) =~= seq![named, default]);
    assert(candidates(None, None, Some(dir)) =~= seq![default]);
    assert(candidates(Some(socket), any, None) =~= seq![socket]);
    assert(candidates(None, any, None) =~= Seq::<Seq<u8>>::empty());
}

/// A blank line does not mean that the socket was closed: it is a document like
/// any other, and an empty one.
pub proof fn law_blank_line_is_no_close(line: Seq<char>)
    requires
        line.len() > 0,
        forall|i: int| 0 <= i < line.len() ==> white(#[trigger] line[i]),
    ensures
        json_error(Seq::empty()) matches Some(e) ==> response_text(line) == Err::<
            Seq<char>,
            SocketErrorView,
        >(SocketErrorView::Malformed(e)),
{
    law_blank_is_trimmed_away(line);
    assert(trimmed(line) =~= Seq::empty());
}

} // verus!
