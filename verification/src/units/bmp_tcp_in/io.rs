//! Framing of a BMP stream.
//!
//! Reading from the connection is left to the caller; what is read, and what
//! is made of it, is decided here.
use crate::text::{decimal, opt_text, push_decimal};
use crate::wire::{from_be16, octets_value};
use routecore::bmp::message::Message as BmpMsg;
use vstd::prelude::*;
use vstd::string::*;

verus! {

//------------ Errors --------------------------------------------------------

/// The kind of an I/O error.
#[derive(Clone, Copy, Debug, PartialEq, Eq, Structural)]
pub enum ErrorKind {
    NotFound,
    PermissionDenied,
    ConnectionRefused,
    ConnectionReset,
    ConnectionAborted,
    NotConnected,
    AddrInUse,
    AddrNotAvailable,
    BrokenPipe,
    AlreadyExists,
    WouldBlock,
    InvalidInput,
    InvalidData,
    TimedOut,
    WriteZero,
    Interrupted,
    Unsupported,
    UnexpectedEof,
    OutOfMemory,
    Other,
    /// Any kind that has no name here.
    Unknown,
}

/// An I/O error.
#[derive(Debug)]
pub struct IoError {
    kind: ErrorKind,
    message: String,
}

impl IoError {
    /// The kind of the error.
    pub closed spec fn kind_spec(&self) -> ErrorKind {
        self.kind
    }

    /// What is said of the error.
    pub closed spec fn text(&self) -> Seq<char> {
        self.message@
    }

    /// An error of the given kind.
    pub fn new(kind: ErrorKind, message: &str) -> (e: Self)
        ensures
            e.kind_spec() == kind,
            e.text() == message@,
    {
        IoError { kind, message: message.to_owned() }
    }

    /// An error of no particular kind.
    pub fn other(message: String) -> (e: Self)
        ensures
            e.kind_spec() == ErrorKind::Other,
            e.text() == message@,
    {
        IoError { kind: ErrorKind::Other, message }
    }

    /// The kind of the error.
    pub fn kind(&self) -> (kind: ErrorKind)
        ensures
            kind == self.kind_spec(),
    {
        self.kind
    }

    /// What is said of the error.
    pub fn message(&self) -> (text: &str)
        ensures
            text@ == self.text(),
    {
        self.message.as_str()
    }
}

/// An error that may end the use of what it came from.
pub trait FatalError {
    /// Whether the error is fatal.
    spec fn fatal(&self) -> bool;

    /// Whether the error is fatal: what it came from cannot be used any more.
    fn is_fatal(&self) -> (yes: bool)
        ensures
            yes == self.fatal(),
    ;
}

impl FatalError for IoError {
    /// Only a timeout, an interruption and an error of no particular kind let
    /// reading go on.
    open spec fn fatal(&self) -> bool {
        self.kind_spec() != ErrorKind::TimedOut && self.kind_spec() != ErrorKind::Interrupted
            && self.kind_spec() != ErrorKind::Other
    }

    fn is_fatal(&self) -> (yes: bool) {
        match self.kind {
            ErrorKind::TimedOut => false,
            ErrorKind::Interrupted => false,
            ErrorKind::Other => false,
            _ => true,
        }
    }
}

//------------ Frames --------------------------------------------------------

/// The smallest BMP message: version, length and type.
pub const MIN_BMP_MSG_LEN: usize = 6;

/// The largest BMP message that is accepted. Real messages stay far below it;
/// the bound keeps a broken exporter from having memory allocated at will.
pub const MAX_BMP_MSG_LEN: usize = 2_097_152;

/// The octets that are read before the size of a message is known.
pub const BMP_PREFIX_LEN: usize = 5;

/// Whether messages are traced.
#[derive(Clone, Copy, Debug, PartialEq, Eq, Structural)]
pub enum TracingMode {
    Off,
    IfRequested,
    On,
}

/// The number that four octets in network order stand for.
pub open spec fn from_be32(b: Seq<u8>) -> nat {
    (b[0] * 0x100_0000 + b[1] * 0x1_0000 + b[2] * 0x100 + b[3]) as nat
}

/// The size that the first octets of a message state.
pub open spec fn stated_len(prefix: Seq<u8>) -> nat {
    from_be32(prefix.subrange(1, 5))
}

/// The trace that a message belongs to: with tracing, the high half of its
/// first octet; zero for none.
pub open spec fn trace_of(first: u8, tracing_mode: TracingMode) -> u8 {
    if tracing_mode is Off {
        0
    } else {
        first / 16
    }
}

/// The version octet: with tracing, the low half of the first octet.
pub open spec fn version_of(first: u8, tracing_mode: TracingMode) -> u8 {
    if tracing_mode is Off {
        first
    } else {
        first % 16
    }
}

/// What is said of a size that is not accepted.
pub open spec fn out_of_range_text(len: nat) -> Seq<char> {
    "BMP message length "@ + decimal(len) + " out of range ["@ + decimal(MIN_BMP_MSG_LEN as nat)
        + ", "@ + decimal(MAX_BMP_MSG_LEN as nat) + "]"@
}

/// What the first octets of a message say.
#[derive(Clone, Copy, Debug, PartialEq, Eq, Structural)]
pub struct FrameHeader {
    /// The version octet, without a trace.
    pub version: u8,
    /// The size of the whole message.
    pub len: usize,
    /// The trace that the message belongs to, or zero.
    pub trace_id: u8,
}

/// Reads the first octets of a message. A size that is out of range is refused
/// before anything is allocated for it.
pub fn check_header(prefix: &[u8], tracing_mode: TracingMode) -> (res: Result<FrameHeader, IoError>)
    requires
        prefix@.len() == BMP_PREFIX_LEN,
    ensures
        if MIN_BMP_MSG_LEN <= stated_len(prefix@) <= MAX_BMP_MSG_LEN {
            res matches Ok(h) && h.len == stated_len(prefix@) && h.version == version_of(
                prefix@[0],
                tracing_mode,
            ) && h.trace_id == trace_of(prefix@[0], tracing_mode)
        } else {
            res matches Err(e) && e.kind_spec() == ErrorKind::InvalidData && e.text()
                == out_of_range_text(stated_len(prefix@))
        },
{
    let first: u8 = prefix[0];
    let off = matches!(tracing_mode, TracingMode::Off);
    let trace_id: u8 = if off {
        0
    } else {
        first / 16
    };
    let version: u8 = if off {
        first
    } else {
        first % 16
    };
    let stated: u32 = prefix[1] as u32 * 0x100_0000 + prefix[2] as u32 * 0x1_0000 + prefix[3] as u32
        * 0x100 + prefix[4] as u32;
    let len: usize = stated as usize;
    if len < MIN_BMP_MSG_LEN || len > MAX_BMP_MSG_LEN {
        let mut text = String::new();
        text.append("BMP message length ");
        push_decimal(&mut text, stated as u128);
        text.append(" out of range [");
        push_decimal(&mut text, MIN_BMP_MSG_LEN as u128);
        text.append(", ");
        push_decimal(&mut text, MAX_BMP_MSG_LEN as u128);
        text.append("]");
        assert(text@ =~= out_of_range_text(stated_len(prefix@)));
        return Err(IoError::new(ErrorKind::InvalidData, text.as_str()));
    }
    Ok(FrameHeader { version, len, trace_id })
}

//------------ Parsing -------------------------------------------------------

/// Whether the capabilities from a position on can be stepped over: none of the
/// two session capabilities that need a value comes without one.
pub open spec fn capabilities_ok(b: Seq<u8>, pos: int, end: int) -> bool
    decreases
            (if pos <= b.len() {
                b.len() - pos
            } else {
                0
            }),
{
    if pos < 0 || pos >= end || pos + 2 > b.len() {
        true
    } else if (b[pos] == 68 || b[pos] == 131) && b[pos + 1] == 0 {
        false
    } else {
        capabilities_ok(b, pos + 2 + b[pos + 1], end)
    }
}

/// Whether the optional parameters from a position on can be stepped over: no
/// parameter goes beyond the size that is left for all of them.
pub open spec fn parameters_ok(b: Seq<u8>, pos: int, left: int) -> bool
    decreases left,
{
    if pos < 0 || left <= 0 || pos + 2 > b.len() {
        true
    } else {
        let len = b[pos + 1] as int;
        if b[pos] == 2 && !capabilities_ok(b, pos + 2, pos + len) {
            false
        } else if pos + 2 + len > b.len() {
            true
        } else if 2 + len > left {
            false
        } else {
            parameters_ok(b, pos + 2 + len, left - 2 - len)
        }
    }
}

/// Whether a BGP marker stands at a position.
pub open spec fn has_marker(b: Seq<u8>, pos: int) -> bool {
    forall|i: int| pos <= i < pos + 16 ==> #[trigger] b[i] == 0xff
}

/// Whether the OPEN at a position can be stepped over. One without marker, or
/// with parameters that go beyond the message, is rejected before that.
pub open spec fn open_ok(b: Seq<u8>, pos: int) -> bool {
    pos + 29 > b.len() || !has_marker(b, pos) || pos + 29 + b[pos + 28] > b.len()
        || parameters_ok(b, pos + 29, b[pos + 28] as int)
}

/// Whether the OPEN at a position has the size that it states. One that has not
/// is rejected, and what follows it is not looked at.
pub open spec fn open_ends(b: Seq<u8>, pos: int) -> bool {
    pos + 29 <= b.len() && has_marker(b, pos) && pos + 29 + b[pos + 28] <= b.len() && from_be16(
        b[pos + 16],
        b[pos + 17],
    ) == 29 + b[pos + 28]
}

/// Whether the parser can step over a message: the OPENs of a Peer Up have
/// parameters that stay within their sizes. A message of another version, or
/// about an unknown type of peer, is rejected before that.
pub open spec fn steps_over(b: Seq<u8>) -> bool {
    b.len() < 7 || b[5] != 3 || b[0] != 3 || b[6] > 3 || (open_ok(b, 68) && (open_ends(b, 68)
        ==> open_ok(b, 97 + b[96])))
}

/// Why the BMP parser rejects a message, if it does.
pub uninterp spec fn bmp_parse_error(message: Seq<u8>) -> Option<Seq<char>>;

/// `routecore::bmp::message::Message::from_octets`: parses a BMP message, and
/// says why if it fails. The outcome depends on the message alone.
///
/// The parser computes with the sizes of the parameters in a Peer Up without
/// checking them first. Messages on which that goes below zero, and the parser
/// panics where overflow is checked, are left out.
#[verifier::external_body]
fn parse_bmp(message: &[u8]) -> (error: Option<String>)
    requires
        steps_over(message@),
    ensures
        opt_text(error) == bmp_parse_error(message@),
{
    BmpMsg::from_octets(message).err().map(|e| e.to_string())
}

/// Whether the capabilities from a position on can be stepped over.
fn check_capabilities(b: &[u8], start: usize, end: usize) -> (ok: bool)
    requires
        b@.len() <= MAX_BMP_MSG_LEN,
    ensures
        ok == capabilities_ok(b@, start as int, end as int),
{
    let mut pos: usize = start;
    while pos < end && pos <= b.len() && b.len() - pos >= 2
        invariant
            b@.len() <= MAX_BMP_MSG_LEN,
            capabilities_ok(b@, start as int, end as int) == capabilities_ok(
                b@,
                pos as int,
                end as int,
            ),
        decreases
                (if pos <= b@.len() {
                    b@.len() - pos
                } else {
                    0
                }),
    {
        if (b[pos] == 68 || b[pos] == 131) && b[pos + 1] == 0 {
            return false;
        }
        pos = pos + 2 + b[pos + 1] as usize;
    }
    true
}

/// Whether the optional parameters from a position on can be stepped over.
fn check_parameters(b: &[u8], start: usize, size: usize) -> (ok: bool)
    requires
        b@.len() <= MAX_BMP_MSG_LEN,
    ensures
        ok == parameters_ok(b@, start as int, size as int),
{
    let mut pos: usize = start;
    let mut left: usize = size;
    while left > 0 && pos <= b.len() && b.len() - pos >= 2
        invariant
            b@.len() <= MAX_BMP_MSG_LEN,
            parameters_ok(b@, start as int, size as int) == parameters_ok(
                b@,
                pos as int,
                left as int,
            ),
        decreases left,
    {
        let len: usize = b[pos + 1] as usize;
        if b[pos] == 2 && !check_capabilities(b, pos + 2, pos + len) {
            return false;
        }
        if pos + 2 + len > b.len() {
            return true;
        }
        if 2 + len > left {
            return false;
        }
        pos = pos + 2 + len;
        left = left - 2 - len;
    }
    true
}

/// Whether a BGP marker stands at a position.
fn check_marker(b: &[u8], pos: usize) -> (yes: bool)
    requires
        pos + 16 <= b@.len(),
        pos <= 70_000,
    ensures
        yes == has_marker(b@, pos as int),
{
    let mut i: usize = pos;
    while i < pos + 16
        invariant
            pos <= i <= pos + 16,
            pos + 16 <= b@.len(),
            pos <= 70_000,
            forall|j: int| pos <= j < i ==> #[trigger] b@[j] == 0xff,
        decreases pos + 16 - i,
    {
        if b[i] != 0xff {
            assert(b@[i as int] != 0xff);
            return false;
        }
        i += 1;
    }
    true
}

/// Whether the OPEN at a position can be stepped over.
fn check_open(b: &[u8], pos: usize) -> (ok: bool)
    requires
        b@.len() <= MAX_BMP_MSG_LEN,
        pos <= 70_000,
    ensures
        ok == open_ok(b@, pos as int),
{
    pos + 29 > b.len() || !check_marker(b, pos) || pos + 29 + b[pos + 28] as usize > b.len()
        || check_parameters(b, pos + 29, b[pos + 28] as usize)
}

/// Whether the parser can step over a message.
pub fn parser_steps_over(b: &[u8]) -> (ok: bool)
    requires
        b@.len() <= MAX_BMP_MSG_LEN,
    ensures
        ok == steps_over(b@),
{
    if b.len() < 7 || b[5] != 3 || b[0] != 3 || b[6] > 3 {
        return true;
    }
    if !check_open(b, 68) {
        return false;
    }
    let ends = b.len() >= 97 && check_marker(b, 68) && 97 + b[96] as usize <= b.len()
        && b[84] as usize * 0x100 + b[85] as usize == 29 + b[96] as usize;
    assert(ends == open_ends(b@, 68));
    !ends || check_open(b, 97 + b[96] as usize)
}

/// What a whole message, and the trace that it belongs to, come to: the message
/// itself if the parser accepts it.
pub open spec fn parsed_as(
    message: Seq<u8>,
    trace_id: u8,
    parse_error: Option<Seq<char>>,
    res: Result<(Vec<u8>, u8), IoError>,
) -> bool {
    match parse_error {
        Some(text) => res matches Err(e) && e.kind_spec() == ErrorKind::Other && e.text() == text,
        None => res matches Ok(m) && m.0@ == message && m.1 == trace_id,
    }
}

/// Says what a message comes to, given why the parser rejected it, if it did.
pub fn judge_frame(message: Vec<u8>, trace_id: u8, parse_error: Option<String>) -> (res: Result<
    (Vec<u8>, u8),
    IoError,
>)
    ensures
        parsed_as(message@, trace_id, opt_text(parse_error), res),
{
    match parse_error {
        Some(text) => Err(IoError::other(text)),
        None => Ok((message, trace_id)),
    }
}

/// Puts a message together: its first octets as they were checked, and the
/// rest.
pub fn whole_frame(header: &FrameHeader, prefix: &[u8], rest: &[u8]) -> (message: Vec<u8>)
    requires
        prefix@.len() == BMP_PREFIX_LEN,
        BMP_PREFIX_LEN + rest@.len() == header.len,
    ensures
        message@ == prefix@.update(0, header.version) + rest@,
{
    let mut message: Vec<u8> = Vec::with_capacity(header.len);
    message.push(header.version);
    crate::wire::push_bytes(
        &mut message,
        vstd::slice::slice_subrange(prefix, 1, BMP_PREFIX_LEN),
    );
    crate::wire::push_bytes(&mut message, rest);
    assert(message@ =~= prefix@.update(0, header.version) + rest@);
    message
}

/// Takes a whole message. It is handed on if the parser accepts it.
///
/// A message that the parser cannot step over is left out: the parser panics on
/// it where overflow is checked.
pub fn finish_frame(message: Vec<u8>, trace_id: u8) -> (res: Result<(Vec<u8>, u8), IoError>)
    requires
        steps_over(message@),
    ensures
        parsed_as(message@, trace_id, bmp_parse_error(message@), res),
{
    let parse_error = parse_bmp(message.as_slice());
    judge_frame(message, trace_id, parse_error)
}

/// The message at the start of some octets, if they hold one with a size that
/// is accepted.
pub open spec fn first_frame(input: Seq<u8>, tracing_mode: TracingMode) -> Option<Seq<u8>> {
    if input.len() < BMP_PREFIX_LEN {
        None
    } else {
        let len = stated_len(input.take(BMP_PREFIX_LEN as int));
        if len < MIN_BMP_MSG_LEN || len > MAX_BMP_MSG_LEN || input.len() < len {
            None
        } else {
            Some(input.take(len as int).update(0, version_of(input[0], tracing_mode)))
        }
    }
}

/// Whether the parser can step over the message at the start of some octets, if
/// they hold one.
pub open spec fn can_be_read(input: Seq<u8>, tracing_mode: TracingMode) -> bool {
    first_frame(input, tracing_mode) matches Some(message) ==> steps_over(message)
}

/// Finds the message at the start of some octets, with the trace that it
/// belongs to.
fn split_frame(input: &[u8], tracing_mode: TracingMode) -> (res: Result<(Vec<u8>, u8), IoError>)
    ensures
        match first_frame(input@, tracing_mode) {
            Some(message) => res matches Ok(m) && m.0@ == message && m.1 == trace_of(
                input@[0],
                tracing_mode,
            ),
            None => {
                let len = stated_len(input@.take(BMP_PREFIX_LEN as int));
                res matches Err(e) && if input@.len() >= BMP_PREFIX_LEN && (len < MIN_BMP_MSG_LEN
                    || len > MAX_BMP_MSG_LEN) {
                    e.kind_spec() == ErrorKind::InvalidData && e.text() == out_of_range_text(len)
                } else {
                    e.kind_spec() == ErrorKind::UnexpectedEof && e.text() == "early eof"@
                }
            },
        },
{
    if input.len() < BMP_PREFIX_LEN {
        return Err(IoError::new(ErrorKind::UnexpectedEof, "early eof"));
    }
    let prefix = vstd::slice::slice_subrange(input, 0, BMP_PREFIX_LEN);
    assert(prefix@ =~= input@.take(BMP_PREFIX_LEN as int));
    let header = match check_header(prefix, tracing_mode) {
        Ok(header) => header,
        Err(e) => {
            return Err(e);
        },
    };
    if input.len() < header.len {
        return Err(IoError::new(ErrorKind::UnexpectedEof, "early eof"));
    }
    let rest = vstd::slice::slice_subrange(input, BMP_PREFIX_LEN, header.len);
    let message = whole_frame(&header, prefix, rest);
    assert(prefix@.update(0, header.version) + rest@ =~= input@.take(header.len as int).update(
        0,
        header.version,
    ));
    Ok((message, header.trace_id))
}

/// Whether the parser can step over the message at the start of some octets, if
/// they hold one.
pub fn is_readable(input: &[u8], tracing_mode: TracingMode) -> (yes: bool)
    ensures
        yes == can_be_read(input@, tracing_mode),
{
    match split_frame(input, tracing_mode) {
        Ok((message, _)) => parser_steps_over(message.as_slice()),
        Err(_) => true,
    }
}

/// What reading one message from some octets comes to: the message at their
/// start, if there is one and the parser accepts it; else why there is none.
pub open spec fn was_read(
    input: Seq<u8>,
    tracing_mode: TracingMode,
    res: Result<(Vec<u8>, u8), IoError>,
) -> bool {
    match first_frame(input, tracing_mode) {
        Some(message) => parsed_as(
            message,
            trace_of(input[0], tracing_mode),
            bmp_parse_error(message),
            res,
        ),
        None => {
            let len = stated_len(input.take(BMP_PREFIX_LEN as int));
            res matches Err(e) && if input.len() >= BMP_PREFIX_LEN && (len < MIN_BMP_MSG_LEN || len
                > MAX_BMP_MSG_LEN) {
                e.kind_spec() == ErrorKind::InvalidData && e.text() == out_of_range_text(len)
            } else {
                e.kind_spec() == ErrorKind::UnexpectedEof && e.text() == "early eof"@
            }
        },
    }
}

/// Reads one message from the octets that a stream holds up to its end.
///
/// A message that the parser cannot step over is left out: the parser panics on
/// it where overflow is checked.
pub fn bmp_read(input: &[u8], tracing_mode: TracingMode) -> (res: Result<(Vec<u8>, u8), IoError>)
    requires
        can_be_read(input@, tracing_mode),
    ensures
        was_read(input@, tracing_mode, res),
{
    match split_frame(input, tracing_mode) {
        Ok((message, trace_id)) => finish_frame(message, trace_id),
        Err(e) => Err(e),
    }
}

//------------ BmpStream -----------------------------------------------------

/// What a stream is waiting for came about.
#[derive(Debug)]
pub enum StreamEvent<S> {
    /// The unit is shut down.
    Terminated,
    /// The status of the unit changed.
    StatusChanged(S),
    /// Reading failed.
    ReadFailed(IoError),
    /// A message was read, with the trace that it belongs to.
    MessageRead(Vec<u8>, u8),
}

/// What a stream returns: a message, the last status change that came before
/// it, and the trace that the message belongs to. There is no message if the
/// unit is shut down.
pub type StreamItem<S> = (Option<Vec<u8>>, Option<S>, u8);

/// A stream of BMP messages, while one of them is awaited.
#[derive(Debug)]
pub struct BmpStream<S> {
    has_receiver: bool,
    saved_status: Option<S>,
}

/// What starting to wait for a message does: it fails on a stream that was given
/// up, and else forgets any status change.
pub open spec fn stream_started<S>(
    before: BmpStream<S>,
    after: BmpStream<S>,
    res: Result<(), IoError>,
) -> bool {
    &&& after.status() == None::<S>
    &&& before.receiving() ==> res is Ok && !after.receiving()
    &&& !before.receiving() ==> !after.receiving() && (res matches Err(e) && e.kind_spec()
        == ErrorKind::Other && e.text() == "Internal error: no receiver available"@)
}

/// What an event does while a message is awaited.
pub open spec fn stream_moved<S>(
    before: BmpStream<S>,
    after: BmpStream<S>,
    event: StreamEvent<S>,
    res: Option<Result<StreamItem<S>, IoError>>,
) -> bool {
    match event {
        StreamEvent::Terminated => {
            &&& res matches Some(Ok(item)) && item == (None::<Vec<u8>>, None::<S>, 0u8)
            &&& !after.receiving()
        },
        StreamEvent::StatusChanged(status) => {
            &&& res is None
            &&& after.status() == Some(status)
            &&& !after.receiving()
        },
        StreamEvent::ReadFailed(e) => {
            &&& res matches Some(Err(f)) && f == e
            &&& after.receiving() == !e.fatal()
        },
        StreamEvent::MessageRead(msg, trace_id) => {
            &&& res matches Some(Ok(item)) && item == (Some(msg), before.status(), trace_id)
            &&& after.receiving()
        },
    }
}

impl<S> BmpStream<S> {
    /// Whether more can be read.
    pub closed spec fn receiving(&self) -> bool {
        self.has_receiver
    }

    /// The last status change since the last message.
    pub closed spec fn status(&self) -> Option<S> {
        self.saved_status
    }

    /// A stream that was just opened.
    pub fn new() -> (stream: Self)
        ensures
            stream.receiving(),
            stream.status() == None::<S>,
    {
        BmpStream { has_receiver: true, saved_status: None }
    }

    /// Starts to wait for a message. That fails on a stream that was given up.
    pub fn start(&mut self) -> (res: Result<(), IoError>)
        ensures
            stream_started(*old(self), *final(self), res),
    {
        self.saved_status = None;
        if self.has_receiver {
            self.has_receiver = false;
            Ok(())
        } else {
            Err(IoError::other("Internal error: no receiver available".to_owned()))
        }
    }

    /// Takes an event while a message is awaited. Returns what the stream
    /// returns, or nothing if the wait goes on.
    ///
    /// The stream can be read again after a message and after an error that is
    /// not fatal. A status change is kept and returned with the next message.
    pub fn next(&mut self, event: StreamEvent<S>) -> (res: Option<Result<StreamItem<S>, IoError>>)
        requires
            !old(self).receiving(),
        ensures
            stream_moved(*old(self), *final(self), event, res),
    {
        match event {
            StreamEvent::Terminated => Some(Ok((None, None, 0))),
            StreamEvent::StatusChanged(status) => {
                self.saved_status = Some(status);
                None
            },
            StreamEvent::ReadFailed(e) => {
                if !e.is_fatal() {
                    self.has_receiver = true;
                }
                Some(Err(e))
            },
            StreamEvent::MessageRead(msg, trace_id) => {
                self.has_receiver = true;
                let mut status: Option<S> = None;
                std::mem::swap(&mut status, &mut self.saved_status);
                Some(Ok((Some(msg), status, trace_id)))
            },
        }
    }
}

//------------ Laws ----------------------------------------------------------

proof fn size_is_read(prefix: Seq<u8>)
    requires
        prefix.len() >= 5,
    ensures
        stated_len(prefix) == octets_value(prefix.subrange(1, 5)),
{
    let b = prefix.subrange(1, 5);
    let c = b.drop_last();
    let d = c.drop_last();
    let e = d.drop_last();
    assert(e.drop_last() =~= Seq::empty());
    assert(octets_value(e.drop_last()) == 0);
    assert(octets_value(e) == b[0]);
    assert(octets_value(d) == b[0] * 0x100 + b[1]);
    assert(octets_value(c) == (b[0] * 0x100 + b[1]) * 0x100 + b[2]);
    assert(octets_value(b) == ((b[0] * 0x100 + b[1]) * 0x100 + b[2]) * 0x100 + b[3]);
}

/// A message is found at the start of some octets exactly where they hold as
/// many as its second to fifth octets state, and these are at least six and no
/// more than two mebibytes. What is found has that many octets, and they are
/// those that came but for the first.
pub proof fn frame_is_as_long_as_it_states(input: Seq<u8>, tracing_mode: TracingMode)
    ensures
        first_frame(input, tracing_mode) is Some <==> input.len() >= 5 && 6 <= octets_value(
            input.subrange(1, 5),
        ) <= 2 * 1024 * 1024 && octets_value(input.subrange(1, 5)) <= input.len(),
        first_frame(input, tracing_mode) matches Some(m) ==> m.len() == octets_value(
            input.subrange(1, 5),
        ) && m.skip(1) == input.subrange(1, m.len() as int),
{
    if input.len() >= 5 {
        let prefix = input.take(5);
        size_is_read(prefix);
        assert(prefix.subrange(1, 5) =~= input.subrange(1, 5));
        if let Some(m) = first_frame(input, tracing_mode) {
            assert(m.skip(1) =~= input.subrange(1, m.len() as int));
        }
    }
}

/// The first octet of a message and the trace that it belongs to make up the
/// octet that came: with tracing, they are its two halves, and without, the
/// octet is the version and there is no trace.
pub proof fn first_octet_is_version_and_trace(input: Seq<u8>, tracing_mode: TracingMode)
    requires
        first_frame(input, tracing_mode) is Some,
    ensures
        ({
            let version = first_frame(input, tracing_mode)->0[0];
            let trace = trace_of(input[0], tracing_mode);
            &&& trace * 16 + version == input[0]
            &&& tracing_mode == TracingMode::Off ==> trace == 0
            &&& tracing_mode != TracingMode::Off ==> version < 16
        }),
{
}

/// A message that states its size is read back whole, whatever follows it in
/// the stream. The same holds with tracing where its first octet is a version
/// without a trace, as that of every message that is sent is.
pub proof fn sent_message_is_framed(message: Seq<u8>, rest: Seq<u8>, tracing_mode: TracingMode)
    requires
        6 <= message.len() <= MAX_BMP_MSG_LEN,
        octets_value(message.subrange(1, 5)) == message.len(),
        tracing_mode == TracingMode::Off || message[0] < 16,
    ensures
        first_frame(message + rest, tracing_mode) == Some(message),
        trace_of((message + rest)[0], tracing_mode) == 0 || tracing_mode == TracingMode::Off,
{
    let input = message + rest;
    assert(input.subrange(1, 5) =~= message.subrange(1, 5));
    frame_is_as_long_as_it_states(input, tracing_mode);
    first_octet_is_version_and_trace(input, tracing_mode);
    let m = first_frame(input, tracing_mode)->0;
    assert(m.skip(1) =~= message.skip(1));
    assert forall|i: int| 0 <= i < m.len() implies m[i] == message[i] by {
        if i > 0 {
            assert(m.skip(1)[i - 1] == message.skip(1)[i - 1]);
        }
    }
    assert(m =~= message);
}

/// What follows a message does not change what it comes to.
pub proof fn later_octets_do_not_matter(input: Seq<u8>, more: Seq<u8>, tracing_mode: TracingMode)
    requires
        first_frame(input, tracing_mode) is Some,
    ensures
        first_frame(input + more, tracing_mode) == first_frame(input, tracing_mode),
{
    assert((input + more).take(5) =~= input.take(5));
    let len = stated_len(input.take(5)) as int;
    assert((input + more).take(len) =~= input.take(len));
}

/// What is read is the message that the octets start with: as many as its second
/// to fifth octets state, the first one parted into version and trace. The
/// reading fails in one of three ways. The stream ended before the message did;
/// the message states a size below six or above two mebibytes; or the parser
/// rejects it, and only then can reading go on.
pub proof fn read_message_came_first(
    input: Seq<u8>,
    tracing_mode: TracingMode,
    res: Result<(Vec<u8>, u8), IoError>,
)
    requires
        was_read(input, tracing_mode, res),
    ensures
        ({
            let size = octets_value(input.subrange(1, 5));
            let fits = 6 <= size <= 2 * 1024 * 1024;
            match res {
                Ok((message, trace)) => {
                    &&& message@.len() == size && fits && size <= input.len()
                    &&& message@.skip(1) == input.subrange(1, size as int)
                    &&& trace * 16 + message@[0] == input[0]
                    &&& bmp_parse_error(message@) is None
                },
                Err(e) => {
                    &&& e.kind_spec() == ErrorKind::UnexpectedEof <==> input.len() < 5 || (fits
                        && input.len() < size)
                    &&& e.kind_spec() == ErrorKind::InvalidData <==> input.len() >= 5 && !fits
                    &&& e.fatal() <==> input.len() < 5 || !fits || input.len() < size
                },
            }
        }),
{
    frame_is_as_long_as_it_states(input, tracing_mode);
    if input.len() >= 5 {
        size_is_read(input.take(5));
        assert(input.take(5).subrange(1, 5) =~= input.subrange(1, 5));
    }
    if first_frame(input, tracing_mode) is Some {
        first_octet_is_version_and_trace(input, tracing_mode);
    }
}

/// A status change is returned with the next message, and only with that: of two
/// status changes the last one counts, and a message that none came before since
/// the wait for it began is returned without.
pub proof fn last_status_comes_with_the_message<S>(
    streams: (BmpStream<S>, BmpStream<S>, BmpStream<S>, BmpStream<S>),
    statuses: (S, S),
    message: (Vec<u8>, u8),
    res: Option<Result<StreamItem<S>, IoError>>,
)
    requires
        stream_moved(streams.0, streams.1, StreamEvent::StatusChanged(statuses.0), None),
        stream_moved(streams.1, streams.2, StreamEvent::StatusChanged(statuses.1), None),
        stream_moved(
            streams.2,
            streams.3,
            StreamEvent::MessageRead(message.0, message.1),
            res,
        ),
    ensures
        res == Some(
            Ok::<StreamItem<S>, IoError>((Some(message.0), Some(statuses.1), message.1)),
        ),
        forall|again: BmpStream<S>, end: BmpStream<S>, started: Result<(), IoError>, more: Option<
            Result<StreamItem<S>, IoError>,
        >|
            #![trigger stream_started(streams.3, again, started), stream_moved(
                again,
                end,
                StreamEvent::MessageRead(message.0, message.1),
                more,
            )]
            stream_started(streams.3, again, started) && stream_moved(
                again,
                end,
                StreamEvent::MessageRead(message.0, message.1),
                more,
            ) ==> started is Ok && more == Some(
                Ok::<StreamItem<S>, IoError>((Some(message.0), None, message.1)),
            ),
{
}

/// After an error the next message can be awaited exactly where the error is not
/// fatal, which leaves a timeout, an interruption and an error of no particular
/// kind, such as a message that the parser rejects; and after the end of the unit
/// none can.
pub proof fn reading_goes_on_unless_fatal<S>(
    first: BmpStream<S>,
    second: BmpStream<S>,
    third: BmpStream<S>,
    event: StreamEvent<S>,
    res: Option<Result<StreamItem<S>, IoError>>,
    started: Result<(), IoError>,
)
    requires
        stream_moved(first, second, event, res),
        stream_started(second, third, started),
    ensures
        event matches StreamEvent::ReadFailed(e) ==> res == Some(Err::<StreamItem<S>, IoError>(e))
            && (started is Ok <==> e.kind_spec() == ErrorKind::TimedOut || e.kind_spec()
            == ErrorKind::Interrupted || e.kind_spec() == ErrorKind::Other),
        event is Terminated ==> started is Err,
        event is MessageRead ==> started is Ok,
{
}

} // verus!
