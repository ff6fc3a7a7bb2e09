//! The binary debugger protocol.
//!
//! Each frame is `[u32 LE length][u16 LE version][u8 kind][body]`; the length
//! counts what follows it. Strings travel behind their byte length, options
//! behind a byte that is `0` or `1`.

use crate::debug::BreakpointId;
use crate::text;
use crate::text::{push_hex2, string_from_utf8};
use crate::views;
use crate::wire;
use crate::wire::{copy_range, push_all, push_le, read_le};
use vstd::prelude::*;
use vstd::utf8::{decode_utf8, encode_utf8, valid_utf8};

verus! {

/// Protocol version this build implements.
pub const PROTOCOL_VERSION: u16 = 0x0001;

/// One scalar value the debugger ships over the wire; aggregates travel as a
/// short summary text.
#[derive(Clone, Debug, PartialEq)]
pub enum WireValue {
    /// `nil`
    Nil,
    /// Boolean.
    Bool(bool),
    /// Signed 64-bit integer.
    Int(i64),
    /// 64-bit float (bit pattern for total equality).
    FloatBits(u64),
    /// UTF-8 string.
    Str(String),
    /// Opaque aggregate summary (e.g. `Array(3 items)`).
    Summary(String),
}

/// The model of a [`WireValue`].
pub enum WireModel {
    Nil,
    Bool(bool),
    Int(i64),
    FloatBits(u64),
    Str(Seq<char>),
    Summary(Seq<char>),
}

impl View for WireValue {
    type V = WireModel;

    open spec fn view(&self) -> WireModel {
        match *self {
            WireValue::Nil => WireModel::Nil,
            WireValue::Bool(x) => WireModel::Bool(x),
            WireValue::Int(x) => WireModel::Int(x),
            WireValue::FloatBits(x) => WireModel::FloatBits(x),
            WireValue::Str(x) => WireModel::Str(x@),
            WireValue::Summary(x) => WireModel::Summary(x@),
        }
    }
}

/// The text of an optional string.
pub open spec fn opt_text(o: Option<String>) -> Option<Seq<char>> {
    match o {
        Some(s) => Some(s@),
        None => None,
    }
}

/// Why execution stopped, carried by [`Event::Stopped`].
#[derive(Clone, Copy, Debug, PartialEq, Eq, Structural)]
pub enum StopReason {
    /// `Pause` request.
    Pause,
    /// `StepOver`, `StepInto`, `StepOut` completed.
    Step,
    /// A breakpoint fired.
    Breakpoint,
    /// An exception fired.
    Exception,
    /// The machine entered a host function that asked the debugger to pause.
    FfiPause,
    /// A `RunToCursor` reached its target.
    Cursor,
}

/// Description of one stack frame in a `ListFrames` response.
#[derive(Clone, Debug, PartialEq)]
pub struct FrameInfo {
    /// Frame index (0 = top of stack).
    pub index: u32,
    /// Function name.
    pub function: String,
    /// 1-based source line at the current PC.
    pub line: u32,
}

/// The model of a [`FrameInfo`].
pub struct FrameModel {
    pub index: u32,
    pub function: Seq<char>,
    pub line: u32,
}

impl View for FrameInfo {
    type V = FrameModel;

    open spec fn view(&self) -> FrameModel {
        FrameModel { index: self.index, function: self.function@, line: self.line }
    }
}

/// One register in a `ListLocals` response.
#[derive(Clone, Debug, PartialEq)]
pub struct Local {
    /// Local name (`r0`, `r1`, …).
    pub name: String,
    /// Register index.
    pub reg: u8,
    /// Current value.
    pub value: WireValue,
    /// Whether the value changed since the last pause.
    pub dirty: bool,
}

/// The model of a [`Local`].
pub struct LocalModel {
    pub name: Seq<char>,
    pub reg: u8,
    pub value: WireModel,
    pub dirty: bool,
}

impl View for Local {
    type V = LocalModel;

    open spec fn view(&self) -> LocalModel {
        LocalModel { name: self.name@, reg: self.reg, value: self.value@, dirty: self.dirty }
    }
}

/// Client to server requests.
#[derive(Clone, Debug, PartialEq)]
pub enum Request {
    /// Install a breakpoint at `(file_id, line)`.
    SetBreakpoint { file_id: u32, line: u32, condition: Option<String>, hit_count: Option<u32> },
    /// Install a function-name breakpoint.
    SetFunctionBreakpoint { fn_name: String },
    /// Subscribe to exception breakpoints, by a bitmask of exception classes.
    SetExceptionBreakpoint { mask: u32 },
    /// Remove a breakpoint.
    ClearBreakpoint { id: BreakpointId },
    /// Continue execution.
    Continue,
    /// Pause execution at the next safepoint.
    Pause,
    /// Step over the next source line.
    StepOver,
    /// Step into the next call.
    StepInto,
    /// Step out of the current frame.
    StepOut,
    /// Continue until execution reaches `(file_id, line)`.
    RunToCursor { file_id: u32, line: u32 },
    /// Request the current call stack.
    ListFrames,
    /// Request the locals of a frame (0 = top).
    ListLocals { frame_id: u32 },
    /// Expand a structured value at a dot-separated `path`, such as `r2.x`.
    ExpandValue { frame_id: u32, path: String },
    /// Mutate a local.
    SetLocal { frame_id: u32, name: String, value: WireValue },
    /// Install a watch expression.
    Watch { expr: String },
    /// Remove a watch expression.
    Unwatch { id: u32 },
    /// Evaluate a const expression against the loaded module.
    EvalConst { expr: String },
    /// Disconnect the debugger client.
    Detach,
}

/// The model of a [`Request`].
pub enum RequestModel {
    SetBreakpoint { file_id: u32, line: u32, condition: Option<Seq<char>>, hit_count: Option<u32> },
    SetFunctionBreakpoint { fn_name: Seq<char> },
    SetExceptionBreakpoint { mask: u32 },
    ClearBreakpoint { id: BreakpointId },
    Continue,
    Pause,
    StepOver,
    StepInto,
    StepOut,
    RunToCursor { file_id: u32, line: u32 },
    ListFrames,
    ListLocals { frame_id: u32 },
    ExpandValue { frame_id: u32, path: Seq<char> },
    SetLocal { frame_id: u32, name: Seq<char>, value: WireModel },
    Watch { expr: Seq<char> },
    Unwatch { id: u32 },
    EvalConst { expr: Seq<char> },
    Detach,
}

impl View for Request {
    type V = RequestModel;

    open spec fn view(&self) -> RequestModel {
        match *self {
            Request::SetBreakpoint { file_id, line, condition, hit_count } => RequestModel::SetBreakpoint { file_id, line, condition: opt_text(condition), hit_count },
            Request::SetFunctionBreakpoint { fn_name } => RequestModel::SetFunctionBreakpoint { fn_name: fn_name@ },
            Request::SetExceptionBreakpoint { mask } => RequestModel::SetExceptionBreakpoint { mask },
            Request::ClearBreakpoint { id } => RequestModel::ClearBreakpoint { id },
            Request::Continue => RequestModel::Continue,
            Request::Pause => RequestModel::Pause,
            Request::StepOver => RequestModel::StepOver,
            Request::StepInto => RequestModel::StepInto,
            Request::StepOut => RequestModel::StepOut,
            Request::RunToCursor { file_id, line } => RequestModel::RunToCursor { file_id, line },
            Request::ListFrames => RequestModel::ListFrames,
            Request::ListLocals { frame_id } => RequestModel::ListLocals { frame_id },
            Request::ExpandValue { frame_id, path } => RequestModel::ExpandValue { frame_id, path: path@ },
            Request::SetLocal { frame_id, name, value } => RequestModel::SetLocal { frame_id, name: name@, value: value@ },
            Request::Watch { expr } => RequestModel::Watch { expr: expr@ },
            Request::Unwatch { id } => RequestModel::Unwatch { id },
            Request::EvalConst { expr } => RequestModel::EvalConst { expr: expr@ },
            Request::Detach => RequestModel::Detach,
        }
    }
}

/// Server to client responses; each request gets one.
#[derive(Clone, Debug, PartialEq)]
pub enum Response {
    /// Generic ack with no payload.
    Ack,
    /// Allocated breakpoint id.
    BreakpointId(BreakpointId),
    /// Allocated watch id.
    WatchId(u32),
    /// Resolved const value.
    ConstValue(WireValue),
    /// Snapshot of the call stack.
    Frames(Vec<FrameInfo>),
    /// Snapshot of one frame's locals.
    Locals(Vec<Local>),
    /// Expanded value.
    Value(WireValue),
    /// The request failed; carries an error string.
    Error(String),
}

/// The model of a [`Response`].
pub enum ResponseModel {
    Ack,
    BreakpointId(BreakpointId),
    WatchId(u32),
    ConstValue(WireModel),
    Frames(Seq<FrameModel>),
    Locals(Seq<LocalModel>),
    Value(WireModel),
    Error(Seq<char>),
}

impl View for Response {
    type V = ResponseModel;

    open spec fn view(&self) -> ResponseModel {
        match *self {
            Response::Ack => ResponseModel::Ack,
            Response::BreakpointId(x) => ResponseModel::BreakpointId(x),
            Response::WatchId(x) => ResponseModel::WatchId(x),
            Response::ConstValue(x) => ResponseModel::ConstValue(x@),
            Response::Frames(x) => ResponseModel::Frames(views::views(x@)),
            Response::Locals(x) => ResponseModel::Locals(views::views(x@)),
            Response::Value(x) => ResponseModel::Value(x@),
            Response::Error(x) => ResponseModel::Error(x@),
        }
    }
}

/// Server to client unsolicited events.
#[derive(Clone, Debug, PartialEq)]
pub enum Event {
    /// Execution paused.
    Stopped { reason: StopReason, fiber_id: u32, frame_id: u32 },
    /// A breakpoint was hit.
    BreakpointHit { id: BreakpointId, fiber_id: u32 },
    /// An exception fired.
    Exception { fiber_id: u32, message_id: u32 },
    /// One line of script output; stream `0` is stdout, `1` is stderr.
    OutputLine { stream: u8, text: String },
    /// A module was hot-reloaded; breakpoints have been re-armed.
    ModuleReloaded { file_id: u32 },
    /// Watch expression updated.
    WatchUpdate { id: u32, value: WireValue },
}

/// The model of an [`Event`].
pub enum EventModel {
    Stopped { reason: StopReason, fiber_id: u32, frame_id: u32 },
    BreakpointHit { id: BreakpointId, fiber_id: u32 },
    Exception { fiber_id: u32, message_id: u32 },
    OutputLine { stream: u8, text: Seq<char> },
    ModuleReloaded { file_id: u32 },
    WatchUpdate { id: u32, value: WireModel },
}

impl View for Event {
    type V = EventModel;

    open spec fn view(&self) -> EventModel {
        match *self {
            Event::Stopped { reason, fiber_id, frame_id } => EventModel::Stopped { reason, fiber_id, frame_id },
            Event::BreakpointHit { id, fiber_id } => EventModel::BreakpointHit { id, fiber_id },
            Event::Exception { fiber_id, message_id } => EventModel::Exception { fiber_id, message_id },
            Event::OutputLine { stream, text } => EventModel::OutputLine { stream, text: text@ },
            Event::ModuleReloaded { file_id } => EventModel::ModuleReloaded { file_id },
            Event::WatchUpdate { id, value } => EventModel::WatchUpdate { id, value: value@ },
        }
    }
}

/// Why a frame could not be decoded.
#[derive(Clone, Copy, Debug, PartialEq, Eq, Structural)]
pub enum ProtoError {
    /// The buffer ended before the message did.
    Truncated,
    /// The version field was missing.
    BadVersion,
    /// An optional-field tag was neither `0` nor `1`.
    BadOptional,
    /// A string field was not valid UTF-8.
    BadUtf8,
    /// A discriminator byte was unknown.
    UnknownTag(u8),
}

impl ProtoError {
    /// The text of the error.
    pub open spec fn text(self) -> Seq<char> {
        match self {
            ProtoError::Truncated => "truncated frame"@,
            ProtoError::BadVersion => "missing protocol version"@,
            ProtoError::BadOptional => "bad optional-field tag"@,
            ProtoError::BadUtf8 => "invalid utf-8 in string field"@,
            ProtoError::UnknownTag(t) => "unknown wire tag 0x"@ + text::hex2(t as nat),
        }
    }

    /// The message that describes the error.
    pub fn message(&self) -> (r: String)
        ensures
            r@ == self.text(),
    {
        match *self {
            ProtoError::Truncated => "truncated frame".to_owned(),
            ProtoError::BadVersion => "missing protocol version".to_owned(),
            ProtoError::BadOptional => "bad optional-field tag".to_owned(),
            ProtoError::BadUtf8 => "invalid utf-8 in string field".to_owned(),
            ProtoError::UnknownTag(t) => {
                let mut out = "unknown wire tag 0x".to_owned();
                push_hex2(&mut out, t);
                out
            },
        }
    }
}

// --- what is written ------------------------------------------------------------

/// Text behind its length in bytes.
pub open spec fn text_bytes(s: Seq<char>) -> Seq<u8> {
    wire::le(encode_utf8(s).len(), 4) + encode_utf8(s)
}

/// An optional text.
pub open spec fn opt_str_bytes(o: Option<Seq<char>>) -> Seq<u8> {
    match o {
        Some(s) => wire::le(1, 1) + text_bytes(s),
        None => wire::le(0, 1),
    }
}

/// An optional number.
pub open spec fn opt_u32_bytes(o: Option<u32>) -> Seq<u8> {
    match o {
        Some(n) => wire::le(1, 1) + wire::le(n as nat, 4),
        None => wire::le(0, 1),
    }
}

/// A scalar value behind its kind.
pub open spec fn value_bytes(v: WireModel) -> Seq<u8> {
    match v {
        WireModel::Nil => wire::le(0, 1),
        WireModel::Bool(x) => wire::le(1, 1) + wire::le(if x { 1 } else { 0 }, 1),
        WireModel::Int(x) => wire::le(2, 1) + wire::le((x as u64) as nat, 8),
        WireModel::FloatBits(x) => wire::le(3, 1) + wire::le(x as nat, 8),
        WireModel::Str(x) => wire::le(4, 1) + text_bytes(x),
        WireModel::Summary(x) => wire::le(5, 1) + text_bytes(x),
    }
}

/// The number of a reason.
pub open spec fn reason_code(r: StopReason) -> nat {
    match r {
        StopReason::Pause => 1,
        StopReason::Step => 2,
        StopReason::Breakpoint => 3,
        StopReason::Exception => 4,
        StopReason::FfiPause => 5,
        StopReason::Cursor => 6,
    }
}

/// One frame.
pub open spec fn frame_bytes(x: FrameModel) -> Seq<u8> {
    wire::le(x.index as nat, 4) + (text_bytes(x.function) + wire::le(x.line as nat, 4))
}

/// The first `k` of a list.
pub open spec fn frame_list(l: Seq<FrameModel>, k: int) -> Seq<u8>
    decreases k,
{
    if k <= 0 {
        Seq::empty()
    } else {
        frame_list(l, k - 1) + frame_bytes(l[k - 1])
    }
}

/// A list behind its length.
pub open spec fn frames_bytes(l: Seq<FrameModel>) -> Seq<u8> {
    wire::le(l.len(), 4) + frame_list(l, l.len() as int)
}

/// One local.
pub open spec fn local_bytes(x: LocalModel) -> Seq<u8> {
    text_bytes(x.name) + (wire::le(x.reg as nat, 1) + (value_bytes(x.value) + wire::le(if x.dirty { 1 } else { 0 }, 1)))
}

/// The first `k` of a list.
pub open spec fn local_list(l: Seq<LocalModel>, k: int) -> Seq<u8>
    decreases k,
{
    if k <= 0 {
        Seq::empty()
    } else {
        local_list(l, k - 1) + local_bytes(l[k - 1])
    }
}

/// A list behind its length.
pub open spec fn locals_bytes(l: Seq<LocalModel>) -> Seq<u8> {
    wire::le(l.len(), 4) + local_list(l, l.len() as int)
}

/// The kind byte of a request.
pub open spec fn request_tag(m: RequestModel) -> nat {
    match m {
        RequestModel::SetBreakpoint { .. } => 1,
        RequestModel::SetFunctionBreakpoint { .. } => 2,
        RequestModel::SetExceptionBreakpoint { .. } => 3,
        RequestModel::ClearBreakpoint { .. } => 4,
        RequestModel::Continue => 5,
        RequestModel::Pause => 6,
        RequestModel::StepOver => 7,
        RequestModel::StepInto => 8,
        RequestModel::StepOut => 9,
        RequestModel::RunToCursor { .. } => 10,
        RequestModel::ListFrames => 11,
        RequestModel::ListLocals { .. } => 12,
        RequestModel::ExpandValue { .. } => 13,
        RequestModel::SetLocal { .. } => 14,
        RequestModel::Watch { .. } => 15,
        RequestModel::Unwatch { .. } => 16,
        RequestModel::EvalConst { .. } => 17,
        RequestModel::Detach => 18,
    }
}

/// What follows the kind byte of a request.
pub open spec fn request_fields(m: RequestModel) -> Seq<u8> {
    match m {
        RequestModel::SetBreakpoint { file_id, line, condition, hit_count } => wire::le(file_id as nat, 4) + (wire::le(line as nat, 4) + (opt_str_bytes(condition) + opt_u32_bytes(hit_count))),
        RequestModel::SetFunctionBreakpoint { fn_name } => text_bytes(fn_name),
        RequestModel::SetExceptionBreakpoint { mask } => wire::le(mask as nat, 4),
        RequestModel::ClearBreakpoint { id } => wire::le(id.0 as nat, 4),
        RequestModel::Continue => Seq::empty(),
        RequestModel::Pause => Seq::empty(),
        RequestModel::StepOver => Seq::empty(),
        RequestModel::StepInto => Seq::empty(),
        RequestModel::StepOut => Seq::empty(),
        RequestModel::RunToCursor { file_id, line } => wire::le(file_id as nat, 4) + wire::le(line as nat, 4),
        RequestModel::ListFrames => Seq::empty(),
        RequestModel::ListLocals { frame_id } => wire::le(frame_id as nat, 4),
        RequestModel::ExpandValue { frame_id, path } => wire::le(frame_id as nat, 4) + text_bytes(path),
        RequestModel::SetLocal { frame_id, name, value } => wire::le(frame_id as nat, 4) + (text_bytes(name) + value_bytes(value)),
        RequestModel::Watch { expr } => text_bytes(expr),
        RequestModel::Unwatch { id } => wire::le(id as nat, 4),
        RequestModel::EvalConst { expr } => text_bytes(expr),
        RequestModel::Detach => Seq::empty(),
    }
}

/// A request: its kind and its fields.
pub open spec fn request_bytes(m: RequestModel) -> Seq<u8> {
    wire::le(request_tag(m), 1) + request_fields(m)
}

/// The kind byte of a response.
pub open spec fn response_tag(m: ResponseModel) -> nat {
    match m {
        ResponseModel::Ack => 0,
        ResponseModel::BreakpointId(_) => 1,
        ResponseModel::WatchId(_) => 2,
        ResponseModel::ConstValue(_) => 3,
        ResponseModel::Frames(_) => 4,
        ResponseModel::Locals(_) => 5,
        ResponseModel::Value(_) => 6,
        ResponseModel::Error(_) => 7,
    }
}

/// What follows the kind byte of a response.
pub open spec fn response_fields(m: ResponseModel) -> Seq<u8> {
    match m {
        ResponseModel::Ack => Seq::empty(),
        ResponseModel::BreakpointId(x) => wire::le(x.0 as nat, 4),
        ResponseModel::WatchId(x) => wire::le(x as nat, 4),
        ResponseModel::ConstValue(x) => value_bytes(x),
        ResponseModel::Frames(x) => frames_bytes(x),
        ResponseModel::Locals(x) => locals_bytes(x),
        ResponseModel::Value(x) => value_bytes(x),
        ResponseModel::Error(x) => text_bytes(x),
    }
}

/// A response: its kind and its fields.
pub open spec fn response_bytes(m: ResponseModel) -> Seq<u8> {
    wire::le(response_tag(m), 1) + response_fields(m)
}

/// The kind byte of an event.
pub open spec fn event_tag(m: EventModel) -> nat {
    match m {
        EventModel::Stopped { .. } => 1,
        EventModel::BreakpointHit { .. } => 2,
        EventModel::Exception { .. } => 3,
        EventModel::OutputLine { .. } => 4,
        EventModel::ModuleReloaded { .. } => 5,
        EventModel::WatchUpdate { .. } => 6,
    }
}

/// What follows the kind byte of an event.
pub open spec fn event_fields(m: EventModel) -> Seq<u8> {
    match m {
        EventModel::Stopped { reason, fiber_id, frame_id } => wire::le(reason_code(reason), 1) + (wire::le(fiber_id as nat, 4) + wire::le(frame_id as nat, 4)),
        EventModel::BreakpointHit { id, fiber_id } => wire::le(id.0 as nat, 4) + wire::le(fiber_id as nat, 4),
        EventModel::Exception { fiber_id, message_id } => wire::le(fiber_id as nat, 4) + wire::le(message_id as nat, 4),
        EventModel::OutputLine { stream, text } => wire::le(stream as nat, 1) + text_bytes(text),
        EventModel::ModuleReloaded { file_id } => wire::le(file_id as nat, 4),
        EventModel::WatchUpdate { id, value } => wire::le(id as nat, 4) + value_bytes(value),
    }
}

/// An event: its kind and its fields.
pub open spec fn event_bytes(m: EventModel) -> Seq<u8> {
    wire::le(event_tag(m), 1) + event_fields(m)
}

/// A body in its envelope; the length is kept to its low 32 bits.
pub open spec fn framed(body: Seq<u8>) -> Seq<u8> {
    wire::le(((body.len() + 2) % 0x1_0000_0000) as nat, 4) + (wire::le(PROTOCOL_VERSION as nat, 2) + body)
}

// --- what is read ---------------------------------------------------------------

/// The result of reading at a place, with the place behind what was read.
pub type Got<T> = Result<(T, int), ProtoError>;

/// A number in `n` bytes.
pub open spec fn number(b: Seq<u8>, p: int, n: int) -> Got<nat> {
    if p + n > b.len() {
        Err(ProtoError::Truncated)
    } else {
        Ok((wire::un_le(b.subrange(p, p + n)), p + n))
    }
}

/// Text behind its length.
pub open spec fn text(b: Seq<u8>, p: int) -> Got<Seq<char>> {
    match number(b, p, 4) {
        Err(e) => Err(e),
        Ok((n, q)) => if q + n > b.len() {
            Err(ProtoError::Truncated)
        } else if valid_utf8(b.subrange(q, q + n)) {
            Ok((decode_utf8(b.subrange(q, q + n)), q + n))
        } else {
            Err(ProtoError::BadUtf8)
        },
    }
}

/// An optional text.
pub open spec fn opt_str(b: Seq<u8>, p: int) -> Got<Option<Seq<char>>> {
    match number(b, p, 1) {
        Err(e) => Err(e),
        Ok((tag, q)) => if tag == 0 {
            Ok((None, q))
        } else if tag == 1 {
            match text(b, q) {
                Err(e) => Err(e),
                Ok((s, r)) => Ok((Some(s), r)),
            }
        } else {
            Err(ProtoError::BadOptional)
        },
    }
}

/// An optional number.
pub open spec fn opt_u32(b: Seq<u8>, p: int) -> Got<Option<u32>> {
    match number(b, p, 1) {
        Err(e) => Err(e),
        Ok((tag, q)) => if tag == 0 {
            Ok((None, q))
        } else if tag == 1 {
            match number(b, q, 4) {
                Err(e) => Err(e),
                Ok((n, r)) => Ok((Some(n as u32), r)),
            }
        } else {
            Err(ProtoError::BadOptional)
        },
    }
}

/// A scalar value behind its kind.
pub open spec fn value(b: Seq<u8>, p: int) -> Got<WireModel> {
    match number(b, p, 1) {
        Err(e) => Err(e),
        Ok((tag, q)) => if tag == 0 {
            Ok((WireModel::Nil, q))
        } else if tag == 1 {
            match number(b, q, 1) {
                Err(e) => Err(e),
                Ok((n, r)) => Ok((WireModel::Bool(n != 0), r)),
            }
        } else if tag == 2 {
            match number(b, q, 8) {
                Err(e) => Err(e),
                Ok((n, r)) => Ok((WireModel::Int((n as u64) as i64), r)),
            }
        } else if tag == 3 {
            match number(b, q, 8) {
                Err(e) => Err(e),
                Ok((n, r)) => Ok((WireModel::FloatBits(n as u64), r)),
            }
        } else if tag == 4 {
            match text(b, q) {
                Err(e) => Err(e),
                Ok((s, r)) => Ok((WireModel::Str(s), r)),
            }
        } else if tag == 5 {
            match text(b, q) {
                Err(e) => Err(e),
                Ok((s, r)) => Ok((WireModel::Summary(s), r)),
            }
        } else {
            Err(ProtoError::UnknownTag(tag as u8))
        },
    }
}

/// The reason of a number.
pub open spec fn reason_of(code: u8) -> Result<StopReason, ProtoError> {
    if code == 1 {
        Ok(StopReason::Pause)
    } else if code == 2 {
        Ok(StopReason::Step)
    } else if code == 3 {
        Ok(StopReason::Breakpoint)
    } else if code == 4 {
        Ok(StopReason::Exception)
    } else if code == 5 {
        Ok(StopReason::FfiPause)
    } else if code == 6 {
        Ok(StopReason::Cursor)
    } else {
        Err(ProtoError::UnknownTag(code))
    }
}

/// A reason.
pub open spec fn reason(b: Seq<u8>, p: int) -> Got<StopReason> {
    match number(b, p, 1) {
        Err(e) => Err(e),
        Ok((n, q)) => match reason_of(n as u8) {
            Err(e) => Err(e),
            Ok(r) => Ok((r, q)),
        },
    }
}

/// One frame.
pub open spec fn frame(b: Seq<u8>, p: int) -> Got<FrameModel> {
    match number(b, p, 4) {
        Err(e) => Err(e),
        Ok((v0, p0)) => match text(b, p0) {
            Err(e) => Err(e),
            Ok((v1, p1)) => match number(b, p1, 4) {
                Err(e) => Err(e),
                Ok((v2, p2)) => Ok((FrameModel { index: v0 as u32, function: v1, line: v2 as u32 }, p2)),
            },
        },
    }
}

/// `k` of them in a row.
pub open spec fn frames_from(b: Seq<u8>, p: int, k: int) -> Got<Seq<FrameModel>>
    decreases k,
{
    if k <= 0 {
        Ok((Seq::empty(), p))
    } else {
        match frames_from(b, p, k - 1) {
            Err(e) => Err(e),
            Ok((xs, q)) => match frame(b, q) {
                Err(e) => Err(e),
                Ok((x, r)) => Ok((xs.push(x), r)),
            },
        }
    }
}

/// A list behind its length.
pub open spec fn frames(b: Seq<u8>, p: int) -> Got<Seq<FrameModel>> {
    match number(b, p, 4) {
        Err(e) => Err(e),
        Ok((n, q)) => frames_from(b, q, n as int),
    }
}

/// One local.
pub open spec fn local(b: Seq<u8>, p: int) -> Got<LocalModel> {
    match text(b, p) {
        Err(e) => Err(e),
        Ok((v0, p0)) => match number(b, p0, 1) {
            Err(e) => Err(e),
            Ok((v1, p1)) => match value(b, p1) {
                Err(e) => Err(e),
                Ok((v2, p2)) => match number(b, p2, 1) {
                    Err(e) => Err(e),
                    Ok((v3, p3)) => Ok((LocalModel { name: v0, reg: v1 as u8, value: v2, dirty: v3 != 0 }, p3)),
                },
            },
        },
    }
}

/// `k` of them in a row.
pub open spec fn locals_from(b: Seq<u8>, p: int, k: int) -> Got<Seq<LocalModel>>
    decreases k,
{
    if k <= 0 {
        Ok((Seq::empty(), p))
    } else {
        match locals_from(b, p, k - 1) {
            Err(e) => Err(e),
            Ok((xs, q)) => match local(b, q) {
                Err(e) => Err(e),
                Ok((x, r)) => Ok((xs.push(x), r)),
            },
        }
    }
}

/// A list behind its length.
pub open spec fn locals(b: Seq<u8>, p: int) -> Got<Seq<LocalModel>> {
    match number(b, p, 4) {
        Err(e) => Err(e),
        Ok((n, q)) => locals_from(b, q, n as int),
    }
}

/// What the bytes of a request say; what follows its fields is left alone.
pub open spec fn request_of(b: Seq<u8>) -> Result<RequestModel, ProtoError> {
    match number(b, 0, 1) {
        Err(e) => Err(e),
        Ok((tag, q)) => if tag == 1 {
            match number(b, q, 4) {
                Err(e) => Err(e),
                Ok((v0, p0)) => match number(b, p0, 4) {
                    Err(e) => Err(e),
                    Ok((v1, p1)) => match opt_str(b, p1) {
                        Err(e) => Err(e),
                        Ok((v2, p2)) => match opt_u32(b, p2) {
                            Err(e) => Err(e),
                            Ok((v3, p3)) => Ok(RequestModel::SetBreakpoint { file_id: v0 as u32, line: v1 as u32, condition: v2, hit_count: v3 }),
                        },
                    },
                },
            }
        } else if tag == 2 {
            match text(b, q) {
                Err(e) => Err(e),
                Ok((v0, p0)) => Ok(RequestModel::SetFunctionBreakpoint { fn_name: v0 }),
            }
        } else if tag == 3 {
            match number(b, q, 4) {
                Err(e) => Err(e),
                Ok((v0, p0)) => Ok(RequestModel::SetExceptionBreakpoint { mask: v0 as u32 }),
            }
        } else if tag == 4 {
            match number(b, q, 4) {
                Err(e) => Err(e),
                Ok((v0, p0)) => Ok(RequestModel::ClearBreakpoint { id: BreakpointId(v0 as u32) }),
            }
        } else if tag == 5 {
            Ok(RequestModel::Continue)
        } else if tag == 6 {
            Ok(RequestModel::Pause)
        } else if tag == 7 {
            Ok(RequestModel::StepOver)
        } else if tag == 8 {
            Ok(RequestModel::StepInto)
        } else if tag == 9 {
            Ok(RequestModel::StepOut)
        } else if tag == 10 {
            match number(b, q, 4) {
                Err(e) => Err(e),
                Ok((v0, p0)) => match number(b, p0, 4) {
                    Err(e) => Err(e),
                    Ok((v1, p1)) => Ok(RequestModel::RunToCursor { file_id: v0 as u32, line: v1 as u32 }),
                },
            }
        } else if tag == 11 {
            Ok(RequestModel::ListFrames)
        } else if tag == 12 {
            match number(b, q, 4) {
                Err(e) => Err(e),
                Ok((v0, p0)) => Ok(RequestModel::ListLocals { frame_id: v0 as u32 }),
            }
        } else if tag == 13 {
            match number(b, q, 4) {
                Err(e) => Err(e),
                Ok((v0, p0)) => match text(b, p0) {
                    Err(e) => Err(e),
                    Ok((v1, p1)) => Ok(RequestModel::ExpandValue { frame_id: v0 as u32, path: v1 }),
                },
            }
        } else if tag == 14 {
            match number(b, q, 4) {
                Err(e) => Err(e),
                Ok((v0, p0)) => match text(b, p0) {
                    Err(e) => Err(e),
                    Ok((v1, p1)) => match value(b, p1) {
                        Err(e) => Err(e),
                        Ok((v2, p2)) => Ok(RequestModel::SetLocal { frame_id: v0 as u32, name: v1, value: v2 }),
                    },
                },
            }
        } else if tag == 15 {
            match text(b, q) {
                Err(e) => Err(e),
                Ok((v0, p0)) => Ok(RequestModel::Watch { expr: v0 }),
            }
        } else if tag == 16 {
            match number(b, q, 4) {
                Err(e) => Err(e),
                Ok((v0, p0)) => Ok(RequestModel::Unwatch { id: v0 as u32 }),
            }
        } else if tag == 17 {
            match text(b, q) {
                Err(e) => Err(e),
                Ok((v0, p0)) => Ok(RequestModel::EvalConst { expr: v0 }),
            }
        } else if tag == 18 {
            Ok(RequestModel::Detach)
        } else {
            Err(ProtoError::UnknownTag(tag as u8))
        },
    }
}

/// What the bytes of a response say; what follows its fields is left alone.
pub open spec fn response_of(b: Seq<u8>) -> Result<ResponseModel, ProtoError> {
    match number(b, 0, 1) {
        Err(e) => Err(e),
        Ok((tag, q)) => if tag == 0 {
            Ok(ResponseModel::Ack)
        } else if tag == 1 {
            match number(b, q, 4) {
                Err(e) => Err(e),
                Ok((v0, p0)) => Ok(ResponseModel::BreakpointId(BreakpointId(v0 as u32))),
            }
        } else if tag == 2 {
            match number(b, q, 4) {
                Err(e) => Err(e),
                Ok((v0, p0)) => Ok(ResponseModel::WatchId(v0 as u32)),
            }
        } else if tag == 3 {
            match value(b, q) {
                Err(e) => Err(e),
                Ok((v0, p0)) => Ok(ResponseModel::ConstValue(v0)),
            }
        } else if tag == 4 {
            match frames(b, q) {
                Err(e) => Err(e),
                Ok((v0, p0)) => Ok(ResponseModel::Frames(v0)),
            }
        } else if tag == 5 {
            match locals(b, q) {
                Err(e) => Err(e),
                Ok((v0, p0)) => Ok(ResponseModel::Locals(v0)),
            }
        } else if tag == 6 {
            match value(b, q) {
                Err(e) => Err(e),
                Ok((v0, p0)) => Ok(ResponseModel::Value(v0)),
            }
        } else if tag == 7 {
            match text(b, q) {
                Err(e) => Err(e),
                Ok((v0, p0)) => Ok(ResponseModel::Error(v0)),
            }
        } else {
            Err(ProtoError::UnknownTag(tag as u8))
        },
    }
}

/// What the bytes of an event say; what follows its fields is left alone.
pub open spec fn event_of(b: Seq<u8>) -> Result<EventModel, ProtoError> {
    match number(b, 0, 1) {
        Err(e) => Err(e),
        Ok((tag, q)) => if tag == 1 {
            match reason(b, q) {
                Err(e) => Err(e),
                Ok((v0, p0)) => match number(b, p0, 4) {
                    Err(e) => Err(e),
                    Ok((v1, p1)) => match number(b, p1, 4) {
                        Err(e) => Err(e),
                        Ok((v2, p2)) => Ok(EventModel::Stopped { reason: v0, fiber_id: v1 as u32, frame_id: v2 as u32 }),
                    },
                },
            }
        } else if tag == 2 {
            match number(b, q, 4) {
                Err(e) => Err(e),
                Ok((v0, p0)) => match number(b, p0, 4) {
                    Err(e) => Err(e),
                    Ok((v1, p1)) => Ok(EventModel::BreakpointHit { id: BreakpointId(v0 as u32), fiber_id: v1 as u32 }),
                },
            }
        } else if tag == 3 {
            match number(b, q, 4) {
                Err(e) => Err(e),
                Ok((v0, p0)) => match number(b, p0, 4) {
                    Err(e) => Err(e),
                    Ok((v1, p1)) => Ok(EventModel::Exception { fiber_id: v0 as u32, message_id: v1 as u32 }),
                },
            }
        } else if tag == 4 {
            match number(b, q, 1) {
                Err(e) => Err(e),
                Ok((v0, p0)) => match text(b, p0) {
                    Err(e) => Err(e),
                    Ok((v1, p1)) => Ok(EventModel::OutputLine { stream: v0 as u8, text: v1 }),
                },
            }
        } else if tag == 5 {
            match number(b, q, 4) {
                Err(e) => Err(e),
                Ok((v0, p0)) => Ok(EventModel::ModuleReloaded { file_id: v0 as u32 }),
            }
        } else if tag == 6 {
            match number(b, q, 4) {
                Err(e) => Err(e),
                Ok((v0, p0)) => match value(b, p0) {
                    Err(e) => Err(e),
                    Ok((v1, p1)) => Ok(EventModel::WatchUpdate { id: v0 as u32, value: v1 }),
                },
            }
        } else {
            Err(ProtoError::UnknownTag(tag as u8))
        },
    }
}

/// The version, the body and the length of the frame at the start of `b`.
pub open spec fn unframed(b: Seq<u8>) -> Result<(u16, Seq<u8>, int), ProtoError> {
    if b.len() < 4 {
        Err(ProtoError::Truncated)
    } else {
        let n = wire::un_le(b.subrange(0, 4)) as int;
        if b.len() < 4 + n {
            Err(ProtoError::Truncated)
        } else if n < 2 {
            Err(ProtoError::BadVersion)
        } else {
            Ok((wire::un_le(b.subrange(4, 6)) as u16, b.subrange(6, 4 + n), 4 + n))
        }
    }
}

// --- laws -----------------------------------------------------------------------

/// Whether the length of a text can be told in its four bytes.
pub open spec fn text_fits(s: Seq<char>) -> bool {
    encode_utf8(s).len() < 0x1_0000_0000
}

/// Whether the texts of a value fit.
pub open spec fn value_fits(v: WireModel) -> bool {
    match v {
        WireModel::Str(s) => text_fits(s),
        WireModel::Summary(s) => text_fits(s),
        _ => true,
    }
}

/// Whether the names of some frames, and their number, fit.
pub open spec fn frames_fit(l: Seq<FrameModel>) -> bool {
    l.len() < 0x1_0000_0000 && forall|i: int| 0 <= i < l.len() ==> text_fits((#[trigger] l[i]).function)
}

/// Whether the names and values of some locals, and their number, fit.
pub open spec fn locals_fit(l: Seq<LocalModel>) -> bool {
    l.len() < 0x1_0000_0000 && forall|i: int|
        0 <= i < l.len() ==> text_fits((#[trigger] l[i]).name) && value_fits(l[i].value)
}

/// Whether all that a request holds fits its length fields.
pub open spec fn request_fits(m: RequestModel) -> bool {
    match m {
        RequestModel::SetBreakpoint { file_id, line, condition, hit_count } => (condition is Some ==> text_fits(condition->0)),
        RequestModel::SetFunctionBreakpoint { fn_name } => text_fits(fn_name),
        RequestModel::ExpandValue { frame_id, path } => text_fits(path),
        RequestModel::SetLocal { frame_id, name, value } => text_fits(name) && value_fits(value),
        RequestModel::Watch { expr } => text_fits(expr),
        RequestModel::EvalConst { expr } => text_fits(expr),
        _ => true,
    }
}

/// Whether all that a response holds fits its length fields.
pub open spec fn response_fits(m: ResponseModel) -> bool {
    match m {
        ResponseModel::ConstValue(x) => value_fits(x),
        ResponseModel::Frames(x) => frames_fit(x),
        ResponseModel::Locals(x) => locals_fit(x),
        ResponseModel::Value(x) => value_fits(x),
        ResponseModel::Error(x) => text_fits(x),
        _ => true,
    }
}

/// Whether all that an event holds fits its length fields.
pub open spec fn event_fits(m: EventModel) -> bool {
    match m {
        EventModel::OutputLine { stream, text } => text_fits(text),
        EventModel::WatchUpdate { id, value } => value_fits(value),
        _ => true,
    }
}

proof fn lemma_number(b: Seq<u8>, p: int, v: nat, k: nat)
    requires
        wire::at(b, p, wire::le(v, k)),
        v < wire::range(k),
    ensures
        number(b, p, k as int) == Ok::<(nat, int), ProtoError>((v, p + k)),
        wire::le(v, k).len() == k,
{
    wire::lemma_le_len(v, k);
    wire::law_le_round_trip(v, k);
}

proof fn lemma_text(b: Seq<u8>, p: int, s: Seq<char>)
    requires
        wire::at(b, p, text_bytes(s)),
        text_fits(s),
    ensures
        text(b, p) == Ok::<(Seq<char>, int), ProtoError>((s, p + text_bytes(s).len())),
{
    wire::lemma_ranges();
    let u = encode_utf8(s);
    wire::lemma_at_split(b, p, wire::le(u.len(), 4), u);
    lemma_number(b, p, u.len(), 4);
    vstd::utf8::encode_utf8_valid_utf8(s);
    vstd::utf8::encode_utf8_decode_utf8(s);
}

proof fn lemma_opt_str(b: Seq<u8>, p: int, o: Option<Seq<char>>)
    requires
        wire::at(b, p, opt_str_bytes(o)),
        o is Some ==> text_fits(o->0),
    ensures
        opt_str(b, p) == Ok::<(Option<Seq<char>>, int), ProtoError>((o, p + opt_str_bytes(o).len())),
{
    wire::lemma_ranges();
    match o {
        Some(s) => {
            wire::lemma_at_split(b, p, wire::le(1, 1), text_bytes(s));
            lemma_number(b, p, 1, 1);
            lemma_text(b, p + 1, s);
        },
        None => {
            lemma_number(b, p, 0, 1);
        },
    }
}

proof fn lemma_opt_u32(b: Seq<u8>, p: int, o: Option<u32>)
    requires
        wire::at(b, p, opt_u32_bytes(o)),
    ensures
        opt_u32(b, p) == Ok::<(Option<u32>, int), ProtoError>((o, p + opt_u32_bytes(o).len())),
{
    wire::lemma_ranges();
    match o {
        Some(n) => {
            wire::lemma_at_split(b, p, wire::le(1, 1), wire::le(n as nat, 4));
            lemma_number(b, p, 1, 1);
            lemma_number(b, p + 1, n as nat, 4);
        },
        None => {
            lemma_number(b, p, 0, 1);
        },
    }
}

proof fn lemma_value(b: Seq<u8>, p: int, v: WireModel)
    requires
        wire::at(b, p, value_bytes(v)),
        value_fits(v),
    ensures
        value(b, p) == Ok::<(WireModel, int), ProtoError>((v, p + value_bytes(v).len())),
{
    wire::lemma_ranges();
    match v {
        WireModel::Nil => {
            lemma_number(b, p, 0, 1);
        },
        WireModel::Bool(x) => {
            let n: nat = if x { 1 } else { 0 };
            wire::lemma_at_split(b, p, wire::le(1, 1), wire::le(n, 1));
            lemma_number(b, p, 1, 1);
            lemma_number(b, p + 1, n, 1);
        },
        WireModel::Int(x) => {
            wire::lemma_at_split(b, p, wire::le(2, 1), wire::le((x as u64) as nat, 8));
            lemma_number(b, p, 2, 1);
            lemma_number(b, p + 1, (x as u64) as nat, 8);
            assert(x as u64 as i64 == x) by (bit_vector);
        },
        WireModel::FloatBits(x) => {
            wire::lemma_at_split(b, p, wire::le(3, 1), wire::le(x as nat, 8));
            lemma_number(b, p, 3, 1);
            lemma_number(b, p + 1, x as nat, 8);
        },
        WireModel::Str(x) => {
            wire::lemma_at_split(b, p, wire::le(4, 1), text_bytes(x));
            lemma_number(b, p, 4, 1);
            lemma_text(b, p + 1, x);
        },
        WireModel::Summary(x) => {
            wire::lemma_at_split(b, p, wire::le(5, 1), text_bytes(x));
            lemma_number(b, p, 5, 1);
            lemma_text(b, p + 1, x);
        },
    }
}

proof fn lemma_reason(b: Seq<u8>, p: int, x: StopReason)
    requires
        wire::at(b, p, wire::le(reason_code(x), 1)),
    ensures
        reason(b, p) == Ok::<(StopReason, int), ProtoError>((x, p + 1)),
        wire::le(reason_code(x), 1).len() == 1,
{
    wire::lemma_ranges();
    lemma_number(b, p, reason_code(x), 1);
}

proof fn lemma_frame(b: Seq<u8>, p: int, x: FrameModel)
    requires
        wire::at(b, p, frame_bytes(x)),
        text_fits(x.function),
    ensures
        frame(b, p) == Ok::<(FrameModel, int), ProtoError>((x, p + frame_bytes(x).len())),
{
    wire::lemma_ranges();
    wire::lemma_at_split(b, p, wire::le(x.index as nat, 4), text_bytes(x.function) + wire::le(x.line as nat, 4));
    lemma_number(b, p, x.index as nat, 4);
    wire::lemma_at_split(b, p + 4, text_bytes(x.function), wire::le(x.line as nat, 4));
    lemma_text(b, p + 4, x.function);
    lemma_number(b, p + 4 + text_bytes(x.function).len(), x.line as nat, 4);
}

proof fn lemma_frames_from(b: Seq<u8>, p: int, l: Seq<FrameModel>, k: int)
    requires
        wire::at(b, p, frame_list(l, k)),
        frames_fit(l),
        0 <= k <= l.len(),
    ensures
        frames_from(b, p, k) == Ok::<(Seq<FrameModel>, int), ProtoError>((l.take(k), p + frame_list(l, k).len())),
    decreases k,
{
    if k > 0 {
        wire::lemma_at_split(b, p, frame_list(l, k - 1), frame_bytes(l[k - 1]));
        lemma_frames_from(b, p, l, k - 1);
        lemma_frame(b, p + frame_list(l, k - 1).len(), l[k - 1]);
        assert(l.take(k) =~= l.take(k - 1).push(l[k - 1]));
    } else {
        assert(l.take(k) =~= Seq::empty());
    }
}

proof fn lemma_frames(b: Seq<u8>, p: int, l: Seq<FrameModel>)
    requires
        wire::at(b, p, frames_bytes(l)),
        frames_fit(l),
    ensures
        frames(b, p) == Ok::<(Seq<FrameModel>, int), ProtoError>((l, p + frames_bytes(l).len())),
{
    wire::lemma_ranges();
    wire::lemma_at_split(b, p, wire::le(l.len(), 4), frame_list(l, l.len() as int));
    lemma_number(b, p, l.len(), 4);
    lemma_frames_from(b, p + 4, l, l.len() as int);
    assert(l.take(l.len() as int) =~= l);
}

proof fn lemma_local(b: Seq<u8>, p: int, x: LocalModel)
    requires
        wire::at(b, p, local_bytes(x)),
        text_fits(x.name),
        value_fits(x.value),
    ensures
        local(b, p) == Ok::<(LocalModel, int), ProtoError>((x, p + local_bytes(x).len())),
{
    wire::lemma_ranges();
    wire::lemma_at_split(b, p, text_bytes(x.name), wire::le(x.reg as nat, 1) + (value_bytes(x.value) + wire::le(if x.dirty { 1 } else { 0 }, 1)));
    lemma_text(b, p, x.name);
    wire::lemma_at_split(b, p + text_bytes(x.name).len(), wire::le(x.reg as nat, 1), value_bytes(x.value) + wire::le(if x.dirty { 1 } else { 0 }, 1));
    lemma_number(b, p + text_bytes(x.name).len(), x.reg as nat, 1);
    wire::lemma_at_split(b, p + text_bytes(x.name).len() + 1, value_bytes(x.value), wire::le(if x.dirty { 1 } else { 0 }, 1));
    lemma_value(b, p + text_bytes(x.name).len() + 1, x.value);
    lemma_number(b, p + text_bytes(x.name).len() + 1 + value_bytes(x.value).len(), if x.dirty { 1 } else { 0 }, 1);
}

proof fn lemma_locals_from(b: Seq<u8>, p: int, l: Seq<LocalModel>, k: int)
    requires
        wire::at(b, p, local_list(l, k)),
        locals_fit(l),
        0 <= k <= l.len(),
    ensures
        locals_from(b, p, k) == Ok::<(Seq<LocalModel>, int), ProtoError>((l.take(k), p + local_list(l, k).len())),
    decreases k,
{
    if k > 0 {
        wire::lemma_at_split(b, p, local_list(l, k - 1), local_bytes(l[k - 1]));
        lemma_locals_from(b, p, l, k - 1);
        lemma_local(b, p + local_list(l, k - 1).len(), l[k - 1]);
        assert(l.take(k) =~= l.take(k - 1).push(l[k - 1]));
    } else {
        assert(l.take(k) =~= Seq::empty());
    }
}

proof fn lemma_locals(b: Seq<u8>, p: int, l: Seq<LocalModel>)
    requires
        wire::at(b, p, locals_bytes(l)),
        locals_fit(l),
    ensures
        locals(b, p) == Ok::<(Seq<LocalModel>, int), ProtoError>((l, p + locals_bytes(l).len())),
{
    wire::lemma_ranges();
    wire::lemma_at_split(b, p, wire::le(l.len(), 4), local_list(l, l.len() as int));
    lemma_number(b, p, l.len(), 4);
    lemma_locals_from(b, p + 4, l, l.len() as int);
    assert(l.take(l.len() as int) =~= l);
}

/// Decoding what encodes a request gives the request back.
pub proof fn law_request_round_trip(m: RequestModel)
    requires
        request_fits(m),
    ensures
        request_of(request_bytes(m)) == Ok::<RequestModel, ProtoError>(m),
{
    wire::lemma_ranges();
    let b = request_bytes(m);
    let q: int = 1;
    assert(b.subrange(0, b.len() as int) =~= b);
    wire::lemma_at_split(b, 0, wire::le(request_tag(m), 1), request_fields(m));
    lemma_number(b, 0, request_tag(m), 1);
    match m {
        RequestModel::SetBreakpoint { file_id, line, condition, hit_count } => {
            wire::lemma_at_split(b, q, wire::le(file_id as nat, 4), wire::le(line as nat, 4) + (opt_str_bytes(condition) + opt_u32_bytes(hit_count)));
            lemma_number(b, q, file_id as nat, 4);
            wire::lemma_at_split(b, q + 4, wire::le(line as nat, 4), opt_str_bytes(condition) + opt_u32_bytes(hit_count));
            lemma_number(b, q + 4, line as nat, 4);
            wire::lemma_at_split(b, q + 4 + 4, opt_str_bytes(condition), opt_u32_bytes(hit_count));
            lemma_opt_str(b, q + 4 + 4, condition);
            lemma_opt_u32(b, q + 4 + 4 + opt_str_bytes(condition).len(), hit_count);
        },
        RequestModel::SetFunctionBreakpoint { fn_name } => {
            lemma_text(b, q, fn_name);
        },
        RequestModel::SetExceptionBreakpoint { mask } => {
            lemma_number(b, q, mask as nat, 4);
        },
        RequestModel::ClearBreakpoint { id } => {
            lemma_number(b, q, id.0 as nat, 4);
        },
        RequestModel::RunToCursor { file_id, line } => {
            wire::lemma_at_split(b, q, wire::le(file_id as nat, 4), wire::le(line as nat, 4));
            lemma_number(b, q, file_id as nat, 4);
            lemma_number(b, q + 4, line as nat, 4);
        },
        RequestModel::ListLocals { frame_id } => {
            lemma_number(b, q, frame_id as nat, 4);
        },
        RequestModel::ExpandValue { frame_id, path } => {
            wire::lemma_at_split(b, q, wire::le(frame_id as nat, 4), text_bytes(path));
            lemma_number(b, q, frame_id as nat, 4);
            lemma_text(b, q + 4, path);
        },
        RequestModel::SetLocal { frame_id, name, value } => {
            wire::lemma_at_split(b, q, wire::le(frame_id as nat, 4), text_bytes(name) + value_bytes(value));
            lemma_number(b, q, frame_id as nat, 4);
            wire::lemma_at_split(b, q + 4, text_bytes(name), value_bytes(value));
            lemma_text(b, q + 4, name);
            lemma_value(b, q + 4 + text_bytes(name).len(), value);
        },
        RequestModel::Watch { expr } => {
            lemma_text(b, q, expr);
        },
        RequestModel::Unwatch { id } => {
            lemma_number(b, q, id as nat, 4);
        },
        RequestModel::EvalConst { expr } => {
            lemma_text(b, q, expr);
        },
        _ => {},
    }
}

/// Decoding what encodes a response gives the response back.
pub proof fn law_response_round_trip(m: ResponseModel)
    requires
        response_fits(m),
    ensures
        response_of(response_bytes(m)) == Ok::<ResponseModel, ProtoError>(m),
{
    wire::lemma_ranges();
    let b = response_bytes(m);
    let q: int = 1;
    assert(b.subrange(0, b.len() as int) =~= b);
    wire::lemma_at_split(b, 0, wire::le(response_tag(m), 1), response_fields(m));
    lemma_number(b, 0, response_tag(m), 1);
    match m {
        ResponseModel::BreakpointId(x) => {
            lemma_number(b, q, x.0 as nat, 4);
        },
        ResponseModel::WatchId(x) => {
            lemma_number(b, q, x as nat, 4);
        },
        ResponseModel::ConstValue(x) => {
            lemma_value(b, q, x);
        },
        ResponseModel::Frames(x) => {
            lemma_frames(b, q, x);
        },
        ResponseModel::Locals(x) => {
            lemma_locals(b, q, x);
        },
        ResponseModel::Value(x) => {
            lemma_value(b, q, x);
        },
        ResponseModel::Error(x) => {
            lemma_text(b, q, x);
        },
        _ => {},
    }
}

/// Decoding what encodes an event gives the event back.
pub proof fn law_event_round_trip(m: EventModel)
    requires
        event_fits(m),
    ensures
        event_of(event_bytes(m)) == Ok::<EventModel, ProtoError>(m),
{
    wire::lemma_ranges();
    let b = event_bytes(m);
    let q: int = 1;
    assert(b.subrange(0, b.len() as int) =~= b);
    wire::lemma_at_split(b, 0, wire::le(event_tag(m), 1), event_fields(m));
    lemma_number(b, 0, event_tag(m), 1);
    match m {
        EventModel::Stopped { reason, fiber_id, frame_id } => {
            wire::lemma_at_split(b, q, wire::le(reason_code(reason), 1), wire::le(fiber_id as nat, 4) + wire::le(frame_id as nat, 4));
            lemma_reason(b, q, reason);
            wire::lemma_at_split(b, q + 1, wire::le(fiber_id as nat, 4), wire::le(frame_id as nat, 4));
            lemma_number(b, q + 1, fiber_id as nat, 4);
            lemma_number(b, q + 1 + 4, frame_id as nat, 4);
        },
        EventModel::BreakpointHit { id, fiber_id } => {
            wire::lemma_at_split(b, q, wire::le(id.0 as nat, 4), wire::le(fiber_id as nat, 4));
            lemma_number(b, q, id.0 as nat, 4);
            lemma_number(b, q + 4, fiber_id as nat, 4);
        },
        EventModel::Exception { fiber_id, message_id } => {
            wire::lemma_at_split(b, q, wire::le(fiber_id as nat, 4), wire::le(message_id as nat, 4));
            lemma_number(b, q, fiber_id as nat, 4);
            lemma_number(b, q + 4, message_id as nat, 4);
        },
        EventModel::OutputLine { stream, text } => {
            wire::lemma_at_split(b, q, wire::le(stream as nat, 1), text_bytes(text));
            lemma_number(b, q, stream as nat, 1);
            lemma_text(b, q + 1, text);
        },
        EventModel::ModuleReloaded { file_id } => {
            lemma_number(b, q, file_id as nat, 4);
        },
        EventModel::WatchUpdate { id, value } => {
            wire::lemma_at_split(b, q, wire::le(id as nat, 4), value_bytes(value));
            lemma_number(b, q, id as nat, 4);
            lemma_value(b, q + 4, value);
        },
    }
}

/// Taking a frame off the front of a stream gives the body that was put in it,
/// and the place where the next frame starts.
pub proof fn law_frame_round_trip(body: Seq<u8>, rest: Seq<u8>)
    requires
        body.len() + 2 < 0x1_0000_0000,
    ensures
        unframed(framed(body) + rest) == Ok::<(u16, Seq<u8>, int), ProtoError>(
            (PROTOCOL_VERSION, body, framed(body).len() as int),
        ),
{
    wire::lemma_ranges();
    let b = framed(body) + rest;
    let n = (body.len() + 2) as nat;
    assert(b.subrange(0, framed(body).len() as int) =~= framed(body));
    wire::lemma_at_split(b, 0, wire::le(n, 4), wire::le(PROTOCOL_VERSION as nat, 2) + body);
    wire::lemma_le_len(n, 4);
    wire::law_le_round_trip(n, 4);
    wire::lemma_at_split(b, 4, wire::le(PROTOCOL_VERSION as nat, 2), body);
    wire::lemma_le_len(PROTOCOL_VERSION as nat, 2);
    wire::law_le_round_trip(PROTOCOL_VERSION as nat, 2);
}

/// A frame cut short anywhere is refused as truncated.
pub proof fn law_cut_frames_are_refused(body: Seq<u8>, k: int)
    requires
        body.len() + 2 < 0x1_0000_0000,
        0 <= k < framed(body).len(),
    ensures
        unframed(framed(body).take(k)) == Err::<(u16, Seq<u8>, int), ProtoError>(ProtoError::Truncated),
{
    wire::lemma_ranges();
    let n = (body.len() + 2) as nat;
    let b = framed(body).take(k);
    wire::lemma_le_len(n, 4);
    wire::lemma_le_len(PROTOCOL_VERSION as nat, 2);
    wire::law_le_round_trip(n, 4);
    if k >= 4 {
        assert(b.subrange(0, 4) =~= wire::le(n, 4));
    }
}

// --- bytes that are cut off ----------------------------------------------------------

/// What reading gives where the bytes are cut at `n`: the same, or that they end too early.
spec fn cut_read<T>(r: Got<T>, s: Got<T>, n: int) -> bool {
    r matches Ok((x, q)) ==> if q <= n {
        s == r
    } else {
        s == Err::<(T, int), ProtoError>(ProtoError::Truncated)
    }
}

proof fn lemma_cut_number(b: Seq<u8>, n: int, p: int, k: int)
    requires
        0 <= p,
        0 <= k,
        0 <= n <= b.len(),
    ensures
        cut_read(number(b, p, k), number(b.take(n), p, k), n),
{
    if p + k <= n {
        assert(b.take(n).subrange(p, p + k) =~= b.subrange(p, p + k));
    }
}

proof fn lemma_cut_text(b: Seq<u8>, n: int, p: int)
    requires
        0 <= p,
        0 <= n <= b.len(),
    ensures
        cut_read(text(b, p), text(b.take(n), p), n),
{
    lemma_cut_number(b, n, p, 4);
    if let Ok((k, q)) = number(b, p, 4) {
        if q + k <= n {
            assert(b.take(n).subrange(q, q + k) =~= b.subrange(q, q + k));
        }
    }
}

proof fn lemma_cut_opt_str(b: Seq<u8>, n: int, p: int)
    requires
        0 <= p,
        0 <= n <= b.len(),
    ensures
        cut_read(opt_str(b, p), opt_str(b.take(n), p), n),
{
    lemma_cut_number(b, n, p, 1);
    lemma_cut_text(b, n, p + 1);
}

proof fn lemma_cut_opt_u32(b: Seq<u8>, n: int, p: int)
    requires
        0 <= p,
        0 <= n <= b.len(),
    ensures
        cut_read(opt_u32(b, p), opt_u32(b.take(n), p), n),
{
    lemma_cut_number(b, n, p, 1);
    lemma_cut_number(b, n, p + 1, 4);
}

proof fn lemma_cut_value(b: Seq<u8>, n: int, p: int)
    requires
        0 <= p,
        0 <= n <= b.len(),
    ensures
        cut_read(value(b, p), value(b.take(n), p), n),
{
    lemma_cut_number(b, n, p, 1);
    lemma_cut_number(b, n, p + 1, 1);
    lemma_cut_number(b, n, p + 1, 8);
    lemma_cut_text(b, n, p + 1);
}

proof fn lemma_cut_reason(b: Seq<u8>, n: int, p: int)
    requires
        0 <= p,
        0 <= n <= b.len(),
    ensures
        cut_read(reason(b, p), reason(b.take(n), p), n),
{
    lemma_cut_number(b, n, p, 1);
}

proof fn lemma_cut_frame(b: Seq<u8>, n: int, p: int)
    requires
        0 <= p,
        0 <= n <= b.len(),
    ensures
        cut_read(frame(b, p), frame(b.take(n), p), n),
{
    lemma_cut_number(b, n, p, 4);
    lemma_cut_text(b, n, p + 4);
    if let Ok((v, q)) = text(b, p + 4) {
        lemma_cut_number(b, n, q, 4);
    }
}

proof fn lemma_cut_local(b: Seq<u8>, n: int, p: int)
    requires
        0 <= p,
        0 <= n <= b.len(),
    ensures
        cut_read(local(b, p), local(b.take(n), p), n),
{
    lemma_cut_text(b, n, p);
    if let Ok((v, q)) = text(b, p) {
        lemma_cut_number(b, n, q, 1);
        lemma_cut_value(b, n, q + 1);
        if let Ok((x, r)) = value(b, q + 1) {
            lemma_cut_number(b, n, r, 1);
        }
    }
}

proof fn lemma_frames_forward(b: Seq<u8>, p: int, k: int)
    ensures
        frames_from(b, p, k) matches Ok((x, q)) ==> p <= q,
    decreases k,
{
    if k > 0 {
        lemma_frames_forward(b, p, k - 1);
    }
}

proof fn lemma_cut_frames_from(b: Seq<u8>, n: int, p: int, k: int)
    requires
        0 <= p <= n <= b.len(),
    ensures
        cut_read(frames_from(b, p, k), frames_from(b.take(n), p, k), n),
    decreases k,
{
    if k > 0 {
        lemma_cut_frames_from(b, n, p, k - 1);
        lemma_frames_forward(b, p, k - 1);
        if let Ok((xs, q)) = frames_from(b, p, k - 1) {
            lemma_cut_frame(b, n, q);
        }
    }
}

proof fn lemma_cut_frames(b: Seq<u8>, n: int, p: int)
    requires
        0 <= p,
        0 <= n <= b.len(),
    ensures
        cut_read(frames(b, p), frames(b.take(n), p), n),
{
    lemma_cut_number(b, n, p, 4);
    if let Ok((k, q)) = number(b, p, 4) {
        lemma_frames_forward(b, q, k as int);
        if q <= n {
            lemma_cut_frames_from(b, n, q, k as int);
        }
    }
}

proof fn lemma_locals_forward(b: Seq<u8>, p: int, k: int)
    ensures
        locals_from(b, p, k) matches Ok((x, q)) ==> p <= q,
    decreases k,
{
    if k > 0 {
        lemma_locals_forward(b, p, k - 1);
    }
}

proof fn lemma_cut_locals_from(b: Seq<u8>, n: int, p: int, k: int)
    requires
        0 <= p <= n <= b.len(),
    ensures
        cut_read(locals_from(b, p, k), locals_from(b.take(n), p, k), n),
    decreases k,
{
    if k > 0 {
        lemma_cut_locals_from(b, n, p, k - 1);
        lemma_locals_forward(b, p, k - 1);
        if let Ok((xs, q)) = locals_from(b, p, k - 1) {
            lemma_cut_local(b, n, q);
        }
    }
}

proof fn lemma_cut_locals(b: Seq<u8>, n: int, p: int)
    requires
        0 <= p,
        0 <= n <= b.len(),
    ensures
        cut_read(locals(b, p), locals(b.take(n), p), n),
{
    lemma_cut_number(b, n, p, 4);
    if let Ok((k, q)) = number(b, p, 4) {
        lemma_locals_forward(b, q, k as int);
        if q <= n {
            lemma_cut_locals_from(b, n, q, k as int);
        }
    }
}

/// A request cut short anywhere is refused as truncated.
#[verifier::spinoff_prover]
#[verifier::rlimit(60)]
pub proof fn law_cut_requests_are_refused(m: RequestModel, n: int)
    requires
        request_fits(m),
        0 <= n < request_bytes(m).len(),
    ensures
        request_of(request_bytes(m).take(n)) == Err::<RequestModel, ProtoError>(ProtoError::Truncated),
{
    wire::lemma_ranges();
    let b = request_bytes(m);
    let q: int = 1;
    assert(b.subrange(0, b.len() as int) =~= b);
    wire::lemma_at_split(b, 0, wire::le(request_tag(m), 1), request_fields(m));
    lemma_number(b, 0, request_tag(m), 1);
    lemma_cut_number(b, n, 0, 1);
    match m {
        RequestModel::SetBreakpoint { file_id, line, condition, hit_count } => {
            wire::lemma_at_split(b, q, wire::le(file_id as nat, 4), wire::le(line as nat, 4) + (opt_str_bytes(condition) + opt_u32_bytes(hit_count)));
            lemma_number(b, q, file_id as nat, 4);
            lemma_cut_number(b, n, q, 4);
            wire::lemma_at_split(b, q + 4, wire::le(line as nat, 4), opt_str_bytes(condition) + opt_u32_bytes(hit_count));
            lemma_number(b, q + 4, line as nat, 4);
            lemma_cut_number(b, n, q + 4, 4);
            wire::lemma_at_split(b, q + 4 + 4, opt_str_bytes(condition), opt_u32_bytes(hit_count));
            lemma_opt_str(b, q + 4 + 4, condition);
            lemma_cut_opt_str(b, n, q + 4 + 4);
            lemma_opt_u32(b, q + 4 + 4 + opt_str_bytes(condition).len(), hit_count);
            lemma_cut_opt_u32(b, n, q + 4 + 4 + opt_str_bytes(condition).len());
        },
        RequestModel::SetFunctionBreakpoint { fn_name } => {
            lemma_text(b, q, fn_name);
            lemma_cut_text(b, n, q);
        },
        RequestModel::SetExceptionBreakpoint { mask } => {
            lemma_number(b, q, mask as nat, 4);
            lemma_cut_number(b, n, q, 4);
        },
        RequestModel::ClearBreakpoint { id } => {
            lemma_number(b, q, id.0 as nat, 4);
            lemma_cut_number(b, n, q, 4);
        },
        RequestModel::RunToCursor { file_id, line } => {
            wire::lemma_at_split(b, q, wire::le(file_id as nat, 4), wire::le(line as nat, 4));
            lemma_number(b, q, file_id as nat, 4);
            lemma_cut_number(b, n, q, 4);
            lemma_number(b, q + 4, line as nat, 4);
            lemma_cut_number(b, n, q + 4, 4);
        },
        RequestModel::ListLocals { frame_id } => {
            lemma_number(b, q, frame_id as nat, 4);
            lemma_cut_number(b, n, q, 4);
        },
        RequestModel::ExpandValue { frame_id, path } => {
            wire::lemma_at_split(b, q, wire::le(frame_id as nat, 4), text_bytes(path));
            lemma_number(b, q, frame_id as nat, 4);
            lemma_cut_number(b, n, q, 4);
            lemma_text(b, q + 4, path);
            lemma_cut_text(b, n, q + 4);
        },
        RequestModel::SetLocal { frame_id, name, value } => {
            wire::lemma_at_split(b, q, wire::le(frame_id as nat, 4), text_bytes(name) + value_bytes(value));
            lemma_number(b, q, frame_id as nat, 4);
            lemma_cut_number(b, n, q, 4);
            wire::lemma_at_split(b, q + 4, text_bytes(name), value_bytes(value));
            lemma_text(b, q + 4, name);
            lemma_cut_text(b, n, q + 4);
            lemma_value(b, q + 4 + text_bytes(name).len(), value);
            lemma_cut_value(b, n, q + 4 + text_bytes(name).len());
        },
        RequestModel::Watch { expr } => {
            lemma_text(b, q, expr);
            lemma_cut_text(b, n, q);
        },
        RequestModel::Unwatch { id } => {
            lemma_number(b, q, id as nat, 4);
            lemma_cut_number(b, n, q, 4);
        },
        RequestModel::EvalConst { expr } => {
            lemma_text(b, q, expr);
            lemma_cut_text(b, n, q);
        },
        _ => {},
    }
}

/// A response cut short anywhere is refused as truncated.
#[verifier::spinoff_prover]
#[verifier::rlimit(60)]
pub proof fn law_cut_responses_are_refused(m: ResponseModel, n: int)
    requires
        response_fits(m),
        0 <= n < response_bytes(m).len(),
    ensures
        response_of(response_bytes(m).take(n)) == Err::<ResponseModel, ProtoError>(ProtoError::Truncated),
{
    wire::lemma_ranges();
    let b = response_bytes(m);
    let q: int = 1;
    assert(b.subrange(0, b.len() as int) =~= b);
    wire::lemma_at_split(b, 0, wire::le(response_tag(m), 1), response_fields(m));
    lemma_number(b, 0, response_tag(m), 1);
    lemma_cut_number(b, n, 0, 1);
    match m {
        ResponseModel::BreakpointId(x) => {
            lemma_number(b, q, x.0 as nat, 4);
            lemma_cut_number(b, n, q, 4);
        },
        ResponseModel::WatchId(x) => {
            lemma_number(b, q, x as nat, 4);
            lemma_cut_number(b, n, q, 4);
        },
        ResponseModel::ConstValue(x) => {
            lemma_value(b, q, x);
            lemma_cut_value(b, n, q);
        },
        ResponseModel::Frames(x) => {
            lemma_frames(b, q, x);
            lemma_cut_frames(b, n, q);
        },
        ResponseModel::Locals(x) => {
            lemma_locals(b, q, x);
            lemma_cut_locals(b, n, q);
        },
        ResponseModel::Value(x) => {
            lemma_value(b, q, x);
            lemma_cut_value(b, n, q);
        },
        ResponseModel::Error(x) => {
            lemma_text(b, q, x);
            lemma_cut_text(b, n, q);
        },
        _ => {},
    }
}

/// An event cut short anywhere is refused as truncated.
#[verifier::spinoff_prover]
#[verifier::rlimit(60)]
pub proof fn law_cut_events_are_refused(m: EventModel, n: int)
    requires
        event_fits(m),
        0 <= n < event_bytes(m).len(),
    ensures
        event_of(event_bytes(m).take(n)) == Err::<EventModel, ProtoError>(ProtoError::Truncated),
{
    wire::lemma_ranges();
    let b = event_bytes(m);
    let q: int = 1;
    assert(b.subrange(0, b.len() as int) =~= b);
    wire::lemma_at_split(b, 0, wire::le(event_tag(m), 1), event_fields(m));
    lemma_number(b, 0, event_tag(m), 1);
    lemma_cut_number(b, n, 0, 1);
    match m {
        EventModel::Stopped { reason, fiber_id, frame_id } => {
            wire::lemma_at_split(b, q, wire::le(reason_code(reason), 1), wire::le(fiber_id as nat, 4) + wire::le(frame_id as nat, 4));
            lemma_reason(b, q, reason);
            lemma_cut_reason(b, n, q);
            wire::lemma_at_split(b, q + 1, wire::le(fiber_id as nat, 4), wire::le(frame_id as nat, 4));
            lemma_number(b, q + 1, fiber_id as nat, 4);
            lemma_cut_number(b, n, q + 1, 4);
            lemma_number(b, q + 1 + 4, frame_id as nat, 4);
            lemma_cut_number(b, n, q + 1 + 4, 4);
        },
        EventModel::BreakpointHit { id, fiber_id } => {
            wire::lemma_at_split(b, q, wire::le(id.0 as nat, 4), wire::le(fiber_id as nat, 4));
            lemma_number(b, q, id.0 as nat, 4);
            lemma_cut_number(b, n, q, 4);
            lemma_number(b, q + 4, fiber_id as nat, 4);
            lemma_cut_number(b, n, q + 4, 4);
        },
        EventModel::Exception { fiber_id, message_id } => {
            wire::lemma_at_split(b, q, wire::le(fiber_id as nat, 4), wire::le(message_id as nat, 4));
            lemma_number(b, q, fiber_id as nat, 4);
            lemma_cut_number(b, n, q, 4);
            lemma_number(b, q + 4, message_id as nat, 4);
            lemma_cut_number(b, n, q + 4, 4);
        },
        EventModel::OutputLine { stream, text } => {
            wire::lemma_at_split(b, q, wire::le(stream as nat, 1), text_bytes(text));
            lemma_number(b, q, stream as nat, 1);
            lemma_cut_number(b, n, q, 1);
            lemma_text(b, q + 1, text);
            lemma_cut_text(b, n, q + 1);
        },
        EventModel::ModuleReloaded { file_id } => {
            lemma_number(b, q, file_id as nat, 4);
            lemma_cut_number(b, n, q, 4);
        },
        EventModel::WatchUpdate { id, value } => {
            wire::lemma_at_split(b, q, wire::le(id as nat, 4), value_bytes(value));
            lemma_number(b, q, id as nat, 4);
            lemma_cut_number(b, n, q, 4);
            lemma_value(b, q + 4, value);
            lemma_cut_value(b, n, q + 4);
        },
    }
}

/// A message whose first byte names no kind is refused by that byte.
pub proof fn law_unknown_tags_are_told(t: u8, rest: Seq<u8>)
    ensures
        t == 0 || t > 18 ==> request_of(seq![t] + rest) == Err::<RequestModel, ProtoError>(ProtoError::UnknownTag(t)),
        t > 7 ==> response_of(seq![t] + rest) == Err::<ResponseModel, ProtoError>(ProtoError::UnknownTag(t)),
        t == 0 || t > 6 ==> event_of(seq![t] + rest) == Err::<EventModel, ProtoError>(ProtoError::UnknownTag(t)),
{
    let b = seq![t] + rest;
    wire::lemma_ranges();
    wire::law_le_round_trip(t as nat, 1);
    wire::lemma_le_len(t as nat, 1);
    assert(b.subrange(0, 1) =~= seq![t]);
    assert(wire::le(t as nat, 1) =~= seq![t]);
}

// --- writing --------------------------------------------------------------------

fn push_text(out: &mut Vec<u8>, s: &String)
    ensures
        final(out)@ == old(out)@ + text_bytes(s@),
{
    let b = s.as_str().as_bytes();
    push_le(out, b.len() as u64, 4);
    push_all(out, b);
    assert(out@ =~= old(out)@ + text_bytes(s@));
}

fn push_opt_str(out: &mut Vec<u8>, o: &Option<String>)
    ensures
        final(out)@ == old(out)@ + opt_str_bytes(opt_text(*o)),
{
    match o {
        Some(s) => {
            push_le(out, 1, 1);
            push_text(out, s);
            assert(out@ =~= old(out)@ + opt_str_bytes(opt_text(*o)));
        },
        None => push_le(out, 0, 1),
    }
}

fn push_opt_u32(out: &mut Vec<u8>, o: Option<u32>)
    ensures
        final(out)@ == old(out)@ + opt_u32_bytes(o),
{
    match o {
        Some(n) => {
            push_le(out, 1, 1);
            push_le(out, n as u64, 4);
            assert(out@ =~= old(out)@ + opt_u32_bytes(o));
        },
        None => push_le(out, 0, 1),
    }
}

fn push_value(out: &mut Vec<u8>, v: &WireValue)
    ensures
        final(out)@ == old(out)@ + value_bytes(v@),
{
    match v {
        WireValue::Nil => push_le(out, 0, 1),
        WireValue::Bool(x) => {
            push_le(out, 1, 1);
            push_le(out, if *x { 1 } else { 0 }, 1);
        },
        WireValue::Int(x) => {
            push_le(out, 2, 1);
            push_le(out, *x as u64, 8);
        },
        WireValue::FloatBits(x) => {
            push_le(out, 3, 1);
            push_le(out, *x, 8);
        },
        WireValue::Str(x) => {
            push_le(out, 4, 1);
            push_text(out, x);
        },
        WireValue::Summary(x) => {
            push_le(out, 5, 1);
            push_text(out, x);
        },
    }
    assert(out@ =~= old(out)@ + value_bytes(v@));
}

fn reason_to_u8(r: StopReason) -> (code: u8)
    ensures
        code == reason_code(r),
{
    match r {
        StopReason::Pause => 1,
        StopReason::Step => 2,
        StopReason::Breakpoint => 3,
        StopReason::Exception => 4,
        StopReason::FfiPause => 5,
        StopReason::Cursor => 6,
    }
}

fn push_frame(out: &mut Vec<u8>, x: &FrameInfo)
    ensures
        final(out)@ == old(out)@ + frame_bytes(x@),
{
    push_le(out, x.index as u64, 4);
    push_text(out, &x.function);
    push_le(out, x.line as u64, 4);
    assert(out@ =~= old(out)@ + frame_bytes(x@));
}

fn push_frames(out: &mut Vec<u8>, l: &Vec<FrameInfo>)
    ensures
        final(out)@ == old(out)@ + frames_bytes(views::views(l@)),
{
    push_le(out, l.len() as u64, 4);
    let ghost m = views::views(l@);
    let ghost head = out@;
    let mut i: usize = 0;
    assert(head + frame_list(m, 0) =~= head);
    while i < l.len()
        invariant
            i <= l@.len(),
            m == views::views(l@),
            out@ == head + frame_list(m, i as int),
        decreases l.len() - i,
    {
        push_frame(out, &l[i]);
        i += 1;
        assert(out@ =~= head + frame_list(m, i as int));
    }
    assert(out@ =~= old(out)@ + frames_bytes(m));
}

fn push_local(out: &mut Vec<u8>, x: &Local)
    ensures
        final(out)@ == old(out)@ + local_bytes(x@),
{
    push_text(out, &x.name);
    push_le(out, x.reg as u64, 1);
    push_value(out, &x.value);
    push_le(out, if x.dirty { 1 } else { 0 }, 1);
    assert(out@ =~= old(out)@ + local_bytes(x@));
}

fn push_locals(out: &mut Vec<u8>, l: &Vec<Local>)
    ensures
        final(out)@ == old(out)@ + locals_bytes(views::views(l@)),
{
    push_le(out, l.len() as u64, 4);
    let ghost m = views::views(l@);
    let ghost head = out@;
    let mut i: usize = 0;
    assert(head + local_list(m, 0) =~= head);
    while i < l.len()
        invariant
            i <= l@.len(),
            m == views::views(l@),
            out@ == head + local_list(m, i as int),
        decreases l.len() - i,
    {
        push_local(out, &l[i]);
        i += 1;
        assert(out@ =~= head + local_list(m, i as int));
    }
    assert(out@ =~= old(out)@ + locals_bytes(m));
}

/// Puts a body in its envelope.
fn frame_body(body: &Vec<u8>) -> (r: Vec<u8>)
    ensures
        r@ == framed(body@),
{
    let mut out: Vec<u8> = Vec::new();
    let n: u64 = (body.len() as u64 % 0x1_0000_0000 + 2) % 0x1_0000_0000;
    push_le(&mut out, n, 4);
    push_le(&mut out, PROTOCOL_VERSION as u64, 2);
    push_all(&mut out, body.as_slice());
    assert(out@ =~= framed(body@));
    out
}

/// Appends the kind and the fields of a request.
#[verifier::spinoff_prover]
fn push_request(out: &mut Vec<u8>, m: &Request)
    ensures
        final(out)@ == old(out)@ + request_bytes(m@),
{
    match m {
        Request::SetBreakpoint { file_id, line, condition, hit_count } => {
            push_le(out, 1, 1);
            push_le(out, *file_id as u64, 4);
            push_le(out, *line as u64, 4);
            push_opt_str(out, condition);
            push_opt_u32(out, *hit_count);
        },
        Request::SetFunctionBreakpoint { fn_name } => {
            push_le(out, 2, 1);
            push_text(out, fn_name);
        },
        Request::SetExceptionBreakpoint { mask } => {
            push_le(out, 3, 1);
            push_le(out, *mask as u64, 4);
        },
        Request::ClearBreakpoint { id } => {
            push_le(out, 4, 1);
            push_le(out, id.0 as u64, 4);
        },
        Request::Continue => push_le(out, 5, 1),
        Request::Pause => push_le(out, 6, 1),
        Request::StepOver => push_le(out, 7, 1),
        Request::StepInto => push_le(out, 8, 1),
        Request::StepOut => push_le(out, 9, 1),
        Request::RunToCursor { file_id, line } => {
            push_le(out, 10, 1);
            push_le(out, *file_id as u64, 4);
            push_le(out, *line as u64, 4);
        },
        Request::ListFrames => push_le(out, 11, 1),
        Request::ListLocals { frame_id } => {
            push_le(out, 12, 1);
            push_le(out, *frame_id as u64, 4);
        },
        Request::ExpandValue { frame_id, path } => {
            push_le(out, 13, 1);
            push_le(out, *frame_id as u64, 4);
            push_text(out, path);
        },
        Request::SetLocal { frame_id, name, value } => {
            push_le(out, 14, 1);
            push_le(out, *frame_id as u64, 4);
            push_text(out, name);
            push_value(out, value);
        },
        Request::Watch { expr } => {
            push_le(out, 15, 1);
            push_text(out, expr);
        },
        Request::Unwatch { id } => {
            push_le(out, 16, 1);
            push_le(out, *id as u64, 4);
        },
        Request::EvalConst { expr } => {
            push_le(out, 17, 1);
            push_text(out, expr);
        },
        Request::Detach => push_le(out, 18, 1),
    }
    assert(out@ =~= old(out)@ + request_bytes(m@));
}

/// Encodes a request into a length-prefixed framed payload.
pub fn encode_request(m: &Request) -> (r: Vec<u8>)
    ensures
        r@ == framed(request_bytes(m@)),
{
    let mut body: Vec<u8> = Vec::new();
    push_request(&mut body, m);
    assert(body@ =~= request_bytes(m@));
    frame_body(&body)
}

/// Appends the kind and the fields of a response.
#[verifier::spinoff_prover]
fn push_response(out: &mut Vec<u8>, m: &Response)
    ensures
        final(out)@ == old(out)@ + response_bytes(m@),
{
    match m {
        Response::Ack => push_le(out, 0, 1),
        Response::BreakpointId(x) => {
            push_le(out, 1, 1);
            push_le(out, x.0 as u64, 4);
        },
        Response::WatchId(x) => {
            push_le(out, 2, 1);
            push_le(out, *x as u64, 4);
        },
        Response::ConstValue(x) => {
            push_le(out, 3, 1);
            push_value(out, x);
        },
        Response::Frames(x) => {
            push_le(out, 4, 1);
            push_frames(out, x);
        },
        Response::Locals(x) => {
            push_le(out, 5, 1);
            push_locals(out, x);
        },
        Response::Value(x) => {
            push_le(out, 6, 1);
            push_value(out, x);
        },
        Response::Error(x) => {
            push_le(out, 7, 1);
            push_text(out, x);
        },
    }
    assert(out@ =~= old(out)@ + response_bytes(m@));
}

/// Encodes a response into a length-prefixed framed payload.
pub fn encode_response(m: &Response) -> (r: Vec<u8>)
    ensures
        r@ == framed(response_bytes(m@)),
{
    let mut body: Vec<u8> = Vec::new();
    push_response(&mut body, m);
    assert(body@ =~= response_bytes(m@));
    frame_body(&body)
}

/// Appends the kind and the fields of an event.
#[verifier::spinoff_prover]
fn push_event(out: &mut Vec<u8>, m: &Event)
    ensures
        final(out)@ == old(out)@ + event_bytes(m@),
{
    match m {
        Event::Stopped { reason, fiber_id, frame_id } => {
            push_le(out, 1, 1);
            push_le(out, reason_to_u8(*reason) as u64, 1);
            push_le(out, *fiber_id as u64, 4);
            push_le(out, *frame_id as u64, 4);
        },
        Event::BreakpointHit { id, fiber_id } => {
            push_le(out, 2, 1);
            push_le(out, id.0 as u64, 4);
            push_le(out, *fiber_id as u64, 4);
        },
        Event::Exception { fiber_id, message_id } => {
            push_le(out, 3, 1);
            push_le(out, *fiber_id as u64, 4);
            push_le(out, *message_id as u64, 4);
        },
        Event::OutputLine { stream, text } => {
            push_le(out, 4, 1);
            push_le(out, *stream as u64, 1);
            push_text(out, text);
        },
        Event::ModuleReloaded { file_id } => {
            push_le(out, 5, 1);
            push_le(out, *file_id as u64, 4);
        },
        Event::WatchUpdate { id, value } => {
            push_le(out, 6, 1);
            push_le(out, *id as u64, 4);
            push_value(out, value);
        },
    }
    assert(out@ =~= old(out)@ + event_bytes(m@));
}

/// Encodes an event into a length-prefixed framed payload.
pub fn encode_event(m: &Event) -> (r: Vec<u8>)
    ensures
        r@ == framed(event_bytes(m@)),
{
    let mut body: Vec<u8> = Vec::new();
    push_event(&mut body, m);
    assert(body@ =~= event_bytes(m@));
    frame_body(&body)
}

// --- reading --------------------------------------------------------------------

/// Decodes one framed message: its version, its body, and the number of bytes
/// it takes.
pub fn decode_frame(bytes: &[u8]) -> (r: Result<(u16, Vec<u8>, usize), ProtoError>)
    ensures
        match r {
            Ok((version, body, used)) => unframed(bytes@) == Ok::<(u16, Seq<u8>, int), ProtoError>(
                (version, body@, used as int),
            ),
            Err(e) => unframed(bytes@) == Err::<(u16, Seq<u8>, int), ProtoError>(e),
        },
{
    proof {
        wire::lemma_ranges();
    }
    let size: usize = bytes.len();
    if size < 4 {
        return Err(ProtoError::Truncated);
    }
    let n: u64 = read_le(bytes, 0, 4);
    if ((size - 4) as u64) < n {
        return Err(ProtoError::Truncated);
    }
    if n < 2 {
        return Err(ProtoError::BadVersion);
    }
    let version: u64 = read_le(bytes, 4, 2);
    let end: usize = 4 + n as usize;
    Ok((version as u16, copy_range(bytes, 6, end), end))
}

fn read_number(b: &[u8], p: usize, n: usize) -> (r: Result<(u64, usize), ProtoError>)
    requires
        p <= b@.len(),
        n <= 8,
    ensures
        match r {
            Ok((v, q)) => number(b@, p as int, n as int) == Ok::<(nat, int), ProtoError>((v as nat, q as int)) && q
                <= b@.len() && v < wire::range(n as nat),
            Err(e) => number(b@, p as int, n as int) == Err::<(nat, int), ProtoError>(e),
        },
{
    if n > b.len() - p {
        Err(ProtoError::Truncated)
    } else {
        Ok((read_le(b, p, n), p + n))
    }
}

fn read_text(b: &[u8], p: usize) -> (r: Result<(String, usize), ProtoError>)
    requires
        p <= b@.len(),
    ensures
        match r {
            Ok((s, q)) => text(b@, p as int) == Ok::<(Seq<char>, int), ProtoError>((s@, q as int)) && q <= b@.len(),
            Err(e) => text(b@, p as int) == Err::<(Seq<char>, int), ProtoError>(e),
        },
{
    match read_number(b, p, 4) {
        Err(e) => Err(e),
        Ok((n, q)) => {
            if n > (b.len() - q) as u64 {
                Err(ProtoError::Truncated)
            } else {
                let end: usize = q + n as usize;
                match string_from_utf8(copy_range(b, q, end)) {
                    Some(s) => Ok((s, end)),
                    None => Err(ProtoError::BadUtf8),
                }
            }
        },
    }
}

fn read_opt_str(b: &[u8], p: usize) -> (r: Result<(Option<String>, usize), ProtoError>)
    requires
        p <= b@.len(),
    ensures
        match r {
            Ok((o, q)) => opt_str(b@, p as int) == Ok::<(Option<Seq<char>>, int), ProtoError>(
                (opt_text(o), q as int),
            ) && q <= b@.len(),
            Err(e) => opt_str(b@, p as int) == Err::<(Option<Seq<char>>, int), ProtoError>(e),
        },
{
    match read_number(b, p, 1) {
        Err(e) => Err(e),
        Ok((tag, q)) => if tag == 0 {
            Ok((None, q))
        } else if tag == 1 {
            match read_text(b, q) {
                Err(e) => Err(e),
                Ok((s, r)) => Ok((Some(s), r)),
            }
        } else {
            Err(ProtoError::BadOptional)
        },
    }
}

fn read_opt_u32(b: &[u8], p: usize) -> (r: Result<(Option<u32>, usize), ProtoError>)
    requires
        p <= b@.len(),
    ensures
        match r {
            Ok((o, q)) => opt_u32(b@, p as int) == Ok::<(Option<u32>, int), ProtoError>((o, q as int)) && q <= b@.len(),
            Err(e) => opt_u32(b@, p as int) == Err::<(Option<u32>, int), ProtoError>(e),
        },
{
    proof {
        wire::lemma_ranges();
    }
    match read_number(b, p, 1) {
        Err(e) => Err(e),
        Ok((tag, q)) => if tag == 0 {
            Ok((None, q))
        } else if tag == 1 {
            match read_number(b, q, 4) {
                Err(e) => Err(e),
                Ok((n, r)) => Ok((Some(n as u32), r)),
            }
        } else {
            Err(ProtoError::BadOptional)
        },
    }
}

fn read_value(b: &[u8], p: usize) -> (r: Result<(WireValue, usize), ProtoError>)
    requires
        p <= b@.len(),
    ensures
        match r {
            Ok((v, q)) => value(b@, p as int) == Ok::<(WireModel, int), ProtoError>((v@, q as int)) && q <= b@.len(),
            Err(e) => value(b@, p as int) == Err::<(WireModel, int), ProtoError>(e),
        },
{
    proof {
        wire::lemma_ranges();
    }
    match read_number(b, p, 1) {
        Err(e) => Err(e),
        Ok((tag, q)) => if tag == 0 {
            Ok((WireValue::Nil, q))
        } else if tag == 1 {
            match read_number(b, q, 1) {
                Err(e) => Err(e),
                Ok((n, r)) => Ok((WireValue::Bool(n != 0), r)),
            }
        } else if tag == 2 {
            match read_number(b, q, 8) {
                Err(e) => Err(e),
                Ok((n, r)) => Ok((WireValue::Int(n as i64), r)),
            }
        } else if tag == 3 {
            match read_number(b, q, 8) {
                Err(e) => Err(e),
                Ok((n, r)) => Ok((WireValue::FloatBits(n), r)),
            }
        } else if tag == 4 {
            match read_text(b, q) {
                Err(e) => Err(e),
                Ok((s, r)) => Ok((WireValue::Str(s), r)),
            }
        } else if tag == 5 {
            match read_text(b, q) {
                Err(e) => Err(e),
                Ok((s, r)) => Ok((WireValue::Summary(s), r)),
            }
        } else {
            Err(ProtoError::UnknownTag(tag as u8))
        },
    }
}

fn reason_from_u8(code: u8) -> (r: Result<StopReason, ProtoError>)
    ensures
        r == reason_of(code),
{
    match code {
        1 => Ok(StopReason::Pause),
        2 => Ok(StopReason::Step),
        3 => Ok(StopReason::Breakpoint),
        4 => Ok(StopReason::Exception),
        5 => Ok(StopReason::FfiPause),
        6 => Ok(StopReason::Cursor),
        other => Err(ProtoError::UnknownTag(other)),
    }
}

fn read_reason(b: &[u8], p: usize) -> (r: Result<(StopReason, usize), ProtoError>)
    requires
        p <= b@.len(),
    ensures
        match r {
            Ok((x, q)) => reason(b@, p as int) == Ok::<(StopReason, int), ProtoError>((x, q as int)) && q <= b@.len(),
            Err(e) => reason(b@, p as int) == Err::<(StopReason, int), ProtoError>(e),
        },
{
    proof {
        wire::lemma_ranges();
    }
    match read_number(b, p, 1) {
        Err(e) => Err(e),
        Ok((n, q)) => match reason_from_u8(n as u8) {
            Err(e) => Err(e),
            Ok(x) => Ok((x, q)),
        },
    }
}

fn read_frame(b: &[u8], p: usize) -> (r: Result<(FrameInfo, usize), ProtoError>)
    requires
        p <= b@.len(),
    ensures
        match r {
            Ok((x, q)) => frame(b@, p as int) == Ok::<(FrameModel, int), ProtoError>((x@, q as int)) && q <= b@.len(),
            Err(e) => frame(b@, p as int) == Err::<(FrameModel, int), ProtoError>(e),
        },
{
    proof {
        wire::lemma_ranges();
    }
    match read_number(b, p, 4) {
        Err(e) => Err(e),
        Ok((v0, p0)) => match read_text(b, p0) {
            Err(e) => Err(e),
            Ok((v1, p1)) => match read_number(b, p1, 4) {
                Err(e) => Err(e),
                Ok((v2, p2)) => Ok((FrameInfo { index: v0 as u32, function: v1, line: v2 as u32 }, p2)),
            },
        },
    }
}

fn read_frames(b: &[u8], p: usize) -> (r: Result<(Vec<FrameInfo>, usize), ProtoError>)
    requires
        p <= b@.len(),
    ensures
        match r {
            Ok((l, q)) => frames(b@, p as int) == Ok::<(Seq<FrameModel>, int), ProtoError>(
                (views::views(l@), q as int),
            ) && q <= b@.len(),
            Err(e) => frames(b@, p as int) == Err::<(Seq<FrameModel>, int), ProtoError>(e),
        },
{
    match read_number(b, p, 4) {
        Err(e) => Err(e),
        Ok((n, start)) => {
            let mut out: Vec<FrameInfo> = Vec::new();
            let mut q: usize = start;
            let mut i: u64 = 0;
            assert(views::views(out@) =~= Seq::empty());
            while i < n
                invariant
                    i <= n,
                    q <= b@.len(),
                    frames(b@, p as int) == frames_from(b@, start as int, n as int),
                    frames_from(b@, start as int, i as int) == Ok::<(Seq<FrameModel>, int), ProtoError>(
                        (views::views(out@), q as int),
                    ),
                decreases n - i,
            {
                match read_frame(b, q) {
                    Err(e) => {
                        proof {
                            lemma_frames_stop(b@, start as int, i as int + 1, n as int);
                        }
                        return Err(e);
                    },
                    Ok((x, next)) => {
                        proof {
                            views::lemma_views_push(out@, x);
                        }
                        out.push(x);
                        q = next;
                        i += 1;
                    },
                }
            }
            Ok((out, q))
        },
    }
}

/// What stops a list stops any longer one.
proof fn lemma_frames_stop(b: Seq<u8>, p: int, k: int, n: int)
    requires
        frames_from(b, p, k) is Err,
        0 <= k <= n,
    ensures
        frames_from(b, p, n) == frames_from(b, p, k),
    decreases n,
{
    if k < n {
        lemma_frames_stop(b, p, k, n - 1);
    }
}

fn read_local(b: &[u8], p: usize) -> (r: Result<(Local, usize), ProtoError>)
    requires
        p <= b@.len(),
    ensures
        match r {
            Ok((x, q)) => local(b@, p as int) == Ok::<(LocalModel, int), ProtoError>((x@, q as int)) && q <= b@.len(),
            Err(e) => local(b@, p as int) == Err::<(LocalModel, int), ProtoError>(e),
        },
{
    proof {
        wire::lemma_ranges();
    }
    match read_text(b, p) {
        Err(e) => Err(e),
        Ok((v0, p0)) => match read_number(b, p0, 1) {
            Err(e) => Err(e),
            Ok((v1, p1)) => match read_value(b, p1) {
                Err(e) => Err(e),
                Ok((v2, p2)) => match read_number(b, p2, 1) {
                    Err(e) => Err(e),
                    Ok((v3, p3)) => Ok((Local { name: v0, reg: v1 as u8, value: v2, dirty: v3 != 0 }, p3)),
                },
            },
        },
    }
}

fn read_locals(b: &[u8], p: usize) -> (r: Result<(Vec<Local>, usize), ProtoError>)
    requires
        p <= b@.len(),
    ensures
        match r {
            Ok((l, q)) => locals(b@, p as int) == Ok::<(Seq<LocalModel>, int), ProtoError>(
                (views::views(l@), q as int),
            ) && q <= b@.len(),
            Err(e) => locals(b@, p as int) == Err::<(Seq<LocalModel>, int), ProtoError>(e),
        },
{
    match read_number(b, p, 4) {
        Err(e) => Err(e),
        Ok((n, start)) => {
            let mut out: Vec<Local> = Vec::new();
            let mut q: usize = start;
            let mut i: u64 = 0;
            assert(views::views(out@) =~= Seq::empty());
            while i < n
                invariant
                    i <= n,
                    q <= b@.len(),
                    locals(b@, p as int) == locals_from(b@, start as int, n as int),
                    locals_from(b@, start as int, i as int) == Ok::<(Seq<LocalModel>, int), ProtoError>(
                        (views::views(out@), q as int),
                    ),
                decreases n - i,
            {
                match read_local(b, q) {
                    Err(e) => {
                        proof {
                            lemma_locals_stop(b@, start as int, i as int + 1, n as int);
                        }
                        return Err(e);
                    },
                    Ok((x, next)) => {
                        proof {
                            views::lemma_views_push(out@, x);
                        }
                        out.push(x);
                        q = next;
                        i += 1;
                    },
                }
            }
            Ok((out, q))
        },
    }
}

/// What stops a list stops any longer one.
proof fn lemma_locals_stop(b: Seq<u8>, p: int, k: int, n: int)
    requires
        locals_from(b, p, k) is Err,
        0 <= k <= n,
    ensures
        locals_from(b, p, n) == locals_from(b, p, k),
    decreases n,
{
    if k < n {
        lemma_locals_stop(b, p, k, n - 1);
    }
}

/// Decodes a request body (everything after the version bytes).
#[verifier::spinoff_prover]
pub fn decode_request(b: &[u8]) -> (r: Result<Request, ProtoError>)
    ensures
        match r {
            Ok(m) => request_of(b@) == Ok::<RequestModel, ProtoError>(m@),
            Err(e) => request_of(b@) == Err::<RequestModel, ProtoError>(e),
        },
{
    proof {
        wire::lemma_ranges();
    }
    match read_number(b, 0, 1) {
        Err(e) => Err(e),
        Ok((tag, q)) => if tag == 1 {
            match read_number(b, q, 4) {
                Err(e) => Err(e),
                Ok((v0, p0)) => match read_number(b, p0, 4) {
                    Err(e) => Err(e),
                    Ok((v1, p1)) => match read_opt_str(b, p1) {
                        Err(e) => Err(e),
                        Ok((v2, p2)) => match read_opt_u32(b, p2) {
                            Err(e) => Err(e),
                            Ok((v3, _)) => Ok(Request::SetBreakpoint { file_id: v0 as u32, line: v1 as u32, condition: v2, hit_count: v3 }),
                        },
                    },
                },
            }
        } else if tag == 2 {
            match read_text(b, q) {
                Err(e) => Err(e),
                Ok((v0, _)) => Ok(Request::SetFunctionBreakpoint { fn_name: v0 }),
            }
        } else if tag == 3 {
            match read_number(b, q, 4) {
                Err(e) => Err(e),
                Ok((v0, _)) => Ok(Request::SetExceptionBreakpoint { mask: v0 as u32 }),
            }
        } else if tag == 4 {
            match read_number(b, q, 4) {
                Err(e) => Err(e),
                Ok((v0, _)) => Ok(Request::ClearBreakpoint { id: BreakpointId(v0 as u32) }),
            }
        } else if tag == 5 {
            Ok(Request::Continue)
        } else if tag == 6 {
            Ok(Request::Pause)
        } else if tag == 7 {
            Ok(Request::StepOver)
        } else if tag == 8 {
            Ok(Request::StepInto)
        } else if tag == 9 {
            Ok(Request::StepOut)
        } else if tag == 10 {
            match read_number(b, q, 4) {
                Err(e) => Err(e),
                Ok((v0, p0)) => match read_number(b, p0, 4) {
                    Err(e) => Err(e),
                    Ok((v1, _)) => Ok(Request::RunToCursor { file_id: v0 as u32, line: v1 as u32 }),
                },
            }
        } else if tag == 11 {
            Ok(Request::ListFrames)
        } else if tag == 12 {
            match read_number(b, q, 4) {
                Err(e) => Err(e),
                Ok((v0, _)) => Ok(Request::ListLocals { frame_id: v0 as u32 }),
            }
        } else if tag == 13 {
            match read_number(b, q, 4) {
                Err(e) => Err(e),
                Ok((v0, p0)) => match read_text(b, p0) {
                    Err(e) => Err(e),
                    Ok((v1, _)) => Ok(Request::ExpandValue { frame_id: v0 as u32, path: v1 }),
                },
            }
        } else if tag == 14 {
            match read_number(b, q, 4) {
                Err(e) => Err(e),
                Ok((v0, p0)) => match read_text(b, p0) {
                    Err(e) => Err(e),
                    Ok((v1, p1)) => match read_value(b, p1) {
                        Err(e) => Err(e),
                        Ok((v2, _)) => Ok(Request::SetLocal { frame_id: v0 as u32, name: v1, value: v2 }),
                    },
                },
            }
        } else if tag == 15 {
            match read_text(b, q) {
                Err(e) => Err(e),
                Ok((v0, _)) => Ok(Request::Watch { expr: v0 }),
            }
        } else if tag == 16 {
            match read_number(b, q, 4) {
                Err(e) => Err(e),
                Ok((v0, _)) => Ok(Request::Unwatch { id: v0 as u32 }),
            }
        } else if tag == 17 {
            match read_text(b, q) {
                Err(e) => Err(e),
                Ok((v0, _)) => Ok(Request::EvalConst { expr: v0 }),
            }
        } else if tag == 18 {
            Ok(Request::Detach)
        } else {
            Err(ProtoError::UnknownTag(tag as u8))
        },
    }
}

/// Decodes a response body (everything after the version bytes).
#[verifier::spinoff_prover]
pub fn decode_response(b: &[u8]) -> (r: Result<Response, ProtoError>)
    ensures
        match r {
            Ok(m) => response_of(b@) == Ok::<ResponseModel, ProtoError>(m@),
            Err(e) => response_of(b@) == Err::<ResponseModel, ProtoError>(e),
        },
{
    proof {
        wire::lemma_ranges();
    }
    match read_number(b, 0, 1) {
        Err(e) => Err(e),
        Ok((tag, q)) => if tag == 0 {
            Ok(Response::Ack)
        } else if tag == 1 {
            match read_number(b, q, 4) {
                Err(e) => Err(e),
                Ok((v0, _)) => Ok(Response::BreakpointId(BreakpointId(v0 as u32))),
            }
        } else if tag == 2 {
            match read_number(b, q, 4) {
                Err(e) => Err(e),
                Ok((v0, _)) => Ok(Response::WatchId(v0 as u32)),
            }
        } else if tag == 3 {
            match read_value(b, q) {
                Err(e) => Err(e),
                Ok((v0, _)) => Ok(Response::ConstValue(v0)),
            }
        } else if tag == 4 {
            match read_frames(b, q) {
                Err(e) => Err(e),
                Ok((v0, _)) => Ok(Response::Frames(v0)),
            }
        } else if tag == 5 {
            match read_locals(b, q) {
                Err(e) => Err(e),
                Ok((v0, _)) => Ok(Response::Locals(v0)),
            }
        } else if tag == 6 {
            match read_value(b, q) {
                Err(e) => Err(e),
                Ok((v0, _)) => Ok(Response::Value(v0)),
            }
        } else if tag == 7 {
            match read_text(b, q) {
                Err(e) => Err(e),
                Ok((v0, _)) => Ok(Response::Error(v0)),
            }
        } else {
            Err(ProtoError::UnknownTag(tag as u8))
        },
    }
}

/// Decodes an event body (everything after the version bytes).
#[verifier::spinoff_prover]
pub fn decode_event(b: &[u8]) -> (r: Result<Event, ProtoError>)
    ensures
        match r {
            Ok(m) => event_of(b@) == Ok::<EventModel, ProtoError>(m@),
            Err(e) => event_of(b@) == Err::<EventModel, ProtoError>(e),
        },
{
    proof {
        wire::lemma_ranges();
    }
    match read_number(b, 0, 1) {
        Err(e) => Err(e),
        Ok((tag, q)) => if tag == 1 {
            match read_reason(b, q) {
                Err(e) => Err(e),
                Ok((v0, p0)) => match read_number(b, p0, 4) {
                    Err(e) => Err(e),
                    Ok((v1, p1)) => match read_number(b, p1, 4) {
                        Err(e) => Err(e),
                        Ok((v2, _)) => Ok(Event::Stopped { reason: v0, fiber_id: v1 as u32, frame_id: v2 as u32 }),
                    },
                },
            }
        } else if tag == 2 {
            match read_number(b, q, 4) {
                Err(e) => Err(e),
                Ok((v0, p0)) => match read_number(b, p0, 4) {
                    Err(e) => Err(e),
                    Ok((v1, _)) => Ok(Event::BreakpointHit { id: BreakpointId(v0 as u32), fiber_id: v1 as u32 }),
                },
            }
        } else if tag == 3 {
            match read_number(b, q, 4) {
                Err(e) => Err(e),
                Ok((v0, p0)) => match read_number(b, p0, 4) {
                    Err(e) => Err(e),
                    Ok((v1, _)) => Ok(Event::Exception { fiber_id: v0 as u32, message_id: v1 as u32 }),
                },
            }
        } else if tag == 4 {
            match read_number(b, q, 1) {
                Err(e) => Err(e),
                Ok((v0, p0)) => match read_text(b, p0) {
                    Err(e) => Err(e),
                    Ok((v1, _)) => Ok(Event::OutputLine { stream: v0 as u8, text: v1 }),
                },
            }
        } else if tag == 5 {
            match read_number(b, q, 4) {
                Err(e) => Err(e),
                Ok((v0, _)) => Ok(Event::ModuleReloaded { file_id: v0 as u32 }),
            }
        } else if tag == 6 {
            match read_number(b, q, 4) {
                Err(e) => Err(e),
                Ok((v0, p0)) => match read_value(b, p0) {
                    Err(e) => Err(e),
                    Ok((v1, _)) => Ok(Event::WatchUpdate { id: v0 as u32, value: v1 }),
                },
            }
        } else {
            Err(ProtoError::UnknownTag(tag as u8))
        },
    }
}

} // verus!
