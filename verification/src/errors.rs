//! Errors of the Web API and the replies that report them.
use vstd::prelude::*;
use crate::text::{concat, owned};

verus! {

/// What can go wrong while serving a request.
#[derive(Debug)]
pub enum NetError {
    // internal errors
    Internal(String),
    Comm(String),
    NoBackend,
    NoResponse,
    ReadNG,
    WriteNG,
    Conversion(String),
    // 404s
    NoProperty,
    NoDevice,
    // 400
    BadRequest(String),
    Range(String),
}

/// The JSON error object of the Web API guidelines: a `type` and an optional message.
#[derive(Debug)]
pub struct ErrorResponse {
    pub error_type: String,
    pub message: Option<String>,
}

/// The body of an error reply: plain text, or the JSON error object.
#[derive(Debug)]
pub enum ReplyBody {
    Text(String),
    Json(ErrorResponse),
}

/// An HTTP error reply: status code and body.
#[derive(Debug)]
pub struct ErrorReply {
    pub status: u16,
    pub body: ReplyBody,
}

/// The `type` of the error object that reports `e`.
pub open spec fn error_type_of(e: NetError) -> Seq<char> {
    match e {
        NetError::NoDevice => "referenceError"@,
        NetError::NoProperty => "referenceError"@,
        NetError::NoResponse => "timeoutError"@,
        NetError::ReadNG => "deviceError"@,
        NetError::WriteNG => "deviceError"@,
        NetError::Comm(_) => "communicationError"@,
        NetError::BadRequest(_) => "typeError"@,
        NetError::Range(_) => "rangeError"@,
        _ => "internalError"@,
    }
}

/// The message of the error object that reports `e`.
pub open spec fn error_message_of(e: NetError) -> Option<Seq<char>> {
    match e {
        NetError::NoDevice => Some("No such device!"@),
        NetError::NoProperty => Some("No such property!"@),
        NetError::Comm(m) => Some(m@),
        NetError::BadRequest(m) => Some(m@),
        NetError::Range(m) => Some(m@),
        NetError::Internal(m) => Some(m@),
        _ => None,
    }
}

/// The HTTP status code of the reply that reports `e`.
pub open spec fn status_of(e: NetError) -> u16 {
    match e {
        NetError::NoDevice => 404,
        NetError::NoProperty => 404,
        NetError::BadRequest(_) => 400,
        NetError::Range(_) => 400,
        NetError::ReadNG => 405,
        NetError::WriteNG => 405,
        _ => 500,
    }
}

/// The plain-text body of the reply that reports `e`, where it has one rather
/// than a JSON error object.
pub open spec fn text_body_of(e: NetError) -> Option<Seq<char>> {
    match e {
        NetError::NoBackend => Some("no backend"@),
        NetError::Comm(m) => Some("communications error: "@ + m@),
        NetError::Conversion(m) => Some("conversion error: "@ + m@),
        _ => None,
    }
}

impl ErrorResponse {
    /// An error object of the given type, without a message.
    pub fn new(error_type: String) -> (r: Self)
        ensures
            r.error_type == error_type,
            r.message is None,
    {
        ErrorResponse { error_type, message: None }
    }

    /// The same error object with `message` set.
    pub fn with_message(self, message: String) -> (r: Self)
        ensures
            r.error_type == self.error_type,
            r.message == Some(message),
    {
        ErrorResponse { message: Some(message), ..self }
    }
}

fn dup(s: &String) -> (r: String)
    ensures
        r@ == s@,
{
    s.clone()
}

impl NetError {
    /// The error object that reports this error.
    pub fn error(&self) -> (r: ErrorResponse)
        ensures
            r.error_type@ == error_type_of(*self),
            match error_message_of(*self) {
                Some(m) => r.message is Some && r.message->0@ == m,
                None => r.message is None,
            },
    {
        match self {
            NetError::NoDevice => ErrorResponse::new(owned("referenceError")).with_message(
                owned("No such device!"),
            ),
            NetError::NoProperty => ErrorResponse::new(owned("referenceError")).with_message(
                owned("No such property!"),
            ),
            NetError::NoResponse => ErrorResponse::new(owned("timeoutError")),
            NetError::ReadNG => ErrorResponse::new(owned("deviceError")),
            NetError::WriteNG => ErrorResponse::new(owned("deviceError")),
            NetError::Comm(comm_error) => ErrorResponse::new(
                owned("communicationError"),
            ).with_message(dup(comm_error)),
            NetError::BadRequest(details) => ErrorResponse::new(owned("typeError")).with_message(
                dup(details),
            ),
            NetError::Range(details) => ErrorResponse::new(owned("rangeError")).with_message(
                dup(details),
            ),
            NetError::Internal(details) => ErrorResponse::new(
                owned("internalError"),
            ).with_message(dup(details)),
            _ => ErrorResponse::new(owned("internalError")),
        }
    }

    /// The HTTP reply that reports this error: its status code, and either a
    /// plain-text body or the error object of [`NetError::error`].
    pub fn to_response(&self) -> (r: ErrorReply)
        ensures
            r.status == status_of(*self),
            match text_body_of(*self) {
                Some(t) => r.body is Text && r.body->Text_0@ == t,
                None => r.body is Json && r.body->Json_0.error_type@ == error_type_of(*self) && (
                match error_message_of(*self) {
                    Some(m) => r.body->Json_0.message is Some && r.body->Json_0.message->0@ == m,
                    None => r.body->Json_0.message is None,
                }),
            },
    {
        match self {
            NetError::NoBackend => ErrorReply { status: 500, body: ReplyBody::Text(owned("no backend")) },
            NetError::NoResponse => ErrorReply { status: 500, body: ReplyBody::Json(self.error()) },
            NetError::Comm(err) => ErrorReply {
                status: 500,
                body: ReplyBody::Text(concat("communications error: ", err.as_str())),
            },
            NetError::Conversion(err) => ErrorReply {
                status: 500,
                body: ReplyBody::Text(concat("conversion error: ", err.as_str())),
            },
            NetError::NoDevice => ErrorReply { status: 404, body: ReplyBody::Json(self.error()) },
            NetError::NoProperty => ErrorReply { status: 404, body: ReplyBody::Json(self.error()) },
            NetError::BadRequest(_) => ErrorReply { status: 400, body: ReplyBody::Json(self.error()) },
            NetError::Range(_) => ErrorReply { status: 400, body: ReplyBody::Json(self.error()) },
            NetError::ReadNG => ErrorReply { status: 405, body: ReplyBody::Json(self.error()) },
            NetError::WriteNG => ErrorReply { status: 405, body: ReplyBody::Json(self.error()) },
            NetError::Internal(_) => ErrorReply { status: 500, body: ReplyBody::Json(self.error()) },
        }
    }
}

} // verus!
