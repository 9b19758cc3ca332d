//! From decoded values to messages.
use vstd::prelude::*;

use crate::error::{Error, ErrorKind};
use crate::parser::{views, Response, Value};

verus! {

/// A message delivered to the user of a session.
#[derive(Debug)]
pub enum Message {
    Subscription { channel: String, subscriptions: i64 },
    Unsubscription { channel: String, subscriptions: i64 },
    Message { channel: String, message: String },
    PatternSubscription { channel: String, subscriptions: i64 },
    PatternUnsubscription { channel: String, subscriptions: i64 },
    PatternMessage { pattern: String, channel: String, message: String },
    Connected,
    Disconnected(Error),
    Error(Error),
}

/// Why a decoded value is not a message.
#[derive(Debug, Clone, Copy, PartialEq, Eq, Structural)]
pub enum ParserError {
    /// The value is not an array whose first element is a bulk string, or
    /// that string names no known kind.
    MalformedResponse,
    /// The channel is missing or not a bulk string.
    InvalidChannel,
    /// The subscriber count is missing or not an integer; for a published
    /// message, the payload is missing or not a bulk string.
    InvalidSubscriberCount,
    /// The pattern is missing or not a bulk string.
    InvalidPattern,
}

/// What a `Message` stands for.
pub enum MessageView {
    Subscription { channel: Seq<char>, subscriptions: int },
    Unsubscription { channel: Seq<char>, subscriptions: int },
    Message { channel: Seq<char>, message: Seq<char> },
    PatternSubscription { channel: Seq<char>, subscriptions: int },
    PatternUnsubscription { channel: Seq<char>, subscriptions: int },
    PatternMessage { pattern: Seq<char>, channel: Seq<char>, message: Seq<char> },
    Connected,
    Disconnected(ErrorKind),
    Error(ErrorKind),
}

impl View for Message {
    type V = MessageView;

    open spec fn view(&self) -> MessageView {
        match self {
            Message::Subscription { channel, subscriptions } => MessageView::Subscription {
                channel: channel@,
                subscriptions: *subscriptions as int,
            },
            Message::Unsubscription { channel, subscriptions } => MessageView::Unsubscription {
                channel: channel@,
                subscriptions: *subscriptions as int,
            },
            Message::Message { channel, message } => MessageView::Message {
                channel: channel@,
                message: message@,
            },
            Message::PatternSubscription { channel, subscriptions } =>
                MessageView::PatternSubscription {
                channel: channel@,
                subscriptions: *subscriptions as int,
            },
            Message::PatternUnsubscription { channel, subscriptions } =>
                MessageView::PatternUnsubscription {
                channel: channel@,
                subscriptions: *subscriptions as int,
            },
            Message::PatternMessage { pattern, channel, message } => MessageView::PatternMessage {
                pattern: pattern@,
                channel: channel@,
                message: message@,
            },
            Message::Connected => MessageView::Connected,
            Message::Disconnected(e) => MessageView::Disconnected(e@),
            Message::Error(e) => MessageView::Error(e@),
        }
    }
}

/// The view of the outcome of a mapping.
pub open spec fn outcome(r: &Result<Message, Error>) -> Result<MessageView, ErrorKind> {
    match r {
        Ok(m) => Ok(m@),
        Err(e) => Err(e@),
    }
}

/// A parser error as an error of the library.
pub open spec fn parser_failure(
    r: Result<MessageView, ParserError>,
) -> Result<MessageView, ErrorKind> {
    match r {
        Ok(m) => Ok(m),
        Err(e) => Err(ErrorKind::Parser(e)),
    }
}

/// The text of element `i`, when it is a bulk string.
pub open spec fn text_at(items: Seq<Value>, i: int) -> Option<Seq<char>> {
    if 0 <= i < items.len() {
        match items[i] {
            Value::Bulk(t) => Some(t),
            _ => None,
        }
    } else {
        None
    }
}

/// The number of element `i`, when it is an integer.
pub open spec fn integer_at(items: Seq<Value>, i: int) -> Option<int> {
    if 0 <= i < items.len() {
        match items[i] {
            Value::Integer(n) => Some(n),
            _ => None,
        }
    } else {
        None
    }
}

/// The name (element 1) and the subscriber count (element 2) of a
/// confirmation; `missing` is the error for a bad name.
pub open spec fn name_and_count(items: Seq<Value>, missing: ParserError) -> Result<
    (Seq<char>, int),
    ParserError,
> {
    match text_at(items, 1) {
        None => Err(missing),
        Some(name) => match integer_at(items, 2) {
            None => Err(ParserError::InvalidSubscriberCount),
            Some(n) => Ok((name, n)),
        },
    }
}

/// Whether `kind` names one of the six kinds of message.
pub open spec fn is_known_kind(kind: Seq<char>) -> bool {
    ||| kind == "subscribe"@
    ||| kind == "unsubscribe"@
    ||| kind == "message"@
    ||| kind == "pmessage"@
    ||| kind == "psubscribe"@
    ||| kind == "punsubscribe"@
}

/// The message that the elements `items` of an array stand for, given the
/// lower-case form `kind` of its first element.
pub open spec fn message_of(kind: Seq<char>, items: Seq<Value>) -> Result<MessageView, ParserError> {
    if kind == "subscribe"@ {
        match name_and_count(items, ParserError::InvalidChannel) {
            Ok((c, n)) => Ok(MessageView::Subscription { channel: c, subscriptions: n }),
            Err(e) => Err(e),
        }
    } else if kind == "unsubscribe"@ {
        match name_and_count(items, ParserError::InvalidChannel) {
            Ok((c, n)) => Ok(MessageView::Unsubscription { channel: c, subscriptions: n }),
            Err(e) => Err(e),
        }
    } else if kind == "message"@ {
        match text_at(items, 1) {
            None => Err(ParserError::InvalidChannel),
            Some(c) => match text_at(items, 2) {
                None => Err(ParserError::InvalidSubscriberCount),
                Some(m) => Ok(MessageView::Message { channel: c, message: m }),
            },
        }
    } else if kind == "pmessage"@ {
        match text_at(items, 1) {
            None => Err(ParserError::InvalidPattern),
            Some(p) => match text_at(items, 2) {
                None => Err(ParserError::InvalidChannel),
                Some(c) => match text_at(items, 3) {
                    None => Err(ParserError::InvalidSubscriberCount),
                    Some(m) => Ok(MessageView::PatternMessage { pattern: p, channel: c, message: m }),
                },
            },
        }
    } else if kind == "psubscribe"@ {
        match name_and_count(items, ParserError::InvalidPattern) {
            Ok((c, n)) => Ok(MessageView::PatternSubscription { channel: c, subscriptions: n }),
            Err(e) => Err(e),
        }
    } else if kind == "punsubscribe"@ {
        match name_and_count(items, ParserError::InvalidPattern) {
            Ok((c, n)) => Ok(MessageView::PatternUnsubscription { channel: c, subscriptions: n }),
            Err(e) => Err(e),
        }
    } else {
        Err(ParserError::MalformedResponse)
    }
}

/// The lower-case form of a text, as `str::to_lowercase` gives it.
pub uninterp spec fn lower_of(s: Seq<char>) -> Seq<char>;

/// Relies on `str::to_lowercase`: the lower-case form of a text depends on
/// its characters alone.
#[verifier::external_body]
fn lowercase(s: &str) -> (r: String)
    ensures
        r@ == lower_of(s@),
{
    s.to_lowercase()
}

/// The message a decoded value stands for: an array whose first element is
/// a bulk string naming its kind, in any case.
pub open spec fn response_message(v: Value) -> Result<MessageView, ErrorKind> {
    match v {
        Value::Array(items) => if items.len() > 0 && items[0] is Bulk {
            parser_failure(message_of(lower_of(items[0]->Bulk_0), items))
        } else {
            Err(ErrorKind::Parser(ParserError::MalformedResponse))
        },
        _ => Err(ErrorKind::Parser(ParserError::MalformedResponse)),
    }
}

/// Whether `s` is the text `word`.
fn is_word(s: &String, word: &str) -> (r: bool)
    ensures
        r == (s@ == word@),
{
    let w = word.to_owned();
    *s == w
}

/// The text of element `i`, when it is a bulk string.
fn text_of(res: &[Response], i: usize) -> (r: Option<String>)
    ensures
        match r {
            Some(t) => text_at(views(res@), i as int) == Some(t@),
            None => text_at(views(res@), i as int) is None,
        },
{
    if i < res.len() {
        match &res[i] {
            Response::Bulk(t) => Some(t.clone()),
            _ => None,
        }
    } else {
        None
    }
}

/// The number of element `i`, when it is an integer.
fn integer_of(res: &[Response], i: usize) -> (r: Option<i64>)
    ensures
        match r {
            Some(n) => integer_at(views(res@), i as int) == Some(n as int),
            None => integer_at(views(res@), i as int) is None,
        },
{
    if i < res.len() {
        match &res[i] {
            Response::Integer(n) => Some(*n),
            _ => None,
        }
    } else {
        None
    }
}

/// The name and the subscriber count of a confirmation.
fn read_name_and_count(res: &[Response], missing: ParserError) -> (r: Result<
    (String, i64),
    ParserError,
>)
    ensures
        match r {
            Ok((c, n)) => name_and_count(views(res@), missing) == Ok::<(Seq<char>, int), ParserError>((c@, n as int)),
            Err(e) => name_and_count(views(res@), missing) == Err::<(Seq<char>, int), ParserError>(e),
        },
{
    let channel = match text_of(res, 1) {
        Some(c) => c,
        None => return Err(missing),
    };
    let subscriptions = match integer_of(res, 2) {
        Some(n) => n,
        None => return Err(ParserError::InvalidSubscriberCount),
    };
    Ok((channel, subscriptions))
}

/// The six kinds of message are six different words.
proof fn lemma_kinds_differ()
    ensures
        "subscribe"@.len() == 9,
        "unsubscribe"@.len() == 11,
        "message"@.len() == 7,
        "pmessage"@.len() == 8,
        "psubscribe"@.len() == 10,
        "punsubscribe"@.len() == 12,
{
    reveal_strlit("subscribe");
    reveal_strlit("unsubscribe");
    reveal_strlit("message");
    reveal_strlit("pmessage");
    reveal_strlit("psubscribe");
    reveal_strlit("punsubscribe");
}

impl Message {
    /// Maps a decoded value to the message it stands for.
    ///
    /// # Errors
    /// Returns `Error::ParserError` when the value has unexpected types.
    pub fn from_response(res: Response) -> (r: Result<Self, Error>)
        ensures
            outcome(&r) == response_message(res@),
    {
        let arr = match res {
            Response::Array(arr) => arr,
            _ => return Err(Error::ParserError(ParserError::MalformedResponse)),
        };
        proof {
            assert(views(arr@) =~= res@->Array_0);
        }
        if arr.len() == 0 {
            return Err(Error::ParserError(ParserError::MalformedResponse));
        }
        let kind = match &arr[0] {
            Response::Bulk(kind) => lowercase(kind.as_str()),
            _ => return Err(Error::ParserError(ParserError::MalformedResponse)),
        };
        Self::from_kind(kind.as_str(), arr.as_slice())
    }

    /// Maps the elements of an array to a message, given the lower-case
    /// form `kind` of its first element.
    ///
    /// # Errors
    /// Returns `Error::ParserError` when `kind` names no known message or an
    /// element has an unexpected type.
    pub fn from_kind(kind: &str, res: &[Response]) -> (r: Result<Self, Error>)
        ensures
            outcome(&r) == parser_failure(message_of(kind@, views(res@))),
    {
        let kind = kind.to_owned();
        if is_word(&kind, "subscribe") {
            Self::from_subscribe(res)
        } else if is_word(&kind, "unsubscribe") {
            Self::from_unsubscribe(res)
        } else if is_word(&kind, "message") {
            Self::from_message(res)
        } else if is_word(&kind, "pmessage") {
            Self::from_pmessage(res)
        } else if is_word(&kind, "psubscribe") {
            Self::from_psubscribe(res)
        } else if is_word(&kind, "punsubscribe") {
            Self::from_punsubscribe(res)
        } else {
            Err(Error::ParserError(ParserError::MalformedResponse))
        }
    }

    /// Maps the confirmation of a subscription.
    fn from_subscribe(res: &[Response]) -> (r: Result<Self, Error>)
        ensures
            outcome(&r) == parser_failure(message_of("subscribe"@, views(res@))),
    {
        proof {
            lemma_kinds_differ();
        }
        match read_name_and_count(res, ParserError::InvalidChannel) {
            Ok((channel, subscriptions)) => Ok(Self::Subscription { channel, subscriptions }),
            Err(e) => Err(Error::ParserError(e)),
        }
    }

    /// Maps the confirmation of a pattern subscription.
    fn from_psubscribe(res: &[Response]) -> (r: Result<Self, Error>)
        ensures
            outcome(&r) == parser_failure(message_of("psubscribe"@, views(res@))),
    {
        proof {
            lemma_kinds_differ();
        }
        match read_name_and_count(res, ParserError::InvalidPattern) {
            Ok((channel, subscriptions)) => Ok(
                Self::PatternSubscription { channel, subscriptions },
            ),
            Err(e) => Err(Error::ParserError(e)),
        }
    }

    /// Maps the confirmation of an unsubscription.
    fn from_unsubscribe(res: &[Response]) -> (r: Result<Self, Error>)
        ensures
            outcome(&r) == parser_failure(message_of("unsubscribe"@, views(res@))),
    {
        proof {
            lemma_kinds_differ();
        }
        match read_name_and_count(res, ParserError::InvalidChannel) {
            Ok((channel, subscriptions)) => Ok(Self::Unsubscription { channel, subscriptions }),
            Err(e) => Err(Error::ParserError(e)),
        }
    }

    /// Maps the confirmation of a pattern unsubscription.
    fn from_punsubscribe(res: &[Response]) -> (r: Result<Self, Error>)
        ensures
            outcome(&r) == parser_failure(message_of("punsubscribe"@, views(res@))),
    {
        proof {
            lemma_kinds_differ();
        }
        match read_name_and_count(res, ParserError::InvalidPattern) {
            Ok((channel, subscriptions)) => Ok(
                Self::PatternUnsubscription { channel, subscriptions },
            ),
            Err(e) => Err(Error::ParserError(e)),
        }
    }

    /// Maps a message published on a channel.
    fn from_message(res: &[Response]) -> (r: Result<Self, Error>)
        ensures
            outcome(&r) == parser_failure(message_of("message"@, views(res@))),
    {
        proof {
            lemma_kinds_differ();
        }
        let channel = match text_of(res, 1) {
            Some(c) => c,
            None => return Err(Error::ParserError(ParserError::InvalidChannel)),
        };
        let message = match text_of(res, 2) {
            Some(m) => m,
            None => return Err(Error::ParserError(ParserError::InvalidSubscriberCount)),
        };
        Ok(Self::Message { channel, message })
    }

    /// Maps a message published on a channel that matched a pattern.
    fn from_pmessage(res: &[Response]) -> (r: Result<Self, Error>)
        ensures
            outcome(&r) == parser_failure(message_of("pmessage"@, views(res@))),
    {
        proof {
            lemma_kinds_differ();
        }
        let pattern = match text_of(res, 1) {
            Some(p) => p,
            None => return Err(Error::ParserError(ParserError::InvalidPattern)),
        };
        let channel = match text_of(res, 2) {
            Some(c) => c,
            None => return Err(Error::ParserError(ParserError::InvalidChannel)),
        };
        let message = match text_of(res, 3) {
            Some(m) => m,
            None => return Err(Error::ParserError(ParserError::InvalidSubscriberCount)),
        };
        Ok(Self::PatternMessage { pattern, channel, message })
    }
}

impl Message {
    pub fn is_subscription(&self) -> (r: bool)
        ensures
            r == (self is Subscription),
    {
        matches!(self, Self::Subscription { .. })
    }

    pub fn is_pattern_subscription(&self) -> (r: bool)
        ensures
            r == (self is PatternSubscription),
    {
        matches!(self, Self::PatternSubscription { .. })
    }

    pub fn is_unsubscription(&self) -> (r: bool)
        ensures
            r == (self is Unsubscription),
    {
        matches!(self, Self::Unsubscription { .. })
    }

    pub fn is_pattern_unsubscription(&self) -> (r: bool)
        ensures
            r == (self is PatternUnsubscription),
    {
        matches!(self, Self::PatternUnsubscription { .. })
    }

    pub fn is_message(&self) -> (r: bool)
        ensures
            r == (self is Message),
    {
        matches!(self, Self::Message { .. })
    }

    pub fn is_pattern_message(&self) -> (r: bool)
        ensures
            r == (self is PatternMessage),
    {
        matches!(self, Self::PatternMessage { .. })
    }

    pub fn is_connected(&self) -> (r: bool)
        ensures
            r == (self is Connected),
    {
        matches!(self, Self::Connected)
    }

    pub fn is_disconnected(&self) -> (r: bool)
        ensures
            r == (self is Disconnected),
    {
        matches!(self, Self::Disconnected(_))
    }

    pub fn is_error(&self) -> (r: bool)
        ensures
            r == (self is Error),
    {
        matches!(self, Self::Error(_))
    }
}

} // verus!
