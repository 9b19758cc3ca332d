//! The decisions of a subscription session.
//!
//! A session goes through `Idle`, then `Connecting`, `Resubscribing` and
//! `Streaming`, and back to `Connecting` whenever the connection is lost. The
//! caller performs the I/O: it connects, sends, reads and waits, and reports
//! each outcome to the session, which says what comes next.
//!
//! Backoff between failed connection attempts grows with the square of the
//! attempt number, capped at 64 seconds, plus a random jitter below one
//! second.
use rand::Rng;
use vstd::prelude::*;
use vstd::string::StringSliceAdditionalSpecFns;
use vstd::utf8::*;

use crate::command::{Command, Request};
use crate::error::{Error, ErrorKind};
use crate::message::{
    is_known_kind, lower_of, response_message, Message, MessageView, ParserError,
};
use crate::parser::{can_never_parse, decoded, leftover, never_parses, parse, views, Value};
use crate::registry::{with_name, Registry, RegistryView};

verus! {

/// How many times a failed connection attempt is retried before the
/// attempt is given up.
pub const MAX_RETRIES: u32 = 8;

/// The jitter added to a backoff is below this many milliseconds.
pub const JITTER_RANGE_MS: u64 = 1000;

/// The longest backoff, jitter aside, in seconds.
pub const MAX_BACKOFF_SECS: u64 = 64;

/// Where a session stands.
#[derive(Debug, Clone, Copy, PartialEq, Eq, Structural)]
pub enum Phase {
    /// Not started yet.
    Idle,
    /// Trying to connect.
    Connecting,
    /// Connected; the registry is being sent to the server again.
    Resubscribing,
    /// Connected and resubscribed; reading messages.
    Streaming,
}

/// The state of a subscription session.
#[derive(Debug)]
pub struct Session {
    addr: String,
    registry: Registry,
    writer: bool,
    phase: Phase,
    attempt: u32,
    pending: String,
    partial: Vec<u8>,
}

/// What a `Session` holds.
pub struct SessionView {
    /// The address of the server.
    pub addr: Seq<char>,
    /// The channels and patterns wanted.
    pub registry: RegistryView,
    /// Whether a connection is open to send commands on.
    pub writer: bool,
    pub phase: Phase,
    /// How many failed connection attempts have been retried in a row.
    pub attempt: nat,
    /// Text read from the server that holds no complete value yet.
    pub pending: Seq<char>,
    /// Bytes read from the server that begin a character not complete yet.
    pub partial: Seq<u8>,
}

impl SessionView {
    pub open spec fn wf(self) -> bool {
        self.registry.wf() && self.attempt <= MAX_RETRIES
    }

    /// `self` and `other` differ in their registries at most.
    pub open spec fn same_but_registry(self, other: SessionView) -> bool {
        &&& self.addr == other.addr
        &&& self.writer == other.writer
        &&& self.phase == other.phase
        &&& self.attempt == other.attempt
        &&& self.pending == other.pending
        &&& self.partial == other.partial
    }

    /// `self` and `other` differ in what they hold of the input at most:
    /// their pending texts and bytes.
    pub open spec fn same_but_pending(self, other: SessionView) -> bool {
        &&& self.addr == other.addr
        &&& self.registry == other.registry
        &&& self.writer == other.writer
        &&& self.phase == other.phase
        &&& self.attempt == other.attempt
    }

    /// `self` and `other` differ in their counts of retries at most.
    pub open spec fn same_but_attempt(self, other: SessionView) -> bool {
        &&& self.addr == other.addr
        &&& self.registry == other.registry
        &&& self.writer == other.writer
        &&& self.phase == other.phase
        &&& self.pending == other.pending
        &&& self.partial == other.partial
    }

    /// A new run of connection attempts.
    pub open spec fn connecting(self) -> SessionView {
        SessionView { phase: Phase::Connecting, attempt: 0, ..self }
    }

    /// Connected, about to send the registry, with nothing read yet.
    pub open spec fn opened(self) -> SessionView {
        SessionView {
            writer: true,
            phase: Phase::Resubscribing,
            attempt: 0,
            pending: Seq::empty(),
            partial: Seq::empty(),
            ..self
        }
    }

    /// The connection dropped before streaming began.
    pub open spec fn dropped(self) -> SessionView {
        SessionView { writer: false, phase: Phase::Connecting, attempt: 0, ..self }
    }

    /// Resubscribed and streaming.
    pub open spec fn streaming(self) -> SessionView {
        SessionView { phase: Phase::Streaming, ..self }
    }

    /// Stopped by its user: no connection, nothing pending, not started.
    pub open spec fn stopped(self) -> SessionView {
        SessionView {
            writer: false,
            phase: Phase::Idle,
            attempt: 0,
            pending: Seq::empty(),
            partial: Seq::empty(),
            ..self
        }
    }

    /// The connection was lost: no connection, nothing pending, connecting
    /// again.
    pub open spec fn lost(self) -> SessionView {
        SessionView {
            writer: false,
            phase: Phase::Connecting,
            attempt: 0,
            pending: Seq::empty(),
            partial: Seq::empty(),
            ..self
        }
    }
}

/// A command is given exactly when a connection is open, and it is `req`.
pub open spec fn command_when_open(cmd: Option<Command>, writer: bool, req: Request) -> bool {
    match cmd {
        Some(c) => writer && c@ == req,
        None => !writer,
    }
}

/// The outcome of an unsubscription: `NotSubscribed` when the name was not
/// there; else the command, exactly when a connection is open.
pub open spec fn unsubscribe_outcome(
    r: Result<Option<Command>, Error>,
    present: bool,
    writer: bool,
    req: Request,
) -> bool {
    match r {
        Ok(cmd) => present && command_when_open(cmd, writer, req),
        Err(e) => !present && e@ == ErrorKind::NotSubscribed,
    }
}

impl View for Session {
    type V = SessionView;

    closed spec fn view(&self) -> SessionView {
        SessionView {
            addr: self.addr@,
            registry: self.registry@,
            writer: self.writer,
            phase: self.phase,
            attempt: self.attempt as nat,
            pending: self.pending@,
            partial: self.partial@,
        }
    }
}

/// The backoff before retry number `attempt`, jitter aside, in milliseconds.
pub open spec fn backoff_base_ms(attempt: nat) -> nat {
    let square = attempt * attempt;
    (if square < MAX_BACKOFF_SECS {
        square
    } else {
        MAX_BACKOFF_SECS as nat
    }) * 1000
}

/// The commands that bring the server to the registry: a subscription to
/// each channel, then to each pattern.
pub open spec fn replay(r: RegistryView) -> Seq<Request> {
    r.channels.map_values(|c: Seq<char>| Request::Subscribe(c)) + r.patterns.map_values(
        |p: Seq<char>| Request::PatternSubscribe(p),
    )
}

/// The views of a sequence of commands.
pub open spec fn requests(cs: Seq<Command>) -> Seq<Request> {
    Seq::new(cs.len(), |i: int| cs[i]@)
}

/// The views of a sequence of messages.
pub open spec fn message_views(ms: Seq<Message>) -> Seq<MessageView> {
    Seq::new(ms.len(), |i: int| ms[i]@)
}

/// The message a decoded value gives, or the error that it does not.
pub open spec fn message_or_error(v: Value) -> MessageView {
    match response_message(v) {
        Ok(m) => m,
        Err(k) => MessageView::Error(k),
    }
}

/// Whether the bytes left over begin a value that can never parse.
pub open spec fn is_stuck(rest: Seq<u8>) -> bool {
    never_parses(rest, 0)
}

/// The messages given by the values decoded from text `t`; then the error
/// for a leftover that can never parse, if there is one.
pub open spec fn messages_of(t: Seq<char>) -> Seq<MessageView> {
    decoded(t).map_values(|v: Value| message_or_error(v)) + if is_stuck(leftover(t)) {
        seq![MessageView::Error(ErrorKind::Parser(ParserError::MalformedResponse))]
    } else {
        seq![]
    }
}

/// The bytes of text `t` kept for later: the leftover, unless it can never
/// parse.
pub open spec fn kept_of(t: Seq<char>) -> Seq<u8> {
    if is_stuck(leftover(t)) {
        seq![]
    } else {
        leftover(t)
    }
}

/// How many bytes the character that `c` starts is encoded in; 1 for a
/// byte that starts no longer encoding.
pub open spec fn encoded_width(c: u8) -> nat {
    if is_leading_byte_width_2(c) {
        2
    } else if is_leading_byte_width_3(c) {
        3
    } else if is_leading_byte_width_4(c) {
        4
    } else {
        1
    }
}

/// `t` begins the encoding of a character and more bytes could complete
/// it: a leading byte of a longer encoding, then continuation bytes only.
pub open spec fn is_unfinished(t: Seq<u8>) -> bool {
    &&& t.len() >= 1
    &&& encoded_width(t[0]) > t.len()
    &&& forall|i: int| 1 <= i < t.len() ==> is_continuation_byte(#[trigger] t[i])
}

/// The last `j` bytes of `b` begin an unfinished character.
pub open spec fn ends_unfinished(b: Seq<u8>, j: int) -> bool {
    1 <= j <= b.len() && is_unfinished(b.subrange(b.len() - j, b.len() as int))
}

/// How many bytes at the end of `b` begin a character that is not complete
/// yet.
pub open spec fn unfinished_len(b: Seq<u8>) -> nat {
    if ends_unfinished(b, 1) {
        1
    } else if ends_unfinished(b, 2) {
        2
    } else if ends_unfinished(b, 3) {
        3
    } else {
        0
    }
}

/// The bytes of `b` before an unfinished last character.
pub open spec fn utf8_body(b: Seq<u8>) -> Seq<u8> {
    b.subrange(0, b.len() - unfinished_len(b))
}

/// The bytes of an unfinished last character of `b`, if there is one.
pub open spec fn utf8_tail(b: Seq<u8>) -> Seq<u8> {
    b.subrange(b.len() - unfinished_len(b), b.len() as int)
}

/// Valid UTF-8 ends with no unfinished character.
proof fn lemma_valid_is_finished(v: Seq<u8>, j: int)
    requires
        valid_utf8(v),
    ensures
        !ends_unfinished(v, j),
    decreases v.len(),
{
    if 1 <= j <= v.len() {
        let w = length_of_first_scalar(v);
        let rest = pop_first_scalar(v);
        assert(valid_first_scalar(v) && valid_utf8(rest));
        let t = v.subrange(v.len() - j, v.len() as int);
        if j <= rest.len() {
            assert(rest.subrange(rest.len() - j, rest.len() as int) =~= t);
            lemma_valid_is_finished(rest, j);
        } else {
            let i = v.len() - j;
            assert(t[0] == v[i]);
            if i > 0 {
                assert(is_continuation_byte(v[i]));
            } else {
                assert(encoded_width(v[0]) == w);
            }
        }
    }
}

/// When a read ends inside a character of an otherwise valid stream, the
/// bytes before that character are the text to decode and the bytes of the
/// character wait for the next read: no error, and nothing lost.
pub proof fn lemma_cut_character_waits(v: Seq<u8>, c: char, k: int)
    requires
        valid_utf8(v),
        0 <= k < encode_scalar(c as u32).len(),
    ensures
        utf8_body(v + encode_scalar(c as u32).subrange(0, k)) == v,
        utf8_tail(v + encode_scalar(c as u32).subrange(0, k)) == encode_scalar(
            c as u32,
        ).subrange(0, k),
{
    let e = encode_scalar(c as u32);
    let t = e.subrange(0, k);
    let b = v + t;
    encode_utf8_first_scalar(seq![c]);
    assert(encode_utf8(seq![c]) =~= e) by {
        assert(seq![c].drop_first() =~= Seq::<char>::empty());
        assert(seq![c][0] == c);
        assert(encode_utf8(Seq::<char>::empty()) =~= Seq::<u8>::empty());
        assert(encode_utf8(seq![c]) == encode_scalar(seq![c][0] as u32) + encode_utf8(
            seq![c].drop_first(),
        ));
    }
    let w = e.len() as int;
    assert(encoded_width(e[0]) == w);
    assert forall|i: int| 1 <= i < w implies is_continuation_byte(#[trigger] e[i]) by {}
    if k == 0 {
        lemma_valid_is_finished(v, 1);
        lemma_valid_is_finished(v, 2);
        lemma_valid_is_finished(v, 3);
        assert(b =~= v);
    } else {
        let tk = b.subrange(b.len() - k, b.len() as int);
        assert(tk =~= t);
        assert(ends_unfinished(b, k));
        assert forall|j: int| 1 <= j < k implies !ends_unfinished(b, j) by {
            assert(b[b.len() - j] == e[k - j]);
            assert(b.subrange(b.len() - j, b.len() as int)[0] == b[b.len() - j]);
        }
        assert forall|j: int| k < j <= 3 && j <= b.len() implies !ends_unfinished(b, j) by {
            let tj = b.subrange(b.len() - j, b.len() as int);
            assert(tj[j - k] == e[0]);
        }
    }
    assert(b.subrange(0, v.len() as int) =~= v);
    assert(b.subrange(v.len() as int, b.len() as int) =~= t);
}

fn width_of(c: u8) -> (r: usize)
    ensures
        r == encoded_width(c),
{
    if 0xc0 <= c && c <= 0xdf {
        2
    } else if 0xe0 <= c && c <= 0xef {
        3
    } else if 0xf0 <= c && c <= 0xf7 {
        4
    } else {
        1
    }
}

/// Whether the bytes of `b` from `k` on begin an unfinished character.
fn unfinished_from(b: &Vec<u8>, k: usize) -> (r: bool)
    requires
        k < b@.len(),
    ensures
        r == is_unfinished(b@.subrange(k as int, b@.len() as int)),
{
    let ghost t = b@.subrange(k as int, b@.len() as int);
    if width_of(b[k]) <= b.len() - k {
        return false;
    }
    let mut i = k + 1;
    while i < b.len()
        invariant
            k < i <= b@.len(),
            t == b@.subrange(k as int, b@.len() as int),
            forall|j: int| 1 <= j < i - k ==> is_continuation_byte(#[trigger] t[j]),
        decreases b@.len() - i,
    {
        if b[i] < 0x80 || b[i] > 0xbf {
            assert(!is_continuation_byte(t[i - k]));
            return false;
        }
        assert(t[i - k] == b@[i as int]);
        i += 1;
    }
    true
}

/// How many bytes at the end of `b` begin a character not complete yet.
fn unfinished_tail_len(b: &Vec<u8>) -> (r: usize)
    ensures
        r == unfinished_len(b@),
{
    let n = b.len();
    if n >= 1 && unfinished_from(b, n - 1) {
        1
    } else if n >= 2 && unfinished_from(b, n - 2) {
        2
    } else if n >= 3 && unfinished_from(b, n - 3) {
        3
    } else {
        0
    }
}

/// Relies on rand's `thread_rng().gen_range(0..n)`: a number drawn from
/// `0..n`.
#[verifier::external_body]
fn jitter_ms() -> (r: u64)
    ensures
        r < JITTER_RANGE_MS,
{
    rand::thread_rng().gen_range(0..JITTER_RANGE_MS)
}

/// Relies on `std::str::from_utf8`: it accepts exactly the valid UTF-8 byte
/// sequences, and the text it gives has those bytes.
#[verifier::external_body]
fn utf8_text(b: &[u8]) -> (r: Result<&str, std::str::Utf8Error>)
    ensures
        r is Ok <==> valid_utf8(b@),
        r matches Ok(s) ==> s.spec_bytes() == b@,
{
    std::str::from_utf8(b)
}

/// The backoff before retry number `attempt`, in milliseconds: the square
/// of `attempt` in seconds, at most 64 seconds, plus `jitter_ms`.
pub fn backoff_delay_ms(attempt: u32, jitter_ms: u64) -> (d: u64)
    requires
        jitter_ms < JITTER_RANGE_MS,
    ensures
        d == backoff_base_ms(attempt as nat) + jitter_ms,
{
    let secs: u64 = if attempt >= 8 {
        MAX_BACKOFF_SECS
    } else {
        let a = attempt as u64;
        assert(a * a < 64) by (nonlinear_arith)
            requires
                a < 8,
        ;
        a * a
    };
    assert(attempt >= 8 ==> attempt * attempt >= 64) by (nonlinear_arith);
    secs * 1000 + jitter_ms
}

/// After the connection is lost and made again, the commands sent before
/// anything is read, and so before `Connected`, are one subscription for each
/// channel and one for each pattern that the registry held when the
/// connection was lost, each exactly once, and nothing else. Losing the
/// connection leaves the registry as it was.
pub proof fn lemma_reconnect_resubscribes(s: SessionView)
    requires
        s.wf(),
    ensures
        s.lost().registry == s.registry,
        s.lost().opened().registry == s.registry,
        s.lost().opened().phase == Phase::Resubscribing,
        replay(s.lost().registry).no_duplicates(),
        forall|c: Seq<char>|
            s.registry.channels.contains(c) <==> #[trigger] replay(s.lost().registry).contains(
                Request::Subscribe(c),
            ),
        forall|p: Seq<char>|
            s.registry.patterns.contains(p) <==> #[trigger] replay(s.lost().registry).contains(
                Request::PatternSubscribe(p),
            ),
        forall|x: Request|
            #[trigger] replay(s.lost().registry).contains(x) ==> (x is Subscribe
                || x is PatternSubscribe),
{
    let r = s.registry;
    let a = r.channels.map_values(|c: Seq<char>| Request::Subscribe(c));
    let b = r.patterns.map_values(|p: Seq<char>| Request::PatternSubscribe(p));
    let all = replay(r);
    assert(all == a + b);
    assert(a.no_duplicates()) by {
        assert forall|i: int, j: int| 0 <= i < a.len() && 0 <= j < a.len() && i != j implies a[i]
            != a[j] by {
            assert(r.channels[i] != r.channels[j]);
        }
    }
    assert(b.no_duplicates()) by {
        assert forall|i: int, j: int| 0 <= i < b.len() && 0 <= j < b.len() && i != j implies b[i]
            != b[j] by {
            assert(r.patterns[i] != r.patterns[j]);
        }
    }
    vstd::seq_lib::lemma_no_dup_in_concat(a, b);
    assert forall|c: Seq<char>| r.channels.contains(c) <==> #[trigger] all.contains(
        Request::Subscribe(c),
    ) by {
        if r.channels.contains(c) {
            let i = choose|i: int| 0 <= i < r.channels.len() && r.channels[i] == c;
            assert(all[i] == Request::Subscribe(c));
        }
        if all.contains(Request::Subscribe(c)) {
            let k = choose|k: int| 0 <= k < all.len() && all[k] == Request::Subscribe(c);
            if k >= a.len() {
                assert(all[k] == b[k - a.len()]);
            } else {
                assert(r.channels[k] == c);
            }
        }
    }
    assert forall|p: Seq<char>| r.patterns.contains(p) <==> #[trigger] all.contains(
        Request::PatternSubscribe(p),
    ) by {
        if r.patterns.contains(p) {
            let i = choose|i: int| 0 <= i < r.patterns.len() && r.patterns[i] == p;
            assert(all[a.len() + i] == Request::PatternSubscribe(p));
        }
        if all.contains(Request::PatternSubscribe(p)) {
            let k = choose|k: int| 0 <= k < all.len() && all[k] == Request::PatternSubscribe(p);
            if k < a.len() {
                assert(all[k] == a[k]);
            } else {
                assert(r.patterns[k - a.len()] == p);
            }
        }
    }
    assert forall|x: Request| #[trigger] all.contains(x) implies (x is Subscribe
        || x is PatternSubscribe) by {
        let k = choose|k: int| 0 <= k < all.len() && all[k] == x;
        if k < a.len() {
            assert(all[k] == a[k]);
        } else {
            assert(all[k] == b[k - a.len()]);
        }
    }
}

/// A decoded value of a kind that no message has becomes an error message in
/// its place; every other value still gives its own message, in order.
pub proof fn lemma_unknown_kind_is_skipped(t: Seq<char>, i: int)
    requires
        0 <= i < decoded(t).len(),
        decoded(t)[i] matches Value::Array(items) && items.len() > 0 && items[0] is Bulk,
        !is_known_kind(lower_of(decoded(t)[i]->Array_0[0]->Bulk_0)),
    ensures
        messages_of(t)[i] == MessageView::Error(ErrorKind::Parser(ParserError::MalformedResponse)),
        forall|j: int|
            0 <= j < decoded(t).len() ==> #[trigger] messages_of(t)[j] == message_or_error(
                decoded(t)[j],
            ),
        messages_of(t).len() >= decoded(t).len(),
{
}

/// Subscription commands for each of `names`, in order.
fn subscriptions(names: &Vec<String>, pattern: bool) -> (r: Vec<Command>)
    ensures
        requests(r@) == if pattern {
            crate::registry::texts(names@).map_values(|p: Seq<char>| Request::PatternSubscribe(p))
        } else {
            crate::registry::texts(names@).map_values(|c: Seq<char>| Request::Subscribe(c))
        },
{
    let mut out: Vec<Command> = Vec::new();
    let mut i: usize = 0;
    while i < names.len()
        invariant
            0 <= i <= names@.len(),
            requests(out@) =~= (if pattern {
                crate::registry::texts(names@).map_values(
                    |p: Seq<char>| Request::PatternSubscribe(p),
                )
            } else {
                crate::registry::texts(names@).map_values(|c: Seq<char>| Request::Subscribe(c))
            }).subrange(0, i as int),
        decreases names@.len() - i,
    {
        let ghost before = out@;
        let name = names[i].clone();
        let cmd = if pattern {
            Command::PatternSubscribe(name)
        } else {
            Command::Subscribe(name)
        };
        out.push(cmd);
        assert(requests(out@) =~= requests(before).push(cmd@));
        i += 1;
    }
    out
}

impl Session {
    /// A session with the server at `addr`, not connected, with an empty
    /// registry.
    pub fn new(addr: &str) -> (s: Session)
        ensures
            s@.addr == addr@,
            s@.registry.channels.len() == 0,
            s@.registry.patterns.len() == 0,
            !s@.writer,
            s@.phase == Phase::Idle,
            s@.attempt == 0,
            s@.pending.len() == 0,
            s@.partial.len() == 0,
            s@.wf(),
    {
        Session {
            addr: addr.to_owned(),
            registry: Registry::new(),
            writer: false,
            phase: Phase::Idle,
            attempt: 0,
            pending: String::new(),
            partial: Vec::new(),
        }
    }

    /// Adds a channel to the registry. Gives the command to send when a
    /// connection is open; otherwise the next resubscription sends it.
    pub fn subscribe(&mut self, channel: String) -> (cmd: Option<Command>)
        requires
            old(self)@.wf(),
        ensures
            final(self)@.wf(),
            final(self)@.registry.channels == with_name(old(self)@.registry.channels, channel@),
            final(self)@.registry.patterns == old(self)@.registry.patterns,
            final(self)@.same_but_registry(old(self)@),
            command_when_open(cmd, old(self)@.writer, Request::Subscribe(channel@)),
    {
        let name = channel.clone();
        self.registry.add_channel(channel);
        if self.writer {
            Some(Command::Subscribe(name))
        } else {
            None
        }
    }

    /// Takes a channel out of the registry. Gives the command to send when a
    /// connection is open.
    ///
    /// # Errors
    /// Returns `Error::NotSubscribed`, and changes nothing, when the channel
    /// is not in the registry.
    pub fn unsubscribe(&mut self, channel: String) -> (r: Result<Option<Command>, Error>)
        requires
            old(self)@.wf(),
        ensures
            final(self)@.wf(),
            unsubscribe_outcome(
                r,
                old(self)@.registry.channels.contains(channel@),
                old(self)@.writer,
                Request::Unsubscribe(channel@),
            ),
            !old(self)@.registry.channels.contains(channel@) ==> final(self)@ == old(self)@,
            final(self)@.registry.channels.to_set() == old(self)@.registry.channels.to_set().remove(
                channel@,
            ),
            final(self)@.registry.patterns == old(self)@.registry.patterns,
            final(self)@.same_but_registry(old(self)@),
    {
        if !self.registry.remove_channel(&channel) {
            return Err(Error::NotSubscribed);
        }
        if self.writer {
            Ok(Some(Command::Unsubscribe(channel)))
        } else {
            Ok(None)
        }
    }

    /// Adds a pattern to the registry. Gives the command to send when a
    /// connection is open; otherwise the next resubscription sends it.
    pub fn psubscribe(&mut self, pattern: String) -> (cmd: Option<Command>)
        requires
            old(self)@.wf(),
        ensures
            final(self)@.wf(),
            final(self)@.registry.patterns == with_name(old(self)@.registry.patterns, pattern@),
            final(self)@.registry.channels == old(self)@.registry.channels,
            final(self)@.same_but_registry(old(self)@),
            command_when_open(cmd, old(self)@.writer, Request::PatternSubscribe(pattern@)),
    {
        let name = pattern.clone();
        self.registry.add_pattern(pattern);
        if self.writer {
            Some(Command::PatternSubscribe(name))
        } else {
            None
        }
    }

    /// Takes a pattern out of the registry. Gives the command to send when a
    /// connection is open.
    ///
    /// # Errors
    /// Returns `Error::NotSubscribed`, and changes nothing, when the pattern
    /// is not in the registry.
    pub fn punsubscribe(&mut self, pattern: String) -> (r: Result<Option<Command>, Error>)
        requires
            old(self)@.wf(),
        ensures
            final(self)@.wf(),
            unsubscribe_outcome(
                r,
                old(self)@.registry.patterns.contains(pattern@),
                old(self)@.writer,
                Request::PatternUnsubscribe(pattern@),
            ),
            !old(self)@.registry.patterns.contains(pattern@) ==> final(self)@ == old(self)@,
            final(self)@.registry.patterns.to_set() == old(self)@.registry.patterns.to_set().remove(
                pattern@,
            ),
            final(self)@.registry.channels == old(self)@.registry.channels,
            final(self)@.same_but_registry(old(self)@),
    {
        if !self.registry.remove_pattern(&pattern) {
            return Err(Error::NotSubscribed);
        }
        if self.writer {
            Ok(Some(Command::PatternUnsubscribe(pattern)))
        } else {
            Ok(None)
        }
    }

    /// Starts a run of connection attempts, with no retry counted yet.
    pub fn start_connecting(&mut self)
        requires
            old(self)@.wf(),
        ensures
            final(self)@ == old(self)@.connecting(),
            final(self)@.wf(),
    {
        self.phase = Phase::Connecting;
        self.attempt = 0;
    }

    /// A connection attempt failed. Gives how long to wait, in milliseconds,
    /// before the next attempt; or `None` when the retries are used up, the
    /// run of attempts is given up and the next one starts afresh.
    pub fn connect_failed(&mut self) -> (delay: Option<u64>)
        requires
            old(self)@.wf(),
        ensures
            final(self)@.wf(),
            final(self)@.same_but_attempt(old(self)@.connecting()),
            final(self)@.attempt == if old(self)@.attempt < MAX_RETRIES {
                old(self)@.attempt + 1
            } else {
                0
            },
            delay is Some <==> old(self)@.attempt < MAX_RETRIES,
            delay matches Some(d) ==> backoff_base_ms(final(self)@.attempt) <= d,
            delay matches Some(d) ==> d < backoff_base_ms(final(self)@.attempt) + JITTER_RANGE_MS,
    {
        self.phase = Phase::Connecting;
        if self.attempt < MAX_RETRIES {
            self.attempt = self.attempt + 1;
            let jitter = jitter_ms();
            Some(backoff_delay_ms(self.attempt, jitter))
        } else {
            self.attempt = 0;
            None
        }
    }

    /// A connection is open. Gives the commands to send on it, in order,
    /// before anything is read.
    pub fn connected(&mut self) -> (cmds: Vec<Command>)
        requires
            old(self)@.wf(),
        ensures
            final(self)@ == old(self)@.opened(),
            final(self)@.wf(),
            requests(cmds@) == replay(old(self)@.registry),
    {
        self.writer = true;
        self.phase = Phase::Resubscribing;
        self.attempt = 0;
        self.pending = String::new();
        self.partial = Vec::new();
        let channels = self.registry.channels();
        let patterns = self.registry.patterns();
        let mut cmds = subscriptions(&channels, false);
        let mut rest = subscriptions(&patterns, true);
        let ghost first = cmds@;
        let ghost second = rest@;
        cmds.append(&mut rest);
        assert(requests(cmds@) =~= requests(first) + requests(second));
        cmds
    }

    /// Sending the registry failed: the connection is dropped and the
    /// session connects again.
    pub fn resubscribe_failed(&mut self)
        requires
            old(self)@.wf(),
        ensures
            final(self)@ == old(self)@.dropped(),
            final(self)@.wf(),
    {
        self.writer = false;
        self.phase = Phase::Connecting;
        self.attempt = 0;
    }

    /// The registry was sent: the session streams, and says so.
    pub fn resubscribed(&mut self) -> (m: Message)
        requires
            old(self)@.wf(),
        ensures
            final(self)@ == old(self)@.streaming(),
            final(self)@.wf(),
            m is Connected,
    {
        self.phase = Phase::Streaming;
        Message::Connected
    }

    /// The connection was lost, for `cause`: the read returned no bytes or
    /// failed. The connection is dropped, the registry kept, and the session
    /// connects again.
    pub fn connection_lost(&mut self, cause: Error) -> (m: Message)
        requires
            old(self)@.wf(),
        ensures
            final(self)@ == old(self)@.lost(),
            final(self)@.wf(),
            m@ == MessageView::Disconnected(cause@),
    {
        self.writer = false;
        self.phase = Phase::Connecting;
        self.attempt = 0;
        self.pending = String::new();
        self.partial = Vec::new();
        Message::Disconnected(cause)
    }

    /// Bytes were read from the server. Gives the messages they complete, in
    /// order: the message of each value decoded, or the error that it is
    /// none. A character cut by the end of a read waits for the rest of its
    /// bytes. Bytes that can never be valid UTF-8 are dropped with an error.
    /// A leftover that can never parse is dropped with an error.
    pub fn received(&mut self, data: &[u8]) -> (msgs: Vec<Message>)
        requires
            old(self)@.wf(),
        ensures
            final(self)@.wf(),
            final(self)@.same_but_pending(old(self)@),
            final(self)@.partial == utf8_tail(old(self)@.partial + data@),
            valid_utf8(utf8_body(old(self)@.partial + data@)) ==> message_views(msgs@)
                == messages_of(
                old(self)@.pending + decode_utf8(utf8_body(old(self)@.partial + data@)),
            ),
            valid_utf8(utf8_body(old(self)@.partial + data@)) ==> encode_utf8(
                final(self)@.pending,
            ) == kept_of(
                old(self)@.pending + decode_utf8(utf8_body(old(self)@.partial + data@)),
            ),
            !valid_utf8(utf8_body(old(self)@.partial + data@)) ==> message_views(msgs@)
                == seq![MessageView::Error(ErrorKind::Utf8)],
            !valid_utf8(utf8_body(old(self)@.partial + data@)) ==> final(self)@.pending == old(
                self,
            )@.pending,
    {
        let ghost all0 = self.partial@ + data@;
        let mut all: Vec<u8> = Vec::new();
        all.append(&mut self.partial);
        all.extend_from_slice(data);
        assert(all@ =~= all0);
        let cut = all.len() - unfinished_tail_len(&all);
        let tail = all.split_off(cut);
        self.partial = tail;
        let mut msgs: Vec<Message> = Vec::new();
        let text = match utf8_text(all.as_slice()) {
            Ok(t) => t,
            Err(e) => {
                msgs.push(Message::Error(Error::Utf8Error(e)));
                assert(message_views(msgs@) =~= seq![MessageView::Error(ErrorKind::Utf8)]);
                return msgs;
            },
        };
        proof {
            encode_utf8_decode_utf8(text@);
        }
        let ghost t = self.pending@ + text@;
        self.pending.append(text);
        let values = parse(&mut self.pending);
        let ghost vs = values@;
        let ghost expected = decoded(t).map_values(|v: Value| message_or_error(v));
        for v in it: values
            invariant
                it.seq() == vs,
                views(vs) == decoded(t),
                expected == decoded(t).map_values(|v: Value| message_or_error(v)),
                message_views(msgs@) =~= expected.subrange(0, it.index() as int),
        {
            let ghost before = msgs@;
            let m = match Message::from_response(v) {
                Ok(m) => m,
                Err(e) => Message::Error(e),
            };
            msgs.push(m);
            assert(message_views(msgs@) =~= message_views(before).push(m@));
        }
        assert(message_views(msgs@) =~= expected);
        let stuck = {
            let rest = self.pending.as_str();
            can_never_parse(rest, rest.as_bytes(), 0)
        };
        assert(stuck == is_stuck(leftover(t)));
        if stuck {
            self.pending = String::new();
            let ghost before = msgs@;
            let m = Message::Error(Error::ParserError(ParserError::MalformedResponse));
            msgs.push(m);
            assert(message_views(msgs@) =~= message_views(before).push(m@));
            assert(encode_utf8(self.pending@) =~= Seq::<u8>::empty());
        } else {
            assert(message_views(msgs@) =~= expected + seq![]);
        }
        msgs
    }

    /// The session is stopped by its user: the connection is dropped, the
    /// registry kept, and nothing happens until it is started again.
    pub fn stop(&mut self)
        requires
            old(self)@.wf(),
        ensures
            final(self)@ == old(self)@.stopped(),
            final(self)@.wf(),
    {
        self.writer = false;
        self.phase = Phase::Idle;
        self.attempt = 0;
        self.pending = String::new();
        self.partial = Vec::new();
    }

    /// The address of the server.
    pub fn addr(&self) -> (r: &str)
        ensures
            r@ == self@.addr,
    {
        self.addr.as_str()
    }

    /// Where the session stands.
    pub fn phase(&self) -> (r: Phase)
        ensures
            r == self@.phase,
    {
        self.phase
    }

    /// Whether a connection is open to send commands on.
    pub fn has_writer(&self) -> (r: bool)
        ensures
            r == self@.writer,
    {
        self.writer
    }
}

} // verus!
