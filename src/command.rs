use vstd::prelude::*;

verus! {

/// A request sent to the server.
#[derive(Debug)]
pub enum Command {
    Subscribe(String),
    Unsubscribe(String),
    PatternSubscribe(String),
    PatternUnsubscribe(String),
}

/// What a `Command` asks for.
pub enum Request {
    Subscribe(Seq<char>),
    Unsubscribe(Seq<char>),
    PatternSubscribe(Seq<char>),
    PatternUnsubscribe(Seq<char>),
}

impl View for Command {
    type V = Request;

    open spec fn view(&self) -> Request {
        match self {
            Command::Subscribe(t) => Request::Subscribe(t@),
            Command::Unsubscribe(t) => Request::Unsubscribe(t@),
            Command::PatternSubscribe(t) => Request::PatternSubscribe(t@),
            Command::PatternUnsubscribe(t) => Request::PatternUnsubscribe(t@),
        }
    }
}

impl Command {
    /// The verb that starts the command line, with its trailing space.
    pub open spec fn verb(&self) -> Seq<char> {
        match self {
            Command::Subscribe(_) => "SUBSCRIBE "@,
            Command::Unsubscribe(_) => "UNSUBSCRIBE "@,
            Command::PatternSubscribe(_) => "PSUBSCRIBE "@,
            Command::PatternUnsubscribe(_) => "PUNSUBSCRIBE "@,
        }
    }

    /// The channel or pattern the command names.
    pub open spec fn name(&self) -> Seq<char> {
        match self {
            Command::Subscribe(t) => t@,
            Command::Unsubscribe(t) => t@,
            Command::PatternSubscribe(t) => t@,
            Command::PatternUnsubscribe(t) => t@,
        }
    }

    /// The line sent on the wire: `<VERB> <name>\r\n`.
    pub open spec fn line(&self) -> Seq<char> {
        self.verb() + self.name() + "\r\n"@
    }

    /// Renders the command as it is written to the server.
    pub fn to_string(&self) -> (r: String)
        ensures
            r@ == self.line(),
    {
        let (verb, name) = match self {
            Command::Subscribe(t) => ("SUBSCRIBE ", t),
            Command::Unsubscribe(t) => ("UNSUBSCRIBE ", t),
            Command::PatternSubscribe(t) => ("PSUBSCRIBE ", t),
            Command::PatternUnsubscribe(t) => ("PUNSUBSCRIBE ", t),
        };
        let mut out = verb.to_owned();
        out.append(name.as_str());
        out.append("\r\n");
        out
    }
}

} // verus!
