//! The link to the card: what the protocol engine asks of it, the record of
//! what happened on it, a scripted link that plays back canned replies, and
//! a link made of two functions, for hardware that lives outside this crate.
use vstd::prelude::*;

verus! {

/// A failure of the link itself, as opposed to an unexpected byte from the card.
#[derive(Debug, Clone, Copy, PartialEq, Eq, Structural)]
pub enum Fault {
    /// The ready line could not be polled.
    Signal,
    /// The byte exchange could not be carried out.
    Exchange,
}

/// One operation on the link together with its outcome.
pub enum Event {
    /// A wait on the ready line of at most `timeout_ms` milliseconds. `seen`
    /// is `Ok(true)` if the edge was observed and `Ok(false)` if time ran out.
    Wait { timeout_ms: u64, seen: Result<bool, Fault> },
    /// An exchange that put `sent` on the wire and took `reply` from it.
    Transfer { sent: u8, reply: Result<u8, Fault> },
}

/// A synchronous byte link with a ready line. Every operation appends its own
/// record to the log and leaves the earlier records alone.
pub trait Transport {
    /// Everything that has happened on this link, oldest first.
    spec fn log(&self) -> Seq<Event>;

    /// Blocks until the ready line shows an edge or `timeout_ms` have passed.
    fn wait_ready(&mut self, timeout_ms: u64) -> (seen: Result<bool, Fault>)
        ensures
            final(self).log() == old(self).log().push(Event::Wait { timeout_ms, seen }),
    ;

    /// Shifts `out` onto the wire and returns the byte shifted in meanwhile.
    fn transfer(&mut self, out: u8) -> (reply: Result<u8, Fault>)
        ensures
            final(self).log() == old(self).log().push(Event::Transfer { sent: out, reply }),
    ;
}

/// A link that answers from a script. The i-th exchange is answered by the
/// i-th entry of the script; once the script is used up every exchange fails.
/// Every wait on the ready line ends the same way, fixed at construction.
pub struct ScriptedLink {
    script: Vec<Result<u8, Fault>>,
    cursor: usize,
    ready: Result<bool, Fault>,
    sent: Vec<u8>,
    waits: usize,
    history: Ghost<Seq<Event>>,
}

impl ScriptedLink {
    /// The answers that the link will give, in order.
    pub closed spec fn script(&self) -> Seq<Result<u8, Fault>> {
        self.script@
    }

    /// How many entries of the script have been used.
    pub closed spec fn cursor(&self) -> nat {
        self.cursor as nat
    }

    /// How each wait on the ready line ends.
    pub closed spec fn ready(&self) -> Result<bool, Fault> {
        self.ready
    }

    /// The bytes put on the wire so far.
    pub closed spec fn spec_sent(&self) -> Seq<u8> {
        self.sent@
    }

    /// How many waits on the ready line were asked for, saturating.
    pub closed spec fn spec_waits(&self) -> nat {
        self.waits as nat
    }

    /// The answer to the next exchange.
    pub open spec fn next_reply(&self) -> Result<u8, Fault> {
        if self.cursor() < self.script().len() {
            self.script()[self.cursor() as int]
        } else {
            Err(Fault::Exchange)
        }
    }

    pub fn new(script: Vec<Result<u8, Fault>>, ready: Result<bool, Fault>) -> (link: ScriptedLink)
        ensures
            link.script() == script@,
            link.cursor() == 0,
            link.ready() == ready,
            link.spec_sent() == Seq::<u8>::empty(),
            link.spec_waits() == 0,
            link.log() == Seq::<Event>::empty(),
    {
        ScriptedLink {
            script,
            cursor: 0,
            ready,
            sent: Vec::new(),
            waits: 0,
            history: Ghost(Seq::empty()),
        }
    }

    /// The bytes put on the wire so far, oldest first.
    pub fn sent(&self) -> (bytes: &Vec<u8>)
        ensures
            bytes@ == self.spec_sent(),
    {
        &self.sent
    }

    /// How many waits on the ready line were asked for.
    pub fn waits(&self) -> (n: usize)
        ensures
            n == self.spec_waits(),
    {
        self.waits
    }

    /// How many entries of the script are still unused.
    pub fn remaining(&self) -> (n: usize)
        ensures
            n == if self.cursor() <= self.script().len() {
                self.script().len() - self.cursor()
            } else {
                0
            },
    {
        if self.cursor <= self.script.len() {
            self.script.len() - self.cursor
        } else {
            0
        }
    }
}

impl Transport for ScriptedLink {
    closed spec fn log(&self) -> Seq<Event> {
        self.history@
    }

    fn wait_ready(&mut self, timeout_ms: u64) -> (seen: Result<bool, Fault>)
        ensures
            seen == old(self).ready(),
            final(self).ready() == old(self).ready(),
            final(self).script() == old(self).script(),
            final(self).cursor() == old(self).cursor(),
            final(self).spec_sent() == old(self).spec_sent(),
            final(self).spec_waits() == if old(self).spec_waits() < usize::MAX {
                old(self).spec_waits() + 1
            } else {
                old(self).spec_waits()
            },
    {
        if self.waits < usize::MAX {
            self.waits = self.waits + 1;
        }
        let seen = self.ready;
        self.history = Ghost(self.history@.push(Event::Wait { timeout_ms, seen }));
        seen
    }

    fn transfer(&mut self, out: u8) -> (reply: Result<u8, Fault>)
        ensures
            reply == old(self).next_reply(),
            final(self).ready() == old(self).ready(),
            final(self).script() == old(self).script(),
            final(self).cursor() == if old(self).cursor() < old(self).script().len() {
                old(self).cursor() + 1
            } else {
                old(self).cursor()
            },
            final(self).spec_sent() == old(self).spec_sent().push(out),
            final(self).spec_waits() == old(self).spec_waits(),
    {
        self.sent.push(out);
        let reply = if self.cursor < self.script.len() {
            let r = self.script[self.cursor];
            self.cursor = self.cursor + 1;
            r
        } else {
            Err(Fault::Exchange)
        };
        self.history = Ghost(self.history@.push(Event::Transfer { sent: out, reply }));
        reply
    }
}

/// A link whose two operations are functions handed in by the caller: one
/// that waits on the ready line and one that exchanges a byte. Whatever they
/// return is recorded and handed on.
pub struct CallbackLink<W: Fn(u64) -> Result<bool, Fault>, X: Fn(u8) -> Result<u8, Fault>> {
    wait: W,
    exchange: X,
    history: Ghost<Seq<Event>>,
}

impl<W: Fn(u64) -> Result<bool, Fault>, X: Fn(u8) -> Result<u8, Fault>> CallbackLink<W, X> {
    /// Both functions can be called with any argument.
    #[verifier::type_invariant]
    spec fn callable(self) -> bool {
        &&& forall|timeout_ms: u64| call_requires(self.wait, (timeout_ms,))
        &&& forall|out: u8| call_requires(self.exchange, (out,))
    }

    /// The function that waits on the ready line.
    pub closed spec fn wait_fn(&self) -> W {
        self.wait
    }

    /// The function that exchanges a byte.
    pub closed spec fn exchange_fn(&self) -> X {
        self.exchange
    }

    /// A link with an empty log that waits with `wait` and exchanges with `exchange`.
    pub fn new(wait: W, exchange: X) -> (link: Self)
        requires
            forall|timeout_ms: u64| call_requires(wait, (timeout_ms,)),
            forall|out: u8| call_requires(exchange, (out,)),
        ensures
            link.log() == Seq::<Event>::empty(),
            link.wait_fn() == wait,
            link.exchange_fn() == exchange,
    {
        CallbackLink { wait, exchange, history: Ghost(Seq::empty()) }
    }
}

impl<W: Fn(u64) -> Result<bool, Fault>, X: Fn(u8) -> Result<u8, Fault>> Transport for CallbackLink<
    W,
    X,
> {
    closed spec fn log(&self) -> Seq<Event> {
        self.history@
    }

    fn wait_ready(&mut self, timeout_ms: u64) -> (seen: Result<bool, Fault>)
        ensures
            call_ensures(old(self).wait_fn(), (timeout_ms,), seen),
            final(self).wait_fn() == old(self).wait_fn(),
            final(self).exchange_fn() == old(self).exchange_fn(),
    {
        proof {
            use_type_invariant(&*self);
        }
        let seen = (self.wait)(timeout_ms);
        self.history = Ghost(self.history@.push(Event::Wait { timeout_ms, seen }));
        seen
    }

    fn transfer(&mut self, out: u8) -> (reply: Result<u8, Fault>)
        ensures
            call_ensures(old(self).exchange_fn(), (out,), reply),
            final(self).wait_fn() == old(self).wait_fn(),
            final(self).exchange_fn() == old(self).exchange_fn(),
    {
        proof {
            use_type_invariant(&*self);
        }
        let reply = (self.exchange)(out);
        self.history = Ghost(self.history@.push(Event::Transfer { sent: out, reply }));
        reply
    }
}

} // verus!
