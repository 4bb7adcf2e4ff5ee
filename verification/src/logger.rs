//! The trace capability the algorithms draw on: a sink that is asked
//! whether it records at all before any message is built, that appends
//! one line per recorded message, and that hands the accumulated text
//! back when it is consumed.

use vstd::prelude::*;
use vstd::string::StringExecFns;

verus! {

/// A sink for step-by-step derivation traces.  An algorithm first asks
/// `can_write` and only then builds and logs a message, so a disabled sink
/// costs no formatting work.
pub trait Logger: Sized {
    /// Whether this sink records messages at all.
    spec fn writes(&self) -> bool;

    /// The text accumulated so far, one line per logged message.
    spec fn trace(&self) -> Seq<char>;

    /// The text that `results` returns for the current state.
    spec fn rendered(&self) -> Seq<char>;

    /// Cheap, side-effect-free test that tells whether `log` records.
    fn can_write(&self) -> (r: bool)
        ensures
            r == self.writes(),
    ;

    /// Records `message` as one line when the sink is active.
    fn log(&mut self, message: String)
        ensures
            final (self).writes() == old(self).writes(),
            final (self).trace() == if old(self).writes() {
                old(self).trace() + message@ + "\n"@
            } else {
                old(self).trace()
            },
    ;

    /// Consumes the sink and returns the accumulated trace, or a fixed
    /// placeholder where nothing was (or could be) recorded.
    fn results(self) -> (r: String)
        ensures
            r@ == self.rendered(),
    ;
}

/// A sequence is a prefix of itself: the trace of an untouched sink.
pub proof fn lemma_trace_prefix_refl(a: Seq<char>)
    ensures
        a.is_prefix_of(a),
{
    assert(a.subrange(0, a.len() as int) =~= a);
}

/// A prefix of the trace survives one `log` call: the sink either appends
/// a newline-terminated line or leaves the trace as it was.
pub proof fn lemma_trace_prefix_log(pre: Seq<char>, cur: Seq<char>, msg: Seq<char>, fin: Seq<char>)
    requires
        pre.is_prefix_of(cur),
        fin == cur + msg + "\n"@ || fin == cur,
    ensures
        pre.is_prefix_of(fin),
{
    if fin != cur {
        assert(fin.subrange(0, pre.len() as int) =~= cur.subrange(0, pre.len() as int));
    }
}

/// A sink that records nothing.
pub struct NoOpLogger;

impl Logger for NoOpLogger {
    open spec fn writes(&self) -> bool {
        false
    }

    open spec fn trace(&self) -> Seq<char> {
        Seq::empty()
    }

    open spec fn rendered(&self) -> Seq<char> {
        "\u{41b}\u{43e}\u{433}\u{438}\u{440}\u{43e}\u{432}\u{430}\u{43d}\u{438}\u{435} \u{431}\u{44b}\u{43b}\u{43e} \u{43e}\u{442}\u{43a}\u{43b}\u{44e}\u{447}\u{435}\u{43d}\u{43e}."@
    }

    fn can_write(&self) -> (r: bool) {
        false
    }

    fn log(&mut self, _message: String) {
    }

    fn results(self) -> (r: String) {
        String::from_str("\u{41b}\u{43e}\u{433}\u{438}\u{440}\u{43e}\u{432}\u{430}\u{43d}\u{438}\u{435} \u{431}\u{44b}\u{43b}\u{43e} \u{43e}\u{442}\u{43a}\u{43b}\u{44e}\u{447}\u{435}\u{43d}\u{43e}.")
    }
}

/// A sink that accumulates every logged line in a string.
pub struct StringLogger {
    buffer: String,
}

impl StringLogger {
    /// An empty, active sink.
    pub fn new() -> (r: StringLogger)
        ensures
            r.writes(),
            r.trace() == Seq::<char>::empty(),
    {
        StringLogger { buffer: String::new() }
    }
}

impl Logger for StringLogger {
    open spec fn writes(&self) -> bool {
        true
    }

    closed spec fn trace(&self) -> Seq<char> {
        self.buffer@
    }

    open spec fn rendered(&self) -> Seq<char> {
        if self.trace().len() == 0 {
            "\u{410}\u{43b}\u{433}\u{43e}\u{440}\u{438}\u{442}\u{43c} \u{43d}\u{435} \u{43f}\u{440}\u{43e}\u{438}\u{437}\u{432}\u{435}\u{43b} \u{43d}\u{438}\u{43a}\u{430}\u{43a}\u{438}\u{445} \u{43b}\u{43e}\u{433}\u{43e}\u{432}."@
        } else {
            self.trace()
        }
    }

    fn can_write(&self) -> (r: bool) {
        true
    }

    fn log(&mut self, message: String) {
        self.buffer.append(message.as_str());
        self.buffer.append("\n");
    }

    fn results(self) -> (r: String) {
        if self.buffer.as_str().is_empty() {
            String::from_str("\u{410}\u{43b}\u{433}\u{43e}\u{440}\u{438}\u{442}\u{43c} \u{43d}\u{435} \u{43f}\u{440}\u{43e}\u{438}\u{437}\u{432}\u{435}\u{43b} \u{43d}\u{438}\u{43a}\u{430}\u{43a}\u{438}\u{445} \u{43b}\u{43e}\u{433}\u{43e}\u{432}.")
        } else {
            self.buffer
        }
    }
}

} // verus!

